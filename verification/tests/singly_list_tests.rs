use omni_arsenal::SinglyLinkedList;

#[test]
fn singly_linked_list_prepend_test() {
    let mut list = SinglyLinkedList::new_empty();
    list.prepend(42);

    assert_eq!(list.len, 1);
    assert_eq!(list.total_size_bytes, std::mem::size_of::<i32>());
}

#[test]
fn singly_linked_list_append_test() {
    let mut list = SinglyLinkedList::new_empty();
    list.append(42);

    assert_eq!(list.len, 1);
    assert_eq!(list.total_size_bytes, std::mem::size_of::<i32>());
}

#[test]
fn singly_linked_list_pop_test() {
    let mut list = SinglyLinkedList::new_empty();
    list.prepend(42);
    list.prepend(43);
    list.prepend(44);

    assert_eq!(list.pop(), Some(44));
    assert_eq!(list.pop(), Some(43));
    assert_eq!(list.pop(), Some(42));
    assert_eq!(list.pop(), None);
}

#[test]
fn singly_linked_list_peek_test() {
    let mut list = SinglyLinkedList::new_empty();
    list.prepend(42);

    assert_eq!(list.peek(), Some(42));
}

#[test]
fn singly_linked_list_peek_tail_test() {
    let mut list = SinglyLinkedList::new_empty();
    list.prepend(42);
    list.prepend(43);
    list.prepend(44);

    assert_eq!(list.peek_tail(), Some(42));
}

#[test]
fn singly_linked_list_is_empty_test() {
    let mut list: SinglyLinkedList<i32> = SinglyLinkedList::new_empty();
    list.prepend(42);
    list.prepend(43);
    list.prepend(44);

    assert_eq!(list.is_empty(), false);

    let list2: SinglyLinkedList<i32> = SinglyLinkedList::new_empty();
    assert_eq!(list2.is_empty(), true);
}

#[test]
fn singly_linked_list_clear_test() {
    let mut list = SinglyLinkedList::new_empty();
    list.prepend(42);
    list.prepend(43);

    assert_eq!(list.is_empty(), false);
    list.clear();
    assert_eq!(list.is_empty(), true);
}

#[test]
fn singly_linked_list_iterator_test() {
    let mut list = SinglyLinkedList::new_empty();
    list.prepend(42);
    list.prepend(43);
    list.prepend(44);

    let mut iter = list.into_iter();
    assert_eq!(iter.next(), Some(44));
    assert_eq!(iter.next(), Some(43));
    assert_eq!(iter.next(), Some(42));
    assert_eq!(iter.next(), None);

    let mut list2 = SinglyLinkedList::new_empty();
    list2.prepend(42);
    list2.prepend(43);
    list2.prepend(44);

    let mut iter2 = list2.into_iter();
    let mut i = 0;
    while let Some(val) = iter2.next() {
        assert_eq!(val, 44 - i as i32);
        i += 1;
    }
}

#[test]
fn singly_linked_list_big_list_test() {
    let mut list = SinglyLinkedList::new_empty();
    for i in 0..1000 {
        list.prepend(i);
    }
    assert_eq!(list.len, 1000);
    assert_eq!(list.total_size_bytes, 1000 * std::mem::size_of::<i32>());

    for i in 0..1000 {
        assert_eq!(list.pop(), Some(999 - i));
    }

    assert_eq!(list.len, 0);

    for i in 0..1000 {
        list.append(i);
    }
    assert_eq!(list.len, 1000);

    for i in 0..1000 {
        assert_eq!(list.pop(), Some(i));
    }

    assert_eq!(list.len, 0);

    list.prepend(42);
    list.prepend(43);
    list.prepend(44);
    assert!(list.is_empty() == false);
    assert!(list.peek() == Some(44));
    assert!(list.peek_tail() == Some(42));
    assert!(list.pop() == Some(44));
    assert!(list.peek() == Some(43));
    assert!(list.peek_tail() == Some(42));
    assert!(list.pop() == Some(43));
    assert!(list.peek() == Some(42));
    assert!(list.peek_tail() == Some(42));
    assert!(list.pop() == Some(42));
    assert!(list.peek() == None);
    assert!(list.peek_tail() == None);
    assert!(list.is_empty() == true);
    assert!(list.pop() == None);

    list.prepend(42);
    list.prepend(43);
    list.prepend(44);
    assert!(list.is_empty() == false);
    list.clear();
    assert!(list.is_empty() == true);
}
