use omni_arsenal::{ArrayList, DoublyLinkedList, SinglyLinkedList};

#[test]
fn lists_test_array_list_set_test() {
    let mut arr = ArrayList::<i32>::new();
    arr.append(42);
    arr.append(43);
    arr.append(44);

    assert_eq!(arr.set(0, 43), Some(42));
    assert_eq!(arr.get(0), Some(&43));
    assert_eq!(arr.set(2, 30), Some(44));
    assert_eq!(arr.get(2), Some(&30));
    assert_eq!(arr.set(3, 30), None);
}

#[test]
fn lists_test_array_list_append_test() {
    let mut arr = ArrayList::<i32>::new();
    assert_eq!(arr.length, 0);
    arr.append(42);
    assert_eq!(arr.length, 1);
}

#[test]
fn lists_test_array_list_prepend_test() {
    let mut arr = ArrayList::<i32>::new();
    assert_eq!(arr.length, 0);

    arr.prepend(42);
    assert_eq!(arr.length, 1);
    assert_eq!(arr.get(0), Some(&42));
    arr.prepend(41);
    assert_eq!(arr.length, 2);
    assert_eq!(arr.get(0), Some(&41));
    assert_eq!(arr.get(1), Some(&42));
    arr.prepend(40);
    assert_eq!(arr.length, 3);
    assert_eq!(arr.get(0), Some(&40));
    assert_eq!(arr.get(1), Some(&41));
    assert_eq!(arr.get(2), Some(&42));
    arr.prepend(39);
    assert_eq!(arr.length, 4);
    assert_eq!(arr.get(0), Some(&39));
    assert_eq!(arr.get(1), Some(&40));
    assert_eq!(arr.get(2), Some(&41));
    assert_eq!(arr.get(3), Some(&42));
}

#[test]
fn lists_test_test_insert_at() {
    let mut arr = ArrayList::<i32>::new();

    for i in 1..11 {
        arr.append(i);
    }

    arr.insert_at(0, 0);
    assert_eq!(arr.len(), 11);
    assert_eq!(arr.get(0), Some(&0));
    assert_eq!(arr.get(1), Some(&1));

    arr.insert_at(5, 50);
    assert_eq!(arr.len(), 12);
    assert_eq!(arr.get(5), Some(&50));
    assert_eq!(arr.get(6), Some(&5));

    arr.insert_at(11, 100);
    assert_eq!(arr.len(), 13);
    assert_eq!(arr.get(11), Some(&100));
    assert_eq!(arr.get(12), Some(&10));

    arr.insert_at(100, 200);
    assert_eq!(arr.len(), 13);
}

#[test]
fn lists_test_array_list_with_capacity_test() {
    let mut arr = ArrayList::<i32>::with_capacity(10);
    assert_eq!(arr.length, 0);
    arr.append(42);
    assert_eq!(arr.length, 1);
}

#[test]
fn lists_test_array_list_growth_test() {
    let mut arr = ArrayList::<i32>::new();

    arr.append(1);
    arr.append(2);
    arr.append(3);
    arr.append(4);
    arr.append(5);

    arr.append(-1);
    arr.append(-2);
    arr.append(-3);
    arr.append(-4);
    arr.append(-5);
    arr.append(-6);

    for i in 0..10 {
        arr.append(i);
    }
}

#[test]
fn lists_test_array_list_pop_test() {
    let mut arr = ArrayList::<i32>::new();
    arr.append(42);
    arr.append(43);
    arr.append(44);

    assert_eq!(arr.pop(), Some(44));
    assert!(arr.length == 2);
    assert_eq!(arr.pop(), Some(43));
    assert_eq!(arr.pop(), Some(42));
    assert!(arr.length == 0);
    assert_eq!(arr.pop(), None);
}

#[test]
fn lists_test_array_list_get_test() {
    let mut arr = ArrayList::<i32>::new();
    arr.append(42);
    arr.append(43);
    arr.append(44);

    assert_eq!(arr.get(0), Some(&42));
    assert_eq!(arr.get(1), Some(&43));
    assert_eq!(arr.get(2), Some(&44));
    assert_eq!(arr.get(3), None);
}

#[test]
fn lists_test_array_list_get_mut_test() {
    let mut arr = ArrayList::<i32>::new();
    arr.append(42);
    arr.append(43);
    arr.append(44);

    assert_eq!(arr.get_mut(0), Some(&mut 42));
    assert_eq!(arr.get_mut(1), Some(&mut 43));
    assert_eq!(arr.get_mut(2), Some(&mut 44));
    assert_eq!(arr.get_mut(3), None);

    *arr.get_mut(0).unwrap() = 1;
    *arr.get_mut(1).unwrap() = 2;
    *arr.get_mut(2).unwrap() = 3;
}

#[test]
fn lists_test_test_len_is_empty_and_clear() {
    let mut arr = ArrayList::<i32>::new();

    assert_eq!(arr.len(), 0);
    assert!(arr.is_empty());

    arr.append(42);
    arr.append(43);
    arr.append(44);

    assert_eq!(arr.len(), 3);
    assert!(!arr.is_empty());

    arr.clear();

    assert_eq!(arr.len(), 0);
    assert!(arr.is_empty());
}

#[test]
fn lists_test_array_list_pop_at_test() {
    let mut arr = ArrayList::<i32>::new();

    for i in 1..101 {
        arr.append(i);
        assert_eq!(arr.len(), i as usize);
    }

    assert_eq!(arr.get(0), Some(&1));
    assert_eq!(arr.get(99), Some(&100));

    assert_eq!(arr.pop_at(0), Some(1));
    assert_eq!(arr.len(), 99);
    assert_eq!(arr.get(0), Some(&2));

    assert_eq!(arr.pop_at(50), Some(52));
    assert_eq!(arr.len(), 98);

    assert_eq!(arr.pop_at(97), Some(100));
    assert_eq!(arr.len(), 97);
}

#[test]
fn lists_test_test_array_list_iteration() {
    let mut arr = ArrayList::<i32>::new();

    for i in 1..11 {
        arr.append(i);
    }

    let mut index = 1;
    let mut iter = arr.into_iter();
    while let Some(item) = iter.next() {
        assert_eq!(*item, index);
        index += 1;
    }

    assert_eq!(index, 11);

    arr.insert_at(5, 50);

    let expected_items = vec![1, 2, 3, 4, 5, 50, 6, 7, 8, 9, 10];
    let mut index = 0;
    let mut iter = arr.into_iter();
    while let Some(item) = iter.next() {
        assert_eq!(*item, expected_items[index]);
        index += 1;
    }

    assert_eq!(index, expected_items.len());
}

#[test]
fn lists_test_prepend_test() {
    let mut list = SinglyLinkedList::new_empty();
    list.prepend(42);

    assert_eq!(list.len, 1);
    assert_eq!(list.total_size_bytes, std::mem::size_of::<i32>());
}

#[test]
fn lists_test_append_test() {
    let mut list = SinglyLinkedList::new_empty();
    list.append(42);

    assert_eq!(list.len, 1);
    assert_eq!(list.total_size_bytes, std::mem::size_of::<i32>());
}

#[test]
fn lists_test_pop_test() {
    let mut list = SinglyLinkedList::new_empty();
    list.prepend(42);
    list.prepend(43);
    list.prepend(44);

    assert_eq!(list.pop(), Some(44));
    assert_eq!(list.pop(), Some(43));
    assert_eq!(list.pop(), Some(42));
    assert_eq!(list.pop(), None);
}

#[test]
fn lists_test_peek_test() {
    let mut list = SinglyLinkedList::new_empty();
    list.prepend(42);

    assert_eq!(list.peek(), Some(42));
}

#[test]
fn lists_test_peek_tail_test() {
    let mut list = SinglyLinkedList::new_empty();
    list.prepend(42);
    list.prepend(43);
    list.prepend(44);

    assert_eq!(list.peek_tail(), Some(42));
}

#[test]
fn lists_test_is_empty_test() {
    let mut list: SinglyLinkedList<i32> = SinglyLinkedList::new_empty();
    list.prepend(42);
    list.prepend(43);
    list.prepend(44);

    assert_eq!(list.is_empty(), false);

    let list2: SinglyLinkedList<i32> = SinglyLinkedList::new_empty();
    assert_eq!(list2.is_empty(), true);
}

#[test]
fn lists_test_clear_test() {
    let mut list = SinglyLinkedList::new_empty();
    list.prepend(42);
    list.prepend(43);

    assert_eq!(list.is_empty(), false);
    list.clear();
    assert_eq!(list.is_empty(), true);
}

#[test]
fn lists_test_iterator_test() {
    let mut list = SinglyLinkedList::new_empty();
    list.prepend(42);
    list.prepend(43);
    list.prepend(44);

    let mut iter = list.into_iter();
    assert_eq!(iter.next(), Some(44));
    assert_eq!(iter.next(), Some(43));
    assert_eq!(iter.next(), Some(42));
    assert_eq!(iter.next(), None);

    let mut list2 = SinglyLinkedList::new_empty();
    list2.prepend(42);
    list2.prepend(43);
    list2.prepend(44);

    let mut iter2 = list2.into_iter();
    let mut i = 0;
    while let Some(val) = iter2.next() {
        assert_eq!(val, 44 - i as i32);
        i += 1;
    }
}

#[test]
fn lists_test_big_list_test() {
    let mut list = SinglyLinkedList::new_empty();
    for i in 0..1000 {
        list.prepend(i);
    }
    assert_eq!(list.len, 1000);
    assert_eq!(list.total_size_bytes, 1000 * std::mem::size_of::<i32>());

    for i in 0..1000 {
        assert_eq!(list.pop(), Some(999 - i));
    }

    assert_eq!(list.len, 0);

    for i in 0..1000 {
        list.append(i);
    }
    assert_eq!(list.len, 1000);

    for i in 0..1000 {
        assert_eq!(list.pop(), Some(i));
    }

    assert_eq!(list.len, 0);

    list.prepend(42);
    list.prepend(43);
    list.prepend(44);
    assert!(list.is_empty() == false);
    assert!(list.peek() == Some(44));
    assert!(list.peek_tail() == Some(42));
    assert!(list.pop() == Some(44));
    assert!(list.peek() == Some(43));
    assert!(list.peek_tail() == Some(42));
    assert!(list.pop() == Some(43));
    assert!(list.peek() == Some(42));
    assert!(list.peek_tail() == Some(42));
    assert!(list.pop() == Some(42));
    assert!(list.peek() == None);
    assert!(list.peek_tail() == None);
    assert!(list.is_empty() == true);
    assert!(list.pop() == None);

    list.prepend(42);
    list.prepend(43);
    list.prepend(44);
    assert!(list.is_empty() == false);
    list.clear();
    assert!(list.is_empty() == true);
}

#[test]
fn doubly_list_prepend_test() {
    let mut list = DoublyLinkedList::new_empty();
    list.prepend(42);
    list.prepend(43);
    list.prepend(44);

    assert_eq!(*list.peek_front().unwrap(), 44);
    list.prepend(45);
    assert_eq!(*list.peek_front().unwrap(), 45);
}

#[test]
fn doubly_list_append_test() {
    let mut list = DoublyLinkedList::new_empty();
    list.append(42);
    list.append(43);
    list.append(44);

    assert_eq!(*list.peek_front().unwrap(), 42);
}

#[test]
fn doubly_list_pop_front_test() {
    let mut list = DoublyLinkedList::new_empty();
    list.prepend(42);
    list.prepend(43);
    list.prepend(44);

    assert_eq!(list.pop_front(), Some(44));
    assert_eq!(list.pop_front(), Some(43));
    assert_eq!(list.pop_front(), Some(42));
    assert_eq!(list.pop_front(), None);
}

#[test]
fn doubly_list_pop_back_test() {
    let mut list = DoublyLinkedList::new_empty();
    list.prepend(42);
    list.prepend(43);
    list.prepend(44);

    assert_eq!(list.pop_back(), Some(42));
    assert_eq!(list.pop_back(), Some(43));
    assert_eq!(list.pop_back(), Some(44));
    assert_eq!(list.pop_back(), None);
}

#[test]
fn doubly_list_clear_test() {
    let mut list = DoublyLinkedList::new_empty();
    list.prepend(42);
    list.prepend(43);

    assert_eq!(list.len, 2);
    list.clear();
    assert_eq!(list.len, 0);
}

#[test]
fn doubly_list_peek_front_test() {
    let mut list = DoublyLinkedList::new_empty();
    list.prepend(42);
    list.prepend(43);
    list.prepend(44);

    assert_eq!(*list.peek_front().unwrap(), 44);
}

#[test]
fn doubly_list_iterator_test() {
    let mut list = DoublyLinkedList::new_empty();
    list.prepend(42);
    list.prepend(43);
    list.prepend(44);

    let mut iter = list.iter();
    assert_eq!(iter.next().unwrap(), 44);
    assert_eq!(iter.next().unwrap(), 43);
    assert_eq!(iter.next().unwrap(), 42);
    assert!(iter.next().is_none());
}

#[test]
fn test_array_list() {
    lists_test_array_list_append_test();
    lists_test_array_list_prepend_test();
    lists_test_array_list_growth_test();
    lists_test_array_list_with_capacity_test();
    lists_test_array_list_pop_test();
    lists_test_array_list_get_test();
    lists_test_array_list_get_mut_test();
    lists_test_test_len_is_empty_and_clear();
    lists_test_array_list_pop_at_test();
    lists_test_array_list_set_test();
    lists_test_test_insert_at();
    lists_test_test_array_list_iteration();
}

#[test]
fn test_singly_linked_list() {
    lists_test_prepend_test();
    lists_test_append_test();
    lists_test_pop_test();
    lists_test_peek_test();
    lists_test_peek_tail_test();
    lists_test_is_empty_test();
    lists_test_clear_test();
    lists_test_iterator_test();
    lists_test_big_list_test();
}

#[test]
fn test_doubly_linked_list() {
    doubly_list_prepend_test();
    doubly_list_append_test();
    doubly_list_pop_front_test();
    doubly_list_pop_back_test();
    doubly_list_clear_test();
    doubly_list_peek_front_test();
    doubly_list_iterator_test();
}
