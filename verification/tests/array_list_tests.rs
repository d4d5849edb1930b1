use omni_arsenal::ArrayList;

#[test]
fn array_list_array_list_set_test() {
    let mut arr = ArrayList::<i32>::new();
    arr.append(42);
    arr.append(43);
    arr.append(44);

    assert_eq!(arr.set(0, 43), Some(42));
    assert_eq!(arr.get(0), Some(&43));
    assert_eq!(arr.set(2, 30), Some(44));
    assert_eq!(arr.get(2), Some(&30));
    assert_eq!(arr.set(3, 30), None);
}

#[test]
fn array_list_array_list_append_test() {
    let mut arr = ArrayList::<i32>::new();
    assert_eq!(arr.length, 0);
    arr.append(42);
    assert_eq!(arr.length, 1);
}

#[test]
fn array_list_array_list_prepend_test() {
    let mut arr = ArrayList::<i32>::new();
    assert_eq!(arr.length, 0);

    arr.prepend(42);
    assert_eq!(arr.length, 1);
    assert_eq!(arr.get(0), Some(&42));
    arr.prepend(41);
    assert_eq!(arr.length, 2);
    assert_eq!(arr.get(0), Some(&41));
    assert_eq!(arr.get(1), Some(&42));
    arr.prepend(40);
    assert_eq!(arr.length, 3);
    assert_eq!(arr.get(0), Some(&40));
    assert_eq!(arr.get(1), Some(&41));
    assert_eq!(arr.get(2), Some(&42));
    arr.prepend(39);
    assert_eq!(arr.length, 4);
    assert_eq!(arr.get(0), Some(&39));
    assert_eq!(arr.get(1), Some(&40));
    assert_eq!(arr.get(2), Some(&41));
    assert_eq!(arr.get(3), Some(&42));
}

#[test]
fn array_list_test_insert_at() {
    let mut arr = ArrayList::<i32>::new();

    for i in 1..11 {
        arr.append(i);
    }

    arr.insert_at(0, 0);
    assert_eq!(arr.len(), 11);
    assert_eq!(arr.get(0), Some(&0));
    assert_eq!(arr.get(1), Some(&1));

    arr.insert_at(5, 50);
    assert_eq!(arr.len(), 12);
    assert_eq!(arr.get(5), Some(&50));
    assert_eq!(arr.get(6), Some(&5));

    arr.insert_at(11, 100);
    assert_eq!(arr.len(), 13);
    assert_eq!(arr.get(11), Some(&100));
    assert_eq!(arr.get(12), Some(&10));

    arr.insert_at(100, 200);
    assert_eq!(arr.len(), 13);
}

#[test]
fn array_list_array_list_with_capacity_test() {
    let mut arr = ArrayList::<i32>::with_capacity(10);
    assert_eq!(arr.length, 0);
    arr.append(42);
    assert_eq!(arr.length, 1);
}

#[test]
fn array_list_array_list_growth_test() {
    let mut arr = ArrayList::<i32>::new();

    arr.append(1);
    arr.append(2);
    arr.append(3);
    arr.append(4);
    arr.append(5);

    arr.append(-1);
    arr.append(-2);
    arr.append(-3);
    arr.append(-4);
    arr.append(-5);
    arr.append(-6);

    for i in 0..10 {
        arr.append(i);
    }
}

#[test]
fn array_list_array_list_pop_test() {
    let mut arr = ArrayList::<i32>::new();
    arr.append(42);
    arr.append(43);
    arr.append(44);

    assert_eq!(arr.pop(), Some(44));
    assert!(arr.length == 2);
    assert_eq!(arr.pop(), Some(43));
    assert_eq!(arr.pop(), Some(42));
    assert!(arr.length == 0);
    assert_eq!(arr.pop(), None);
}

#[test]
fn array_list_array_list_get_test() {
    let mut arr = ArrayList::<i32>::new();
    arr.append(42);
    arr.append(43);
    arr.append(44);

    assert_eq!(arr.get(0), Some(&42));
    assert_eq!(arr.get(1), Some(&43));
    assert_eq!(arr.get(2), Some(&44));
    assert_eq!(arr.get(3), None);
}

#[test]
fn array_list_array_list_get_mut_test() {
    let mut arr = ArrayList::<i32>::new();
    arr.append(42);
    arr.append(43);
    arr.append(44);

    assert_eq!(arr.get_mut(0), Some(&mut 42));
    assert_eq!(arr.get_mut(1), Some(&mut 43));
    assert_eq!(arr.get_mut(2), Some(&mut 44));
    assert_eq!(arr.get_mut(3), None);

    *arr.get_mut(0).unwrap() = 1;
    *arr.get_mut(1).unwrap() = 2;
    *arr.get_mut(2).unwrap() = 3;
}

#[test]
fn array_list_test_len_is_empty_and_clear() {
    let mut arr = ArrayList::<i32>::new();

    assert_eq!(arr.len(), 0);
    assert!(arr.is_empty());

    arr.append(42);
    arr.append(43);
    arr.append(44);

    assert_eq!(arr.len(), 3);
    assert!(!arr.is_empty());

    arr.clear();

    assert_eq!(arr.len(), 0);
    assert!(arr.is_empty());
}

#[test]
fn array_list_array_list_pop_at_test() {
    let mut arr = ArrayList::<i32>::new();

    for i in 1..101 {
        arr.append(i);
        assert_eq!(arr.len(), i as usize);
    }

    assert_eq!(arr.get(0), Some(&1));
    assert_eq!(arr.get(99), Some(&100));

    assert_eq!(arr.pop_at(0), Some(1));
    assert_eq!(arr.len(), 99);
    assert_eq!(arr.get(0), Some(&2));

    assert_eq!(arr.pop_at(50), Some(52));
    assert_eq!(arr.len(), 98);

    assert_eq!(arr.pop_at(97), Some(100));
    assert_eq!(arr.len(), 97);
}

#[test]
fn array_list_test_array_list_iteration() {
    let mut arr = ArrayList::<i32>::new();

    for i in 1..11 {
        arr.append(i);
    }

    let mut index = 1;
    let mut iter = arr.into_iter();
    while let Some(item) = iter.next() {
        assert_eq!(*item, index);
        index += 1;
    }

    assert_eq!(index, 11);

    arr.insert_at(5, 50);

    let expected_items = vec![1, 2, 3, 4, 5, 50, 6, 7, 8, 9, 10];
    let mut index = 0;
    let mut iter = arr.into_iter();
    while let Some(item) = iter.next() {
        assert_eq!(*item, expected_items[index]);
        index += 1;
    }

    assert_eq!(index, expected_items.len());
}
