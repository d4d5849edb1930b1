use omni_arsenal::{bubblesort, heapsort, insertionsort, mergesort, quicksort, selectionsort};

#[test]
fn bubble_sort_test_merge_sort() {
    let mut arr = vec![5, 4, 3, 2, 1];
    bubblesort(&mut arr);
    assert_eq!(arr, [1, 2, 3, 4, 5]);
}

#[test]
fn insertion_sort_test_insertion_sort() {
    let mut arr = vec![5, 4, 3, 2, 1];
    insertionsort(&mut arr);
    assert_eq!(arr, [1, 2, 3, 4, 5]);
}

#[test]
fn merge_sort_test_merge_sort() {
    let mut arr = vec![5, 4, 3, 2, 1];
    mergesort(&mut arr);
    assert_eq!(arr, [1, 2, 3, 4, 5]);
}

#[test]
fn selection_sort_test_selection_sort() {
    let mut arr = vec![5, 4, 3, 2, 1];
    selectionsort(&mut arr);
    assert_eq!(arr, [1, 2, 3, 4, 5]);
}

#[test]
fn heap_sort_test_heap_sort() {
    let mut arr = vec![5, 4, 3, 2, 1];
    heapsort(&mut arr);
    assert_eq!(arr, [1, 2, 3, 4, 5]);
}

#[test]
fn test_bubble_sort() {
    // Your bubble sort tests go here
}

#[test]
fn sorting_test_test_insertion_sort() {
    // Your insertion sort tests go here
}

#[test]
fn sorting_test_test_selection_sort() {
    // Your selection sort tests go here
}

#[test]
fn sorting_test_test_heap_sort() {
    // Your heap sort tests go here
}

#[test]
fn sorting_test_test_merge_sort() {
    // Your merge sort tests go here
}

#[test]
fn test_quick_sort() {
    // Your quick sort tests go here
}

#[test]
fn quick_sort_sorts_shuffled_values() {
    let mut arr: Vec<i32> = (0..1000).collect();
    let mut state: u64 = 1;
    // a fixed linear-congruential shuffle
    for i in (1..arr.len()).rev() {
        state = state.wrapping_mul(6364136223846793005).wrapping_add(1442695040888963407);
        let j = (state % (i as u64 + 1)) as usize;
        arr.swap(i, j);
    }
    quicksort(&mut arr);
    for i in 0..arr.len() - 1 {
        assert!(arr[i] <= arr[i + 1]);
    }
}

#[test]
fn sorts_agree_on_one_input() {
    let base = vec![3, -7, 3, 0, 22, -7, 14, 1];
    let expected = vec![-7, -7, 0, 1, 3, 3, 14, 22];
    let mut a = base.clone();
    bubblesort(&mut a);
    assert_eq!(a, expected);
    let mut b = base.clone();
    insertionsort(&mut b);
    assert_eq!(b, expected);
    let mut c = base.clone();
    selectionsort(&mut c);
    assert_eq!(c, expected);
    let mut d = base.clone();
    mergesort(&mut d);
    assert_eq!(d, expected);
    let mut e = base.clone();
    quicksort(&mut e);
    assert_eq!(e, expected);
    let mut f = base.clone();
    heapsort(&mut f);
    assert_eq!(f, expected);
}

#[test]
fn sorts_handle_empty_and_single() {
    let mut a: Vec<i32> = vec![];
    bubblesort(&mut a);
    assert_eq!(a, Vec::<i32>::new());
    let mut b: Vec<i32> = vec![9];
    quicksort(&mut b);
    assert_eq!(b, vec![9]);
    let mut c: Vec<i32> = vec![];
    mergesort(&mut c);
    assert_eq!(c, Vec::<i32>::new());
}
