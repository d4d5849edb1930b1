use omni_arsenal::BinarySearchTree;

#[test]
fn bst_insert() {
    let mut bst = BinarySearchTree::new();
    bst.insert(5);
    bst.insert(3);
    bst.insert(7);
    bst.insert(2);
    bst.insert(4);
    bst.insert(6);
    bst.insert(8);

    let pre_order_vec: Vec<i32> = bst.in_order_traversal();
    assert_eq!(pre_order_vec, vec![2, 3, 4, 5, 6, 7, 8]);

    let mut bst = BinarySearchTree::new();
    bst.insert(15);
    bst.insert(10);
    bst.insert(20);
    bst.insert(5);
    bst.insert(12);
    bst.insert(17);
    bst.insert(25);
    bst.insert(11);
    bst.insert(14);
    bst.insert(16);
    bst.insert(19);
    bst.insert(30);

    let pre_order_vec: Vec<i32> = bst.in_order_traversal();
    assert_eq!(pre_order_vec, vec![5, 10, 11, 12, 14, 15, 16, 17, 19, 20, 25, 30]);
}

#[test]
fn bst_traversal() {
    let mut bst = BinarySearchTree::new();
    bst.insert(5);
    bst.insert(3);
    bst.insert(7);
    bst.insert(2);
    bst.insert(4);
    bst.insert(6);
    bst.insert(8);

    let pre_order_vec: Vec<i32> = bst.in_order_traversal();
    assert_eq!(pre_order_vec, vec![2, 3, 4, 5, 6, 7, 8]);

    let pre_order_vec: Vec<i32> = bst.pre_order_traversal();
    assert_eq!(pre_order_vec, vec![5, 3, 2, 4, 7, 6, 8]);

    let pre_order_vec: Vec<i32> = bst.post_order_traversal();
    assert_eq!(pre_order_vec, vec![2, 4, 3, 6, 8, 7, 5]);
}

#[test]
fn bst_search() {
    let mut bst = BinarySearchTree::new();
    bst.insert(5);
    bst.insert(3);
    bst.insert(7);
    bst.insert(2);
    bst.insert(4);
    bst.insert(6);
    bst.insert(8);

    assert_eq!(bst.search(5), true);
    assert_eq!(bst.search(3), true);
    assert_eq!(bst.search(7), true);
    assert_eq!(bst.search(2), true);
    assert_eq!(bst.search(4), true);
    assert_eq!(bst.search(6), true);
    assert_eq!(bst.search(8), true);
    assert_eq!(bst.search(1), false);
    assert_eq!(bst.search(9), false);
}

#[test]
fn delete_root() {
    let mut bst = BinarySearchTree::new();
    bst.insert(10);
    assert_eq!(bst.delete(10), Some(10));
    assert!(bst.root.is_none());
}

#[test]
fn delete_leaf() {
    let mut bst = BinarySearchTree::new();
    bst.insert(10);
    bst.insert(5);
    bst.insert(15);
    assert_eq!(bst.delete(5), Some(5));
}

#[test]
fn del_n_w1_child() {
    let mut bst = BinarySearchTree::new();
    bst.insert(10);
    bst.insert(5);
    bst.insert(15);
    bst.insert(12);
    assert_eq!(bst.delete(15), Some(15));
}

#[test]
fn del_n_w2_child() {
    let mut bst = BinarySearchTree::new();
    bst.insert(10);
    bst.insert(5);
    bst.insert(15);
    bst.insert(12);
    bst.insert(20);
    assert_eq!(bst.delete(15), Some(15));
    assert_eq!(bst.search(10), true);
    assert_eq!(bst.search(5), true);
    assert_eq!(bst.search(15), false);
    assert_eq!(bst.search(12), true);
    assert_eq!(bst.search(20), true);
}

#[test]
fn del_in_large_t() {
    let mut bst = BinarySearchTree::new();
    for i in 1..100 {
        bst.insert(i);
    }
    assert_eq!(bst.delete(50), Some(50));
    assert_eq!(bst.search(50), false);
    for i in 1..100 {
        if i != 50 {
            assert_eq!(bst.search(i), true);
        }
    }
}

#[test]
fn bst_balance() {
    let mut bst = BinarySearchTree::new();
    for i in 1..25 {
        bst.insert(i);
    }
    assert_eq!(bst.delete(10), Some(10));
    assert_eq!(bst.search(10), false);
    for i in 1..25 {
        if i != 10 {
            assert_eq!(bst.search(i), true);
        }
    }

    bst.balance();

    assert_eq!(bst.search(10), false);
    for i in 1..25 {
        if i != 10 {
            assert_eq!(bst.search(i), true);
        }
    }
}

#[test]
fn binary_search_tree_test_iterator() {
    let mut tree = BinarySearchTree::new();
    tree.insert(5);
    tree.insert(3);
    tree.insert(8);
    tree.insert(2);
    tree.insert(4);
    tree.insert(7);
    tree.insert(9);

    let result: Vec<_> = tree.in_order_traversal();
    assert_eq!(result, vec![2, 3, 4, 5, 7, 8, 9]);
}

#[test]
fn test_bst_insert() {
    let mut bst = BinarySearchTree::new();
    bst.insert(5);
    bst.insert(3);
    bst.insert(7);
    bst.insert(2);
    bst.insert(4);
    bst.insert(6);
    bst.insert(8);

    let pre_order_vec: Vec<i32> = bst.in_order_traversal();
    assert_eq!(pre_order_vec, vec![2, 3, 4, 5, 6, 7, 8]);

    let mut bst = BinarySearchTree::new();
    bst.insert(15);
    bst.insert(10);
    bst.insert(20);
    bst.insert(5);
    bst.insert(12);
    bst.insert(17);
    bst.insert(25);
    bst.insert(11);
    bst.insert(14);
    bst.insert(16);
    bst.insert(19);
    bst.insert(30);

    let pre_order_vec: Vec<i32> = bst.in_order_traversal();
    assert_eq!(pre_order_vec, vec![5, 10, 11, 12, 14, 15, 16, 17, 19, 20, 25, 30]);
}

#[test]
fn test_bst_traversal() {
    let mut bst = BinarySearchTree::new();
    bst.insert(5);
    bst.insert(3);
    bst.insert(7);
    bst.insert(2);
    bst.insert(4);
    bst.insert(6);
    bst.insert(8);

    let pre_order_vec: Vec<i32> = bst.in_order_traversal();
    assert_eq!(pre_order_vec, vec![2, 3, 4, 5, 6, 7, 8]);

    let pre_order_vec: Vec<i32> = bst.pre_order_traversal();
    assert_eq!(pre_order_vec, vec![5, 3, 2, 4, 7, 6, 8]);

    let pre_order_vec: Vec<i32> = bst.post_order_traversal();
    assert_eq!(pre_order_vec, vec![2, 4, 3, 6, 8, 7, 5]);
}

#[test]
fn test_bst_search() {
    let mut bst = BinarySearchTree::new();
    bst.insert(5);
    bst.insert(3);
    bst.insert(7);
    bst.insert(2);
    bst.insert(4);
    bst.insert(6);
    bst.insert(8);

    assert_eq!(bst.search(5), true);
    assert_eq!(bst.search(3), true);
    assert_eq!(bst.search(7), true);
    assert_eq!(bst.search(2), true);
    assert_eq!(bst.search(4), true);
    assert_eq!(bst.search(6), true);
    assert_eq!(bst.search(8), true);
    assert_eq!(bst.search(1), false);
    assert_eq!(bst.search(9), false);
}

#[test]
fn test_delete_root() {
    let mut bst = BinarySearchTree::new();
    bst.insert(10);
    assert_eq!(bst.delete(10), Some(10));
    assert!(bst.root.is_none());
}

#[test]
fn test_delete_leaf() {
    let mut bst = BinarySearchTree::new();
    bst.insert(10);
    bst.insert(5);
    bst.insert(15);
    assert_eq!(bst.delete(5), Some(5));
}

#[test]
fn test_delete_node_with_one_child() {
    let mut bst = BinarySearchTree::new();
    bst.insert(10);
    bst.insert(5);
    bst.insert(15);
    bst.insert(12);
    assert_eq!(bst.delete(15), Some(15));
}

#[test]
fn test_delete_node_with_two_children() {
    let mut bst = BinarySearchTree::new();
    bst.insert(10);
    bst.insert(5);
    bst.insert(15);
    bst.insert(12);
    bst.insert(20);
    assert_eq!(bst.delete(15), Some(15));
    assert_eq!(bst.search(10), true);
    assert_eq!(bst.search(5), true);
    assert_eq!(bst.search(15), false);
    assert_eq!(bst.search(12), true);
    assert_eq!(bst.search(20), true);
}

#[test]
fn test_delete_node_in_large_tree() {
    let mut bst = BinarySearchTree::new();
    for i in 1..100 {
        bst.insert(i);
    }
    assert_eq!(bst.delete(50), Some(50));
    assert_eq!(bst.search(50), false);
    for i in 1..100 {
        if i != 50 {
            assert_eq!(bst.search(i), true);
        }
    }
}

#[test]
fn test_bst_balance() {
    let mut bst = BinarySearchTree::new();
    for i in 1..25 {
        bst.insert(i);
    }
    assert_eq!(bst.delete(10), Some(10));
    assert_eq!(bst.search(10), false);
    for i in 1..25 {
        if i != 10 {
            assert_eq!(bst.search(i), true);
        }
    }

    bst.balance();

    assert_eq!(bst.search(10), false);
    for i in 1..25 {
        if i != 10 {
            assert_eq!(bst.search(i), true);
        }
    }
}

#[test]
fn trees_test_test_iterator() {
    let mut tree = BinarySearchTree::new();
    tree.insert(5);
    tree.insert(3);
    tree.insert(8);
    tree.insert(2);
    tree.insert(4);
    tree.insert(7);
    tree.insert(9);

    let result: Vec<_> = tree.in_order_traversal();
    assert_eq!(result, vec![2, 3, 4, 5, 7, 8, 9]);
}

#[test]
fn bst_delete_missing_leaves_tree_unchanged() {
    let mut bst = BinarySearchTree::new();
    bst.insert(10);
    bst.insert(5);
    assert_eq!(bst.delete(99), None);
    assert_eq!(bst.in_order_traversal(), vec![5, 10]);
}

#[test]
fn bst_duplicates_are_kept() {
    let mut bst = BinarySearchTree::new();
    bst.insert(5);
    bst.insert(5);
    bst.insert(3);
    assert_eq!(bst.in_order_traversal(), vec![3, 5, 5]);
    assert_eq!(bst.delete(5), Some(5));
    assert_eq!(bst.in_order_traversal(), vec![3, 5]);
}
