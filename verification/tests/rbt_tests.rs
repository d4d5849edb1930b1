use omni_arsenal::{RbTree, RbError};
use rand::seq::SliceRandom;

#[test]
fn test_find_node() {
    let mut tree: RbTree<i32, char> = RbTree::new();
    tree.insert(10, 'A');
    tree.insert(5, 'B');
    tree.insert(15, 'C');
    let b = tree.find_node(5);
    assert!(b.is_some());
    assert_eq!(b.unwrap().1, 'B');
}

#[test]
fn test_in_tree() {
    let mut tree: RbTree<i32, char> = RbTree::new();
    tree.insert(10, 'A');
    tree.insert(5, 'B');
    tree.insert(15, 'C');
    let b = tree.in_tree(5);
    assert!(b);
}

#[test]
fn test_insertion_2() {
    let mut tree: RbTree<i32, char> = RbTree::new();
    tree.debug = true;
    tree.insert(10, 'A');
    tree.insert(5, 'B');
    tree.insert(3, 'C');

    assert!(tree.is_valid_tree());

    let mut tree: RbTree<i32, char> = RbTree::new();
    tree.debug = true;
    tree.insert(10, 'A');
    tree.insert(15, 'B');
    tree.insert(20, 'C');

    assert!(tree.is_valid_tree());
}

#[test]
fn test_insertion_3() {
    // the uncle is red as well as the parent
    let mut tree: RbTree<i32, char> = RbTree::new();
    tree.debug = true;
    tree.insert(10, 'G');
    tree.insert(5, 'P');
    tree.insert(15, 'U');
    tree.insert(2, 'Z');
    assert!(tree.is_valid_tree());

    let mut tree: RbTree<i32, char> = RbTree::new();
    tree.debug = true;
    tree.insert(10, 'G');
    tree.insert(5, 'P');
    tree.insert(15, 'U');
    tree.insert(20, 'Z');
    assert!(tree.is_valid_tree());
}

#[test]
fn test_insertion_4() {
    // the uncle is black and the new node is an inner grandchild
    let mut tree: RbTree<i32, char> = RbTree::new();
    tree.debug = true;
    tree.insert(10, 'G');
    tree.insert(5, 'P');
    tree.insert(15, 'U');
    tree.insert(3, 'H');
    tree.insert(4, 'Z');
    assert!(tree.is_valid_tree());

    let mut tree: RbTree<i32, char> = RbTree::new();
    tree.debug = true;
    tree.insert(10, 'G');
    tree.insert(5, 'P');
    tree.insert(15, 'U');
    tree.insert(17, 'H');
    tree.insert(18, 'Z');
}

#[test]
fn test_insertion_5() {
    // the uncle is black and the new node is an outer grandchild
    let mut tree: RbTree<i32, char> = RbTree::new();
    tree.debug = true;
    tree.insert(10, 'G');
    tree.insert(5, 'P');
    tree.insert(15, 'U');
    tree.insert(3, 'H');
    tree.insert(2, 'Z');
    assert!(tree.is_valid_tree());

    let mut tree: RbTree<i32, char> = RbTree::new();
    tree.debug = true;
    tree.insert(10, 'G');
    tree.insert(5, 'P');
    tree.insert(15, 'U');
    tree.insert(17, 'H');
    tree.insert(16, 'Z');
}

#[test]
fn test_insertion_6() {
    let mut tree: RbTree<i32, i32> = RbTree::new();

    let vec: Vec<i32> = (0..1000).collect();
    for i in vec {
        tree.insert(i, i);
        assert!(tree.is_valid_tree());
    }
}

#[test]
fn test_insertion_7() {
    let mut tree: RbTree<i32, i32> = RbTree::new();

    let mut vec: Vec<i32> = (0..1000).collect();
    let mut rng = rand::thread_rng();
    vec.shuffle(&mut rng);

    for i in vec {
        tree.insert(i, i);
        assert!(tree.is_valid_tree());
    }
}

#[test]
fn test_tree_minimum() {
    let mut rb_tree = RbTree::new();
    rb_tree.insert(20, "value20");
    rb_tree.insert(10, "value10");
    rb_tree.insert(30, "value30");
    rb_tree.insert(25, "value40");
    rb_tree.insert(40, "value50");
    // the smallest key at or below the node holding 30
    let y = rb_tree.succesor(30).unwrap();
    assert_eq!(y.0, 25);

    // when the node holds the lowest key already
    let y = rb_tree.succesor(10).unwrap();
    assert_eq!(y.0, 10);
}

#[test]
fn test_get_uncle() {
    let rb_tree: RbTree<i32, i32> = RbTree::<i32, i32>::get_tree1();
    // 2's uncle is 12
    let uncle = rb_tree.get_uncle(2);
    assert_eq!(uncle.unwrap().0, 12);
    // 6's uncle is 12
    let uncle = rb_tree.get_uncle(6);
    assert_eq!(uncle.unwrap().0, 12);
    // 10's uncle is 4
    let uncle = rb_tree.get_uncle(10);
    assert_eq!(uncle.unwrap().0, 4);
    // 14's uncle is 4
    let uncle = rb_tree.get_uncle(14);
    assert_eq!(uncle.unwrap().0, 4);
    // 12's uncle is None
    let uncle = rb_tree.get_uncle(12);
    assert!(uncle.is_none());
    // 8's uncle is None
    let uncle = rb_tree.get_uncle(8);
    assert!(uncle.is_none());
}

#[test]
fn test_get_sibling() {
    let rb_tree: RbTree<i32, i32> = RbTree::<i32, i32>::get_tree1();

    // 2's sibling is 6
    let sibling = rb_tree.get_sibling(2);
    assert_eq!(sibling.unwrap().0, 6);

    // 6's sibling is 2
    let sibling = rb_tree.get_sibling(6);
    assert_eq!(sibling.unwrap().0, 2);

    // 12's sibling is 4
    let sibling = rb_tree.get_sibling(12);
    assert_eq!(sibling.unwrap().0, 4);

    // 8's sibling is None
    let sibling = rb_tree.get_sibling(8);
    assert!(sibling.is_none());
}

#[test]
fn test_has_red_child() {
    let mut rb_tree: RbTree<i32, i32> = RbTree::<i32, i32>::get_tree1();
    rb_tree.debug = true;
    rb_tree.insert(1, 1);

    assert!(rb_tree.has_red_child(2));
}

#[test]
fn test_deletion_1() {
    // deleting nodes with no children, touching only red nodes
    let mut tree: RbTree<i32, char> = RbTree::new();
    tree.debug = true;
    tree.insert(10, 'A');
    tree.insert(5, 'B');
    tree.insert(15, 'C');
    let _ = tree.delete(5);
    assert!(tree.is_valid_tree());

    let mut tree: RbTree<i32, char> = RbTree::new();
    tree.debug = true;
    tree.insert(10, 'A');
    tree.insert(5, 'B');
    tree.insert(15, 'C');
    let _ = tree.delete(15);
    assert!(tree.is_valid_tree());

    let mut tree: RbTree<i32, char> = RbTree::new();
    tree.debug = true;
    tree.insert(10, 'A');
    tree.insert(15, 'B');
    let _ = tree.delete(15);
    assert!(tree.is_valid_tree());

    let mut tree: RbTree<i32, char> = RbTree::new();
    tree.debug = true;
    tree.insert(10, 'A');
    let _ = tree.delete(10);
    assert!(tree.is_valid_tree());
    tree.insert(10, 'A');
}

#[test]
fn test_deletion_2() {
    let mut tree: RbTree<i32, i32> = RbTree::<i32, i32>::get_tree1();
    let _ = tree.delete(2);
    assert!(tree.is_valid_tree());

    let mut tree: RbTree<i32, i32> = RbTree::<i32, i32>::get_tree1();
    let _ = tree.delete(6);
    assert!(tree.is_valid_tree());

    let mut tree: RbTree<i32, i32> = RbTree::<i32, i32>::get_tree1();
    let _ = tree.delete(10);
    assert!(tree.is_valid_tree());

    let mut tree: RbTree<i32, i32> = RbTree::<i32, i32>::get_tree1();
    let _ = tree.delete(14);
    assert!(tree.is_valid_tree());

    let mut tree: RbTree<i32, i32> = RbTree::<i32, i32>::get_tree1();
    tree.insert(1, 1);
    let _ = tree.delete(2);
    assert!(tree.is_valid_tree());

    let mut tree: RbTree<i32, i32> = RbTree::<i32, i32>::get_tree1();
    tree.insert(3, 3);
    let _ = tree.delete(2);
    assert!(tree.is_valid_tree());

    let mut tree: RbTree<i32, i32> = RbTree::<i32, i32>::get_tree1();
    tree.insert(5, 5);
    let _ = tree.delete(6);
    assert!(tree.is_valid_tree());

    let mut tree: RbTree<i32, i32> = RbTree::<i32, i32>::get_tree1();
    tree.insert(7, 7);
    let _ = tree.delete(6);
    assert!(tree.is_valid_tree());

    let mut tree: RbTree<i32, i32> = RbTree::<i32, i32>::get_tree1();
    tree.insert(9, 9);
    let _ = tree.delete(10);
    assert!(tree.is_valid_tree());

    let mut tree: RbTree<i32, i32> = RbTree::<i32, i32>::get_tree1();
    tree.insert(11, 11);
    let _ = tree.delete(10);
    assert!(tree.is_valid_tree());

    let mut tree: RbTree<i32, i32> = RbTree::<i32, i32>::get_tree1();
    tree.insert(13, 13);
    let _ = tree.delete(14);
    assert!(tree.is_valid_tree());

    let mut tree: RbTree<i32, i32> = RbTree::<i32, i32>::get_tree1();
    tree.insert(16, 16);
    let _ = tree.delete(14);
    assert!(tree.is_valid_tree());

    let mut tree: RbTree<i32, i32> = RbTree::<i32, i32>::get_tree1();
    tree.insert(1, 1);
    tree.insert(3, 3);
    tree.insert(5, 5);
    tree.insert(7, 7);
    tree.insert(9, 9);
    tree.insert(11, 11);
    tree.insert(13, 13);
    let _ = tree.delete(14);
    assert!(tree.is_valid_tree());
}

#[test]
fn test_deletion_2_2() {
    let mut tree: RbTree<i32, i32> = RbTree::new();
    tree.insert(10, 10);
    tree.insert(5, 5);
    tree.insert(15, 15);
    tree.insert(3, 3);
    let _ = tree.delete(3);
    assert!(tree.is_valid_tree());

    tree.debug = true;
    let _ = tree.delete(15);
    assert!(tree.is_valid_tree());
    tree.insert(15, 15);
    tree.insert(16, 16);
    let _ = tree.delete(16);
    let _ = tree.delete(5);
    assert!(tree.is_valid_tree());
}

#[test]
fn test_deletion_4() {
    let mut tree: RbTree<i32, i32> = RbTree::<i32, i32>::get_tree3();
    let _ = tree.delete(6);
    assert!(tree.is_valid_tree());
    let _ = tree.delete(8);
    assert!(tree.is_valid_tree());
    let _ = tree.delete(10);
    assert!(tree.is_valid_tree());
    let _ = tree.delete(18);
    assert!(tree.is_valid_tree());
    let _ = tree.delete(20);
    assert!(tree.is_valid_tree());
    let _ = tree.delete(12);
    assert!(tree.is_valid_tree());
    assert!(tree.is_valid_tree());
}

#[test]
fn test_deletion_5() {
    let mut tree: RbTree<i32, i32> = RbTree::new();
    let vec: Vec<i32> = (1..10).collect();
    for i in vec {
        tree.insert(i, i);
    }
    for i in 1..10 {
        let _ = tree.delete(i);
    }
    assert!(tree.is_valid_tree());

    let mut tree: RbTree<i32, i32> = RbTree::new();
    let vec: Vec<i32> = (1..10).collect();
    for i in vec {
        tree.insert(i, i);
    }
    for i in (1..10).rev() {
        let _ = tree.delete(i);
    }
    assert!(tree.is_valid_tree());

    let mut tree: RbTree<i32, i32> = RbTree::new();
    let vec: Vec<i32> = (1..5550).collect();
    for i in &vec {
        tree.insert(*i, *i);
    }
    for i in vec {
        let _ = tree.delete(i);
        assert!(tree.is_valid_tree());
    }
}

#[test]
fn test_heavy_deletion_test() {
    let mut tree: RbTree<i32, i32> = RbTree::new();
    let vec: Vec<i32> = (1..10000).collect();
    for i in &vec {
        tree.insert(*i, *i);
    }
    for i in vec {
        let _ = tree.delete(i);
    }
    assert!(tree.is_valid_tree());

    let mut tree: RbTree<i32, i32> = RbTree::new();
    let vec: Vec<i32> = (1..10000).collect();
    for i in &vec {
        tree.insert(*i, *i);
    }
    for i in 1..vec.len() / 3 {
        let _ = tree.delete(((i * 2) + 9) as i32);
    }
    assert!(tree.is_valid_tree());
}

#[test]
fn test_random_operations() {
    let mut tree: RbTree<i32, i32> = RbTree::new();
    let mut rng = rand::thread_rng();

    let mut vec: Vec<i32> = (1..10000).collect();
    vec.shuffle(&mut rng);

    for i in &vec {
        tree.insert(*i, *i);
    }

    vec.shuffle(&mut rng);

    for i in &vec {
        let del = tree.delete(*i);
        assert!(del.is_ok());
    }
    assert!(tree.is_valid_tree());
    assert!(tree.size == 0);
}

#[test]
fn test_red_black_tree_insert() {
    let mut rb_tree: RbTree<i32, i32> = RbTree::new();
    rb_tree.insert(2, 2);
    rb_tree.insert(1, 1);
    rb_tree.insert(3, 3);

    assert!(rb_tree.validate().is_ok());
}

#[test]
fn test_red_black_tree_left_right_rotation() {
    let mut rb_tree: RbTree<i32, i32> = RbTree::new();
    rb_tree.insert(10, 10);
    rb_tree.insert(4, 4);
    rb_tree.insert(8, 8);

    assert!(rb_tree.validate().is_ok());
}

#[test]
fn test_red_black_tree_right_left_rotation() {
    let mut rb_tree: RbTree<i32, i32> = RbTree::new();
    rb_tree.insert(5, 5);
    rb_tree.insert(10, 10);
    rb_tree.insert(8, 8);

    assert!(rb_tree.validate().is_ok());

    let mut rb_tree: RbTree<i32, i32> = RbTree::new();

    rb_tree.insert(20, 20);
    rb_tree.insert(10, 10);
    rb_tree.insert(30, 30);
    rb_tree.insert(5, 5);
    rb_tree.insert(15, 15);
    rb_tree.insert(25, 25);
    rb_tree.insert(35, 35);
    rb_tree.insert(22, 22);
    rb_tree.insert(27, 27);
    rb_tree.insert(32, 32);
    rb_tree.insert(37, 37);

    assert!(rb_tree.validate().is_ok());
}

#[test]
fn test_red_black_tree_right_rotation() {
    let mut rb_tree: RbTree<i32, i32> = RbTree::new();
    rb_tree.insert(3, 3);
    rb_tree.insert(2, 2);
    rb_tree.insert(1, 1);

    assert!(rb_tree.validate().is_ok());
}

#[test]
fn test_red_black_tree_left_rotation() {
    let mut rb_tree: RbTree<i32, i32> = RbTree::new();
    rb_tree.insert(1, 1);
    rb_tree.insert(2, 2);
    rb_tree.insert(3, 3);

    assert!(rb_tree.validate().is_ok());
}

#[test]
fn test_red_black_tree_many_rotations() {
    let mut rb_tree: RbTree<i32, i32> = RbTree::new();
    for i in 1..1000 {
        rb_tree.insert(i, i);
    }
    assert!(rb_tree.validate().is_ok());

    let mut rb_tree: RbTree<i32, i32> = RbTree::new();
    for i in (1..1000).rev() {
        rb_tree.insert(i, i);
    }
    assert!(rb_tree.validate().is_ok());
}

#[test]
fn test_red_black_tree_heavy_random() {
    let mut rng = rand::thread_rng();
    let mut vec: Vec<i32> = Vec::new();
    for i in 1..1000 {
        vec.push(i);
    }
    vec.shuffle(&mut rng);

    let mut rb_tree: RbTree<i32, i32> = RbTree::new();
    for i in vec {
        rb_tree.insert(i, i);
    }
    assert!(rb_tree.validate().is_ok());
}

#[test]
fn rbt_find_reports_not_found() {
    let mut tree: RbTree<i32, i32> = RbTree::new();
    tree.insert(1, 10);
    assert_eq!(tree.find(1), Ok(10));
    assert_eq!(tree.find(2), Err(RbError::NotFound));
    assert_eq!(tree.delete(2), Err(RbError::NotFound));
}
