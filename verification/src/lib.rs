//! A collection of verified containers and algorithms: a red-black tree as
//! the centerpiece, together with a plain binary search tree, list and queue
//! containers, sorting routines and a small number-theory solver.

pub mod array_list;
pub mod binary_heap;
pub mod binary_search_tree;
pub mod diophantine;
pub mod doubly_linked_list;
pub mod ordered;
pub mod priority_queue;
pub mod queue;
pub mod red_black_tree;
pub mod singly_linked_list;
pub mod skip_list;
pub mod sorting;
pub mod stack;

pub use array_list::{ArrayList, ArrayListIterator};
pub use binary_heap::BinaryHeap;
pub use binary_search_tree::BinarySearchTree;
pub use diophantine::DiophantineEq;
pub use doubly_linked_list::{DoublyLinkedList, DoublyLinkedListIterator};
pub use ordered::{Cmp, Key, Value};
pub use priority_queue::PriorityQueue;
pub use queue::Queue;
pub use red_black_tree::{Color, RbError, RbNode, RbTree};
pub use singly_linked_list::{SinglyLinkedList, SinglyLinkedListIterator};
pub use skip_list::SkipList;
pub use sorting::{bubblesort, heapsort, insertionsort, mergesort, quicksort, selectionsort};
pub use stack::Stack;
