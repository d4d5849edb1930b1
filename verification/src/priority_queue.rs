//! The shape of a priority queue over a binary heap. Only the data layout is
//! defined here; no operations are offered yet.

use vstd::prelude::*;

verus! {

/// A priority queue: an array-shaped heap and the direction it is ordered
/// in (greatest first or smallest first).
pub struct PriorityQueue<T> {
    pub heap: Vec<T>,
    pub greatest_first: bool,
}

} // verus!
