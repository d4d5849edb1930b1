//! The shape of an array-backed binary heap, usable as a max heap or a min
//! heap. Only the data layout is defined here; no operations are offered
//! yet.

use vstd::prelude::*;

verus! {

/// A binary heap laid out in an array: the children of the element at `i`
/// sit at `2 * i + 1` and `2 * i + 2`.
pub struct BinaryHeap<T> {
    pub heap: Vec<T>,
}

} // verus!
