//! The shape of a skip list: layered express lanes over a sorted base lane.
//! Only the data layout is defined here; no operations are offered yet.

use vstd::prelude::*;

verus! {

/// A skip list: a bounded number of lanes, each a sorted subsequence of the
/// lane below it.
pub struct SkipList<T> {
    pub max_height: usize,
    pub lanes: Vec<Vec<T>>,
}

} // verus!
