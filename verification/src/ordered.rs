//! The comparison capability that every tree key must provide: a total order
//! with a three-way executable comparison, plus the marker bound for stored
//! values.

use vstd::prelude::*;

verus! {

/// Result of a three-way comparison.
pub enum Cmp {
    Less,
    Equal,
    Greater,
}

/// A totally ordered, copyable key type.
///
/// `le` is the mathematical order the contracts speak of; the proof methods
/// oblige every implementation to make it a total order, and `compare` is the
/// executable decision procedure tied to it.
pub trait Key: Sized + Copy {
    spec fn le(self, other: Self) -> bool;

    proof fn reflexive(x: Self)
        ensures
            Self::le(x, x),
    ;

    proof fn transitive(x: Self, y: Self, z: Self)
        requires
            Self::le(x, y),
            Self::le(y, z),
        ensures
            Self::le(x, z),
    ;

    proof fn antisymmetric(x: Self, y: Self)
        requires
            Self::le(x, y),
            Self::le(y, x),
        ensures
            x == y,
    ;

    proof fn total(x: Self, y: Self)
        ensures
            Self::le(x, y) || Self::le(y, x),
    ;

    fn compare(&self, other: &Self) -> (c: Cmp)
        ensures
            (match c {
                Cmp::Less => self.le(*other) && *self != *other,
                Cmp::Equal => *self == *other,
                Cmp::Greater => other.le(*self) && *self != *other,
            }),
    ;
}

impl Key for i32 {
    open spec fn le(self, other: Self) -> bool {
        self <= other
    }

    proof fn reflexive(x: Self) {
    }

    proof fn transitive(x: Self, y: Self, z: Self) {
    }

    proof fn antisymmetric(x: Self, y: Self) {
    }

    proof fn total(x: Self, y: Self) {
    }

    fn compare(&self, other: &Self) -> (c: Cmp) {
        if *self < *other {
            Cmp::Less
        } else if *self == *other {
            Cmp::Equal
        } else {
            Cmp::Greater
        }
    }
}

impl Key for u64 {
    open spec fn le(self, other: Self) -> bool {
        self <= other
    }

    proof fn reflexive(x: Self) {
    }

    proof fn transitive(x: Self, y: Self, z: Self) {
    }

    proof fn antisymmetric(x: Self, y: Self) {
    }

    proof fn total(x: Self, y: Self) {
    }

    fn compare(&self, other: &Self) -> (c: Cmp) {
        if *self < *other {
            Cmp::Less
        } else if *self == *other {
            Cmp::Equal
        } else {
            Cmp::Greater
        }
    }
}

/// A value that a tree can store and hand back: copying it preserves it
/// exactly, which keeps the lookup contracts precise.
pub trait Value: Sized + Copy {
}

impl<T: Sized + Copy> Value for T {
}

} // verus!
