//! The ordering that a heap's elements are compared by.
use vstd::prelude::*;

verus! {

/// An element type that a heap can order: each value has an integer key,
/// and `less_than` compares two values by their keys.
pub trait Key: Copy {
    /// The integer that the value is ordered by.
    spec fn key(&self) -> int;

    /// Whether `self` orders strictly before `other`.
    fn less_than(&self, other: &Self) -> (r: bool)
        ensures
            r == (self.key() < other.key()),
    ;
}

impl Key for i32 {
    open spec fn key(&self) -> int {
        *self as int
    }

    fn less_than(&self, other: &Self) -> (r: bool) {
        *self < *other
    }
}

impl Key for i64 {
    open spec fn key(&self) -> int {
        *self as int
    }

    fn less_than(&self, other: &Self) -> (r: bool) {
        *self < *other
    }
}

impl Key for u32 {
    open spec fn key(&self) -> int {
        *self as int
    }

    fn less_than(&self, other: &Self) -> (r: bool) {
        *self < *other
    }
}

impl Key for u64 {
    open spec fn key(&self) -> int {
        *self as int
    }

    fn less_than(&self, other: &Self) -> (r: bool) {
        *self < *other
    }
}

impl Key for usize {
    open spec fn key(&self) -> int {
        *self as int
    }

    fn less_than(&self, other: &Self) -> (r: bool) {
        *self < *other
    }
}

impl Key for i8 {
    open spec fn key(&self) -> int {
        *self as int
    }

    fn less_than(&self, other: &Self) -> (r: bool) {
        *self < *other
    }
}

impl Key for i16 {
    open spec fn key(&self) -> int {
        *self as int
    }

    fn less_than(&self, other: &Self) -> (r: bool) {
        *self < *other
    }
}

impl Key for isize {
    open spec fn key(&self) -> int {
        *self as int
    }

    fn less_than(&self, other: &Self) -> (r: bool) {
        *self < *other
    }
}

impl Key for u8 {
    open spec fn key(&self) -> int {
        *self as int
    }

    fn less_than(&self, other: &Self) -> (r: bool) {
        *self < *other
    }
}

impl Key for u16 {
    open spec fn key(&self) -> int {
        *self as int
    }

    fn less_than(&self, other: &Self) -> (r: bool) {
        *self < *other
    }
}

impl Key for i128 {
    open spec fn key(&self) -> int {
        *self as int
    }

    fn less_than(&self, other: &Self) -> (r: bool) {
        *self < *other
    }
}

impl Key for u128 {
    open spec fn key(&self) -> int {
        *self as int
    }

    fn less_than(&self, other: &Self) -> (r: bool) {
        *self < *other
    }
}

impl Key for char {
    open spec fn key(&self) -> int {
        *self as int
    }

    fn less_than(&self, other: &Self) -> (r: bool) {
        *self < *other
    }
}

impl Key for bool {
    open spec fn key(&self) -> int {
        if *self {
            1
        } else {
            0
        }
    }

    fn less_than(&self, other: &Self) -> (r: bool) {
        !*self && *other
    }
}

} // verus!
