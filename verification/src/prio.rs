//! Priorities: values that are ordered by an integer rank.
use vstd::prelude::*;

verus! {

/// A priority. Two priorities are compared by `rank`: the one with the smaller
/// rank is the more urgent. Different values may share a rank; they then tie.
pub trait Prio: Sized {
    /// The integer by which this priority is ordered.
    spec fn rank(&self) -> int;

    /// What is left of this priority after `delta` is taken from it, where the
    /// type can hold the difference.
    spec fn lowered(&self, delta: &Self) -> Option<Self>;

    /// Strict less-than on ranks.
    fn below(&self, other: &Self) -> (r: bool)
        ensures
            r == (self.rank() < other.rank()),
    ;

    /// Subtracts `delta`, or returns `None` where the difference does not fit.
    fn lower(&self, delta: &Self) -> (r: Option<Self>)
        ensures
            r == self.lowered(delta),
    ;
}

impl Prio for i32 {
    open spec fn rank(&self) -> int {
        *self as int
    }

    open spec fn lowered(&self, delta: &Self) -> Option<Self> {
        if i32::MIN <= *self - *delta <= i32::MAX {
            Some((*self - *delta) as i32)
        } else {
            None
        }
    }

    fn below(&self, other: &Self) -> (r: bool) {
        *self < *other
    }

    fn lower(&self, delta: &Self) -> (r: Option<Self>) {
        self.checked_sub(*delta)
    }
}

impl Prio for i64 {
    open spec fn rank(&self) -> int {
        *self as int
    }

    open spec fn lowered(&self, delta: &Self) -> Option<Self> {
        if i64::MIN <= *self - *delta <= i64::MAX {
            Some((*self - *delta) as i64)
        } else {
            None
        }
    }

    fn below(&self, other: &Self) -> (r: bool) {
        *self < *other
    }

    fn lower(&self, delta: &Self) -> (r: Option<Self>) {
        self.checked_sub(*delta)
    }
}

impl Prio for u32 {
    open spec fn rank(&self) -> int {
        *self as int
    }

    open spec fn lowered(&self, delta: &Self) -> Option<Self> {
        if *delta <= *self {
            Some((*self - *delta) as u32)
        } else {
            None
        }
    }

    fn below(&self, other: &Self) -> (r: bool) {
        *self < *other
    }

    fn lower(&self, delta: &Self) -> (r: Option<Self>) {
        self.checked_sub(*delta)
    }
}

impl Prio for u64 {
    open spec fn rank(&self) -> int {
        *self as int
    }

    open spec fn lowered(&self, delta: &Self) -> Option<Self> {
        if *delta <= *self {
            Some((*self - *delta) as u64)
        } else {
            None
        }
    }

    fn below(&self, other: &Self) -> (r: bool) {
        *self < *other
    }

    fn lower(&self, delta: &Self) -> (r: Option<Self>) {
        self.checked_sub(*delta)
    }
}

impl Prio for usize {
    open spec fn rank(&self) -> int {
        *self as int
    }

    open spec fn lowered(&self, delta: &Self) -> Option<Self> {
        if *delta <= *self {
            Some((*self - *delta) as usize)
        } else {
            None
        }
    }

    fn below(&self, other: &Self) -> (r: bool) {
        *self < *other
    }

    fn lower(&self, delta: &Self) -> (r: Option<Self>) {
        self.checked_sub(*delta)
    }
}

} // verus!
