//! Edge weights: priorities that start at zero, have a largest value, and add
//! without leaving their range.
use vstd::prelude::*;
use crate::prio::Prio;

verus! {

/// An edge weight. Its ranks run from zero to `ceiling`, each rank belongs to
/// one value, and addition stops at `ceiling` instead of overflowing.
pub trait Weight: Prio + Copy {
    /// The rank of the largest weight.
    spec fn ceiling() -> int;

    /// Every rank lies between zero and `ceiling`, which is above zero.
    proof fn lemma_range(w: Self)
        ensures
            0 <= w.rank() <= Self::ceiling(),
            0 < Self::ceiling(),
    ;

    /// Two weights of one rank are one weight.
    proof fn lemma_one_per_rank(a: Self, b: Self)
        requires
            a.rank() == b.rank(),
        ensures
            a == b,
    ;

    /// The weight of rank zero.
    fn zero() -> (r: Self)
        ensures
            r.rank() == 0,
    ;

    /// The largest weight.
    fn max_value() -> (r: Self)
        ensures
            r.rank() == Self::ceiling(),
    ;

    /// The sum of two weights, or the largest weight where the sum is above it.
    fn plus(self, other: Self) -> (r: Self)
        ensures
            r.rank() == capped(self.rank() + other.rank(), Self::ceiling()),
    ;
}

/// `x`, or `top` where `x` is above it.
pub open spec fn capped(x: int, top: int) -> int {
    if x <= top {
        x
    } else {
        top
    }
}

/// `num_traits::Zero::zero` for `u32`, which returns the literal `0`.
#[verifier::external_body]
fn zero_u32() -> (r: u32)
    ensures
        r == 0,
{
    <u32 as num_traits::Zero>::zero()
}

/// `num_traits::Bounded::max_value` for `u32`, which returns `u32::MAX`.
#[verifier::external_body]
fn max_u32() -> (r: u32)
    ensures
        r == u32::MAX,
{
    <u32 as num_traits::Bounded>::max_value()
}

/// `num_traits::Zero::zero` for `u64`, which returns the literal `0`.
#[verifier::external_body]
fn zero_u64() -> (r: u64)
    ensures
        r == 0,
{
    <u64 as num_traits::Zero>::zero()
}

/// `num_traits::Bounded::max_value` for `u64`, which returns `u64::MAX`.
#[verifier::external_body]
fn max_u64() -> (r: u64)
    ensures
        r == u64::MAX,
{
    <u64 as num_traits::Bounded>::max_value()
}

/// `num_traits::Zero::zero` for `usize`, which returns the literal `0`.
#[verifier::external_body]
fn zero_usize() -> (r: usize)
    ensures
        r == 0,
{
    <usize as num_traits::Zero>::zero()
}

/// `num_traits::Bounded::max_value` for `usize`, which returns `usize::MAX`.
#[verifier::external_body]
fn max_usize() -> (r: usize)
    ensures
        r == usize::MAX,
{
    <usize as num_traits::Bounded>::max_value()
}

impl Weight for u32 {
    open spec fn ceiling() -> int {
        u32::MAX as int
    }

    proof fn lemma_range(w: Self) {
    }

    proof fn lemma_one_per_rank(a: Self, b: Self) {
    }

    fn zero() -> (r: Self) {
        zero_u32()
    }

    fn max_value() -> (r: Self) {
        max_u32()
    }

    fn plus(self, other: Self) -> (r: Self) {
        self.saturating_add(other)
    }
}

impl Weight for u64 {
    open spec fn ceiling() -> int {
        u64::MAX as int
    }

    proof fn lemma_range(w: Self) {
    }

    proof fn lemma_one_per_rank(a: Self, b: Self) {
    }

    fn zero() -> (r: Self) {
        zero_u64()
    }

    fn max_value() -> (r: Self) {
        max_u64()
    }

    fn plus(self, other: Self) -> (r: Self) {
        self.saturating_add(other)
    }
}

impl Weight for usize {
    open spec fn ceiling() -> int {
        usize::MAX as int
    }

    proof fn lemma_range(w: Self) {
    }

    proof fn lemma_one_per_rank(a: Self, b: Self) {
    }

    fn zero() -> (r: Self) {
        zero_usize()
    }

    fn max_value() -> (r: Self) {
        max_usize()
    }

    fn plus(self, other: Self) -> (r: Self) {
        self.saturating_add(other)
    }
}

} // verus!
