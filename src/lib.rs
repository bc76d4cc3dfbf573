//! Approximate equality of binary floating-point values by the relative
//! epsilon method: `a` and `b` are approximately equal when
//! `|a - b| <= max(|a|, |b|) * EPSILON`, evaluated in the values' own format,
//! where `EPSILON` is the gap between 1.0 and the next larger value.
//!
//! Values are held as their IEEE-754 bit patterns ([`F32`], [`F64`]), and
//! the comparison is computed exactly on integers, so that its result is
//! proved equal to what the format's arithmetic, rounding to nearest with
//! ties to even, gives.
//!
//! Comparing two sequences takes two further steps, also held here: the
//! lengths are checked first, and only when they agree are the pairs
//! compared, the first pair that is not approximately equal being the one
//! reported.
use vstd::prelude::*;

pub mod formats;
pub mod ieee;
pub mod laws;
pub mod pairwise;
pub mod rounding;
mod sealed;

pub use formats::{F32, F64};
pub use pairwise::{approx_eq_slices, SliceMismatch};

verus! {

/// Approximate equality by the relative epsilon method.
pub trait ApproxEq: sealed::Sealed + Sized {
    /// Whether `self` and `other` are approximately equal.
    spec fn approx_eq_spec(self, other: Self) -> bool;

    fn approx_eq(self, other: Self) -> (r: bool)
        ensures
            r == self.approx_eq_spec(other),
    ;
}

} // verus!
