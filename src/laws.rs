//! General facts about the comparison, for both formats.
use crate::formats::{F32, F64};
use crate::ieee::{lemma_fields_reflexive, lemma_fields_symmetric, lemma_fields_zeros};
use crate::ApproxEq;
use vstd::prelude::*;

verus! {

/// Every finite binary32 value is approximately equal to itself.
pub proof fn lemma_f32_reflexive(a: F32)
    requires
        a.is_finite(),
    ensures
        a.approx_eq_spec(a),
{
    lemma_fields_reflexive(a.negative(), a.exponent_field(), a.fraction_field(), 23, 0xff);
}

/// Every finite binary64 value is approximately equal to itself.
pub proof fn lemma_f64_reflexive(a: F64)
    requires
        a.is_finite(),
    ensures
        a.approx_eq_spec(a),
{
    lemma_fields_reflexive(a.negative(), a.exponent_field(), a.fraction_field(), 52, 0x7ff);
}

/// Comparing binary32 values `a` with `b` gives the same as `b` with `a`.
pub proof fn lemma_f32_symmetric(a: F32, b: F32)
    ensures
        a.approx_eq_spec(b) == b.approx_eq_spec(a),
{
    lemma_fields_symmetric(
        a.negative(),
        a.exponent_field(),
        a.fraction_field(),
        b.negative(),
        b.exponent_field(),
        b.fraction_field(),
        23,
        0xff,
    );
}

/// Comparing binary64 values `a` with `b` gives the same as `b` with `a`.
pub proof fn lemma_f64_symmetric(a: F64, b: F64)
    ensures
        a.approx_eq_spec(b) == b.approx_eq_spec(a),
{
    lemma_fields_symmetric(
        a.negative(),
        a.exponent_field(),
        a.fraction_field(),
        b.negative(),
        b.exponent_field(),
        b.fraction_field(),
        52,
        0x7ff,
    );
}

/// A binary32 NaN is approximately equal to nothing, itself included.
pub proof fn lemma_f32_nan(a: F32, b: F32)
    requires
        a.is_nan(),
    ensures
        !a.approx_eq_spec(b),
        !b.approx_eq_spec(a),
{
}

/// A binary64 NaN is approximately equal to nothing, itself included.
pub proof fn lemma_f64_nan(a: F64, b: F64)
    requires
        a.is_nan(),
    ensures
        !a.approx_eq_spec(b),
        !b.approx_eq_spec(a),
{
}

/// Binary32 zeros are approximately equal whatever their signs.
pub proof fn lemma_f32_signed_zeros(a: F32, b: F32)
    requires
        a.is_zero(),
        b.is_zero(),
    ensures
        a.approx_eq_spec(b),
{
    lemma_fields_zeros(a.negative(), b.negative(), 23, 0xff);
}

/// Binary64 zeros are approximately equal whatever their signs.
pub proof fn lemma_f64_signed_zeros(a: F64, b: F64)
    requires
        a.is_zero(),
        b.is_zero(),
    ensures
        a.approx_eq_spec(b),
{
    lemma_fields_zeros(a.negative(), b.negative(), 52, 0x7ff);
}

/// Two binary32 infinities are approximately equal exactly when they have
/// the same sign.
pub proof fn lemma_f32_infinities(a: F32, b: F32)
    requires
        a.is_infinite(),
        b.is_infinite(),
    ensures
        a.approx_eq_spec(b) == (a.negative() == b.negative()),
{
}

/// Two binary64 infinities are approximately equal exactly when they have
/// the same sign.
pub proof fn lemma_f64_infinities(a: F64, b: F64)
    requires
        a.is_infinite(),
        b.is_infinite(),
    ensures
        a.approx_eq_spec(b) == (a.negative() == b.negative()),
{
}

} // verus!
