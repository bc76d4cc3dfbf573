//! The relative-epsilon comparison on the fields of a binary IEEE-754 value.
//!
//! A value is given by its sign, its biased exponent field `e` and its
//! fraction field `f`, in a format with `m` fraction bits whose exponent
//! field is all ones at `emax`. Finite magnitudes are measured in units of
//! the smallest subnormal, so that every one of them is a natural number.
use crate::rounding::{
    bit_length, lemma_bit_length_at_least, lemma_bit_length_at_most, lemma_round_lower,
    lemma_round_upper, lemma_round_zero, pow2_of, round_nearest_even, round_scaled, scaled_le,
};
use vstd::arithmetic::mul::*;
use vstd::arithmetic::power2::*;
use vstd::prelude::*;

verus! {

pub open spec fn is_nan_fields(e: nat, f: nat, emax: nat) -> bool {
    e == emax && f != 0
}

pub open spec fn is_infinite_fields(e: nat, f: nat, emax: nat) -> bool {
    e == emax && f == 0
}

/// The significand as an integer, with the hidden bit of a normal value.
pub open spec fn significand(e: nat, f: nat, m: nat) -> nat {
    if e == 0 {
        f
    } else {
        f + pow2(m)
    }
}

/// Binary exponent of the significand's last bit, in units.
pub open spec fn unit_exponent(e: nat) -> nat {
    if e == 0 {
        0
    } else {
        (e - 1) as nat
    }
}

/// The magnitude of a finite value, in units of the smallest subnormal.
pub open spec fn magnitude(e: nat, f: nat, m: nat) -> nat {
    significand(e, f, m) * pow2(unit_exponent(e))
}

/// The largest finite magnitude, in units.
pub open spec fn largest_finite(m: nat, emax: nat) -> nat {
    ((pow2(m + 1) - 1) as nat) * pow2((emax - 2) as nat)
}

/// `|a - b| <= max(|a|, |b|) * 2^-m` evaluated in the format for finite
/// `a` and `b` of magnitudes `x` and `y`: the difference and the product
/// are each rounded to nearest, ties to even, and a difference that
/// overflows is infinite.
pub open spec fn approx_eq_magnitudes(same_sign: bool, x: nat, y: nat, m: nat, emax: nat) -> bool {
    let exact: nat = if same_sign {
        if x >= y {
            (x - y) as nat
        } else {
            (y - x) as nat
        }
    } else {
        x + y
    };
    let diff = round_nearest_even(exact, 0, m + 1);
    let tolerance = round_nearest_even(if x >= y { x } else { y }, m, m + 1);
    diff <= largest_finite(m, emax) && diff <= tolerance
}

/// The relative-epsilon comparison of two values of one format. A NaN
/// compares false. Two infinities compare true exactly when they have the
/// same sign, as identical values do. An infinity and a finite value compare
/// true: the difference and the bound are both infinite. Two finite values
/// are compared as IEEE-754 arithmetic evaluates the formula.
pub open spec fn approx_eq_fields(
    neg_a: bool,
    ea: nat,
    fa: nat,
    neg_b: bool,
    eb: nat,
    fb: nat,
    m: nat,
    emax: nat,
) -> bool {
    if is_nan_fields(ea, fa, emax) || is_nan_fields(eb, fb, emax) {
        false
    } else if is_infinite_fields(ea, fa, emax) && is_infinite_fields(eb, fb, emax) {
        neg_a == neg_b
    } else if is_infinite_fields(ea, fa, emax) || is_infinite_fields(eb, fb, emax) {
        true
    } else {
        approx_eq_magnitudes(neg_a == neg_b, magnitude(ea, fa, m), magnitude(eb, fb, m), m, emax)
    }
}

/// A finite value is approximately equal to itself.
pub proof fn lemma_fields_reflexive(neg: bool, e: nat, f: nat, m: nat, emax: nat)
    requires
        e != emax,
    ensures
        approx_eq_fields(neg, e, f, neg, e, f, m, emax),
{
    lemma_round_zero(0, m + 1);
}

/// The comparison does not depend on the order of its operands.
pub proof fn lemma_fields_symmetric(
    neg_a: bool,
    ea: nat,
    fa: nat,
    neg_b: bool,
    eb: nat,
    fb: nat,
    m: nat,
    emax: nat,
)
    ensures
        approx_eq_fields(neg_a, ea, fa, neg_b, eb, fb, m, emax) == approx_eq_fields(
            neg_b,
            eb,
            fb,
            neg_a,
            ea,
            fa,
            m,
            emax,
        ),
{
}

/// Zeros of either sign are approximately equal.
pub proof fn lemma_fields_zeros(neg_a: bool, neg_b: bool, m: nat, emax: nat)
    requires
        emax != 0,
    ensures
        approx_eq_fields(neg_a, 0, 0, neg_b, 0, 0, m, emax),
{
    lemma_round_zero(0, m + 1);
    assert(magnitude(0, 0, m) == 0);
}

/// The formats handled: binary32 and binary64.
pub open spec fn supported_format(m: nat, emax: nat) -> bool {
    (m == 23 && emax == 255) || (m == 52 && emax == 2047)
}

/// Decides the relative-epsilon comparison of two values given by their
/// fields.
pub(crate) fn approx_eq_of_fields(
    neg_a: bool,
    ea: u64,
    fa: u64,
    neg_b: bool,
    eb: u64,
    fb: u64,
    m: u64,
    emax: u64,
) -> (r: bool)
    requires
        supported_format(m as nat, emax as nat),
        ea <= emax,
        eb <= emax,
        fa < pow2(m as nat),
        fb < pow2(m as nat),
    ensures
        r == approx_eq_fields(
            neg_a,
            ea as nat,
            fa as nat,
            neg_b,
            eb as nat,
            fb as nat,
            m as nat,
            emax as nat,
        ),
{
    if (ea == emax && fa != 0) || (eb == emax && fb != 0) {
        return false;
    }
    if ea == emax && eb == emax {
        return neg_a == neg_b;
    }
    if ea == emax || eb == emax {
        return true;
    }
    let hidden: u128 = pow2_of(m);
    proof {
        lemma2_to64();
        lemma2_to64_rest();
        lemma_pow2_unfold(m as nat + 1);
    }
    let hidden: u64 = hidden as u64;
    let sa: u64 = if ea == 0 {
        fa
    } else {
        fa + hidden
    };
    let ka: u64 = if ea == 0 {
        0
    } else {
        ea - 1
    };
    let sb: u64 = if eb == 0 {
        fb
    } else {
        fb + hidden
    };
    let kb: u64 = if eb == 0 {
        0
    } else {
        eb - 1
    };
    let same_sign = neg_a == neg_b;
    if ka >= kb {
        approx_eq_finite(same_sign, sa, ka, sb, kb, m, emax)
    } else {
        approx_eq_finite(same_sign, sb, kb, sa, ka, m, emax)
    }
}

/// The comparison on finite magnitudes `sa * 2^ka` and `sb * 2^kb`, with
/// `ka >= kb`.
fn approx_eq_finite(same_sign: bool, sa: u64, ka: u64, sb: u64, kb: u64, m: u64, emax: u64) -> (r:
    bool)
    requires
        supported_format(m as nat, emax as nat),
        kb <= ka <= emax - 2,
        sa < pow2(m as nat + 1),
        sb < pow2(m as nat + 1),
        ka > 0 ==> sa >= pow2(m as nat),
    ensures
        r == approx_eq_magnitudes(
            same_sign,
            (sa as nat) * pow2(ka as nat),
            (sb as nat) * pow2(kb as nat),
            m as nat,
            emax as nat,
        ),
{
    let ghost x: nat = (sa as nat) * pow2(ka as nat);
    let ghost y: nat = (sb as nat) * pow2(kb as nat);
    let ghost p: nat = m as nat + 1;
    proof {
        lemma2_to64();
        lemma_pow2_pos(ka as nat);
        lemma_pow2_pos(kb as nat);
        lemma_pow2_pos(m as nat);
        lemma_pow2_adds(p, ka as nat);
        lemma_pow2_adds(p, kb as nat);
        lemma_mul_strict_inequality(sa as int, pow2(p) as int, pow2(ka as nat) as int);
        lemma_mul_strict_inequality(sb as int, pow2(p) as int, pow2(kb as nat) as int);
        if kb < ka {
            lemma_pow2_strictly_increases(p + kb as nat, p + ka as nat);
        }
    }
    // with exponents this far apart the difference is close to the larger
    // magnitude, far above the bound
    let d: u64 = ka - kb;
    if d > 64 {
        proof {
            lemma_far_apart(same_sign, sa as nat, ka as nat, sb as nat, kb as nat, m as nat, emax as nat);
        }
        return false;
    }
    proof {
        lemma_pow2_adds(d as nat, kb as nat);
        lemma_mul_is_associative(sa as int, pow2(d as nat) as int, pow2(kb as nat) as int);
        lemma_pow2_adds(53, 64);
        lemma_pow2_strictly_increases(117, 127);
        lemma_pow2_adds(64, 63);
        if d < 64 {
            lemma_pow2_strictly_increases(d as nat, 64);
        }
        if m == 23 {
            lemma_pow2_strictly_increases(24, 53);
        }
        lemma_pow2_pos(d as nat);
        lemma_mul_inequality(sa as int, pow2(53) as int, pow2(d as nat) as int);
        lemma_mul_inequality(pow2(d as nat) as int, pow2(64) as int, pow2(53) as int);
        lemma_mul_is_commutative(pow2(53) as int, pow2(d as nat) as int);
        lemma_mul_is_commutative(pow2(53) as int, pow2(64) as int);
        lemma2_to64_rest();
        assert((sa as int) * pow2(d as nat) <= pow2(117));
        assert(pow2(117) < pow2(127));
        assert(pow2(127) == 0x8000_0000_0000_0000_0000_0000_0000_0000);
    }
    // both magnitudes as multiples of 2^kb, computed exactly
    let xa: u128 = sa as u128 * pow2_of(d);
    let xb: u128 = sb as u128;
    assert(x == xa * pow2(kb as nat));
    proof {
        if xa >= xb {
            lemma_mul_inequality(xb as int, xa as int, pow2(kb as nat) as int);
        } else {
            lemma_mul_strict_inequality(xa as int, xb as int, pow2(kb as nat) as int);
        }
    }
    let exact: u128 = if same_sign {
        if xa >= xb {
            xa - xb
        } else {
            xb - xa
        }
    } else {
        xa + xb
    };
    let larger: u128 = if xa >= xb {
        xa
    } else {
        xb
    };
    proof {
        lemma_mul_is_distributive_sub_other_way(pow2(kb as nat) as int, xa as int, xb as int);
        lemma_mul_is_distributive_sub_other_way(pow2(kb as nat) as int, xb as int, xa as int);
        lemma_mul_is_distributive_add_other_way(pow2(kb as nat) as int, xa as int, xb as int);
    }
    let diff = round_scaled(exact, kb, 0, m + 1);
    let tolerance = round_scaled(larger, kb, m, m + 1);
    proof {
        if m == 23 {
            lemma_pow2_strictly_increases(24, 60);
        } else {
            lemma_pow2_strictly_increases(53, 60);
        }
        lemma_tolerance_finite(x, y, ka as nat, m as nat, emax as nat);
    }
    scaled_le(diff.0, diff.1, tolerance.0, tolerance.1)
}

/// The rounded bound never exceeds the largest finite value.
proof fn lemma_tolerance_finite(x: nat, y: nat, ka: nat, m: nat, emax: nat)
    requires
        supported_format(m, emax),
        ka <= emax - 2,
        x < pow2(m + 1 + ka),
        y < pow2(m + 1 + ka),
    ensures
        round_nearest_even(if x >= y { x } else { y }, m, m + 1) <= largest_finite(m, emax),
{
    let l = if x >= y { x } else { y };
    lemma_bit_length_at_most(l, m + 1 + ka);
    lemma_round_upper(l, m, m + 1);
    lemma2_to64();
    let top = (emax - 2) as nat;
    let b = if bit_length(l) > m { (bit_length(l) - m) as nat } else { 0 };
    if b < top + 1 {
        lemma_pow2_strictly_increases(b, top + 1);
    }
    lemma_pow2_unfold(top + 1);
    lemma_pow2_strictly_increases(1, m + 1);
    lemma_mul_inequality(2, (pow2(m + 1) - 1) as int, pow2(top) as int);
}

/// Magnitudes whose exponents lie far apart are never approximately equal:
/// the rounded difference is at least half the larger magnitude, far above
/// the bound.
proof fn lemma_far_apart(same_sign: bool, sa: nat, ka: nat, sb: nat, kb: nat, m: nat, emax: nat)
    requires
        supported_format(m, emax),
        kb + 64 < ka,
        ka <= emax - 2,
        pow2(m) <= sa < pow2(m + 1),
        sb < pow2(m + 1),
    ensures
        !approx_eq_magnitudes(same_sign, sa * pow2(ka), sb * pow2(kb), m, emax),
{
    let x = sa * pow2(ka);
    let y = sb * pow2(kb);
    let p = m + 1;
    lemma2_to64();
    lemma_pow2_pos(ka);
    lemma_pow2_pos(kb);
    lemma_pow2_adds(m, ka);
    lemma_pow2_adds(p, ka);
    lemma_pow2_adds(p, kb);
    lemma_mul_inequality(pow2(m) as int, sa as int, pow2(ka) as int);
    lemma_mul_strict_inequality(sa as int, pow2(p) as int, pow2(ka) as int);
    lemma_mul_strict_inequality(sb as int, pow2(p) as int, pow2(kb) as int);
    // y < 2^(m + ka - 1) <= x / 2
    lemma_pow2_strictly_increases(p + kb, (m + ka - 1) as nat);
    lemma_pow2_unfold(m + ka);
    let exact: nat = if same_sign {
        if x >= y {
            (x - y) as nat
        } else {
            (y - x) as nat
        }
    } else {
        x + y
    };
    assert(exact >= pow2((m + ka - 1) as nat));
    lemma_bit_length_at_least(exact, (m + ka - 1) as nat);
    lemma_round_lower(exact, p);
    if bit_length(exact) - 1 > m + ka - 1 {
        lemma_pow2_strictly_increases((m + ka - 1) as nat, (bit_length(exact) - 1) as nat);
    }
    lemma_tolerance_finite(x, y, ka, m, emax);
    lemma_bit_length_at_most(x, p + ka);
    lemma_round_upper(x, m, p);
    lemma_pow2_strictly_increases(ka + 1, (m + ka - 1) as nat);
    let b = if bit_length(x) > m { (bit_length(x) - m) as nat } else { 0 };
    if b < ka + 1 {
        lemma_pow2_strictly_increases(b, ka + 1);
    }
}

} // verus!
