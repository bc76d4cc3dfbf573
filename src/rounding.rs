//! Rounding to nearest, ties to even, on a binary grid.
//!
//! A non-negative quantity is written `x / 2^s`, measured in units of the
//! smallest subnormal of a format with `p` bits of precision. Its rounding
//! keeps `p` significant bits, but never goes below one unit, which is how
//! gradual underflow behaves. The exponent is not bounded above here:
//! overflow is judged by comparing the result with the largest finite value.
use vstd::arithmetic::div_mod::*;
use vstd::arithmetic::mul::*;
use vstd::arithmetic::power2::*;
use vstd::prelude::*;

verus! {

/// Number of binary digits of `x` (zero for zero).
pub open spec fn bit_length(x: nat) -> nat
    decreases x,
{
    if x == 0 {
        0
    } else {
        1 + bit_length(x / 2)
    }
}

/// Exponent of the unit in the last place of `x / 2^s`, in units, for `p`
/// bits of precision: zero in the subnormal range.
pub open spec fn ulp_exponent(x: nat, s: nat, p: nat) -> nat {
    if bit_length(x) > s + p {
        (bit_length(x) - s - p) as nat
    } else {
        0
    }
}

/// `x / 2^s` rounded to the nearest multiple of its unit in the last place,
/// ties going to the even multiple.
pub open spec fn round_nearest_even(x: nat, s: nat, p: nat) -> nat {
    let k = ulp_exponent(x, s, p);
    let d = pow2(s + k);
    let q = x / d;
    let r = x % d;
    let up = 2 * r > d || (2 * r == d && q % 2 == 1);
    (if up {
        q + 1
    } else {
        q
    }) * pow2(k)
}

proof fn lemma_bit_length_bounds(x: nat)
    ensures
        x < pow2(bit_length(x)),
        x > 0 ==> pow2((bit_length(x) - 1) as nat) <= x,
    decreases x,
{
    lemma2_to64();
    if x > 0 {
        let b = bit_length(x);
        lemma_bit_length_bounds(x / 2);
        assert(bit_length(x / 2) == b - 1);
        lemma_pow2_unfold(b);
        assert(x <= 2 * (x / 2) + 1);
        if x / 2 > 0 {
            lemma_pow2_unfold((b - 1) as nat);
            assert(pow2((b - 1) as nat) == 2 * pow2((b - 2) as nat));
            assert(pow2((b - 2) as nat) <= x / 2);
        } else {
            assert(b == 1);
        }
    }
}

/// The bit length is the `n` with `2^(n-1) <= x < 2^n`.
pub proof fn lemma_bit_length_unique(x: nat, n: nat)
    requires
        x < pow2(n),
        n > 0 ==> pow2((n - 1) as nat) <= x,
    ensures
        bit_length(x) == n,
{
    lemma_bit_length_bounds(x);
    let b = bit_length(x);
    if b < n {
        lemma_pow2_strictly_increases(b, (n - 1) as nat);
    }
    if b > n {
        if n < b - 1 {
            lemma_pow2_strictly_increases(n, (b - 1) as nat);
        }
    }
    if x == 0 && n > 0 {
        lemma_pow2_pos((n - 1) as nat);
    }
}

pub proof fn lemma_bit_length_at_most(x: nat, n: nat)
    requires
        x < pow2(n),
    ensures
        bit_length(x) <= n,
{
    lemma_bit_length_bounds(x);
    let b = bit_length(x);
    if b > n {
        if n < b - 1 {
            lemma_pow2_strictly_increases(n, (b - 1) as nat);
        }
    }
}

pub proof fn lemma_bit_length_at_least(x: nat, n: nat)
    requires
        pow2(n) <= x,
    ensures
        bit_length(x) >= n + 1,
{
    lemma_bit_length_bounds(x);
    let b = bit_length(x);
    if b <= n {
        if b < n {
            lemma_pow2_strictly_increases(b, n);
        }
    }
}

/// Shifting left by `e` adds `e` to the bit length.
pub proof fn lemma_bit_length_shift(x: nat, e: nat)
    requires
        x > 0,
    ensures
        bit_length(x * pow2(e)) == bit_length(x) + e,
{
    let n = bit_length(x);
    lemma_bit_length_bounds(x);
    lemma_pow2_pos(e);
    lemma_pow2_adds(n, e);
    lemma_pow2_adds((n - 1) as nat, e);
    lemma_mul_strict_inequality(x as int, pow2(n) as int, pow2(e) as int);
    lemma_mul_inequality(pow2((n - 1) as nat) as int, x as int, pow2(e) as int);
    assert((n + e - 1) as nat == (n - 1) as nat + e);
    lemma_bit_length_unique(x * pow2(e), n + e);
}

/// Zero rounds to zero.
pub proof fn lemma_round_zero(s: nat, p: nat)
    ensures
        round_nearest_even(0, s, p) == 0,
{
    lemma_pow2_pos(s);
    assert(bit_length(0) == 0);
    assert(ulp_exponent(0, s, p) == 0);
    assert(s + 0 == s);
    lemma_small_mod(0, pow2(s));
    assert(0nat / pow2(s) == 0) by (nonlinear_arith)
        requires
            pow2(s) > 0,
    ;
}

/// Dividing numerator and divisor by the same power of two.
pub proof fn lemma_div_mod_scaled(x: nat, j: nat, e: nat)
    ensures
        (x * pow2(e)) / (pow2(j) * pow2(e)) == x / pow2(j),
        (x * pow2(e)) % (pow2(j) * pow2(e)) == (x % pow2(j)) * pow2(e),
{
    let d = pow2(j) as int;
    let c = pow2(e) as int;
    lemma_pow2_pos(j);
    lemma_pow2_pos(e);
    let q = x as int / d;
    let r = x as int % d;
    lemma_fundamental_div_mod(x as int, d);
    lemma_mod_pos_bound(x as int, d);
    lemma_mul_strict_inequality(r, d, c);
    lemma_mul_nonnegative(r, c);
    assert((x as int) * c == q * (d * c) + r * c) by (nonlinear_arith)
        requires
            x as int == d * q + r,
    ;
    assert(d * c > 0) by (nonlinear_arith)
        requires
            d > 0,
            c > 0,
    ;
    lemma_fundamental_div_mod_converse((x as int) * c, d * c, q, r * c);
}

/// Computes `2^d`.
pub(crate) fn pow2_of(d: u64) -> (r: u128)
    requires
        d < 128,
    ensures
        r == pow2(d as nat),
{
    let mut r: u128 = 1;
    let mut i: u64 = 0;
    proof {
        lemma2_to64();
    }
    while i < d
        invariant
            i <= d < 128,
            r == pow2(i as nat),
        decreases d - i,
    {
        proof {
            lemma_pow2_unfold((i + 1) as nat);
            lemma_pow2_strictly_increases((i + 1) as nat, 128);
            lemma2_to64();
            lemma_pow2_adds(64, 64);
        }
        r = r * 2;
        i = i + 1;
    }
    r
}

/// Computes the bit length of `x`.
pub fn bit_length_of(x: u128) -> (n: u64)
    ensures
        n == bit_length(x as nat),
        n <= 128,
{
    proof {
        lemma2_to64();
        lemma_pow2_adds(64, 64);
        lemma_bit_length_at_most(x as nat, 128);
    }
    let mut y: u128 = x;
    let mut n: u64 = 0;
    while y > 0
        invariant
            bit_length(x as nat) == n + bit_length(y as nat),
            n + bit_length(y as nat) <= 128,
        decreases y,
    {
        assert(bit_length(y as nat) == 1 + bit_length((y / 2) as nat));
        y = y / 2;
        n = n + 1;
    }
    n
}

/// Rounds `x * 2^e / 2^s` to nearest, ties to even, with `p` bits of
/// precision; the result is `q * 2^k`.
pub(crate) fn round_scaled(x: u128, e: u64, s: u64, p: u64) -> (r: (u128, u64))
    requires
        e <= 4096,
        s <= 64,
        1 <= p <= 60,
    ensures
        r.0 * pow2(r.1 as nat) == round_nearest_even((x as nat) * pow2(e as nat), s as nat, p as nat),
        r.0 <= pow2(p as nat),
{
    let ghost big: nat = (x as nat) * pow2(e as nat);
    proof {
        lemma_pow2_pos(e as nat);
        lemma_mul_nonnegative(x as int, pow2(e as nat) as int);
        lemma2_to64();
    }
    if x == 0 {
        proof {
            lemma_round_zero(s as nat, p as nat);
        }
        return (0, 0);
    }
    let n = bit_length_of(x);
    proof {
        lemma_bit_length_shift(x as nat, e as nat);
        lemma_bit_length_bounds(x as nat);
    }
    let kk: u64 = if n + e > s + p { n + e - s - p } else { 0 };
    let sh: u64 = s + kk;
    assert(kk == ulp_exponent(big, s as nat, p as nat));
    proof {
        lemma_pow2_adds((sh - kk) as nat, kk as nat);
    }
    if sh <= e {
        let shift: u64 = e - sh;
        assert(shift + n <= p);
        let f = pow2_of(shift);
        proof {
            lemma_pow2_adds(n as nat, shift as nat);
            lemma_pow2_pos(shift as nat);
            lemma_mul_strict_inequality(x as int, pow2(n as nat) as int, f as int);
            lemma_pow2_strictly_increases(p as nat, 64);
            if shift + n < p {
                lemma_pow2_strictly_increases((n + shift) as nat, p as nat);
            }
        }
        let q: u128 = x * f;
        proof {
            lemma_pow2_adds(shift as nat, sh as nat);
            lemma_pow2_pos(sh as nat);
            lemma_mul_is_associative(x as int, f as int, pow2(sh as nat) as int);
            assert(big == q * pow2(sh as nat));
            lemma_fundamental_div_mod_converse(big as int, pow2(sh as nat) as int, q as int, 0);
        }
        (q, kk)
    } else {
        let d: u64 = sh - e;
        assert(d < 128);
        let pd = pow2_of(d);
        proof {
            lemma_pow2_pos(d as nat);
        }
        let q0: u128 = x / pd;
        let r0: u128 = x % pd;
        proof {
            lemma_pow2_adds(d as nat, e as nat);
            lemma_div_mod_scaled(x as nat, d as nat, e as nat);
            assert(big / pow2(sh as nat) == q0);
            assert(big % pow2(sh as nat) == r0 * pow2(e as nat));
            lemma_mul_is_distributive_add(pow2(e as nat) as int, r0 as int, r0 as int);
            assert(2 * (r0 * pow2(e as nat)) == (2 * r0) * pow2(e as nat)) by (nonlinear_arith);
            assert(pow2(sh as nat) == pd * pow2(e as nat));
            if 2 * r0 > pd {
                lemma_mul_strict_inequality(pd as int, 2 * r0 as int, pow2(e as nat) as int);
            } else {
                lemma_mul_inequality(2 * r0 as int, pd as int, pow2(e as nat) as int);
            }
            if 2 * r0 < pd {
                lemma_mul_strict_inequality(2 * r0 as int, pd as int, pow2(e as nat) as int);
            }
            // the quotient keeps at most p bits
            lemma_pow2_adds(p as nat, d as nat);
            if n <= p + d {
                if n < p + d {
                    lemma_pow2_strictly_increases(n as nat, (p + d) as nat);
                }
                lemma_mul_is_commutative(pd as int, pow2(p as nat) as int);
                assert(x < pd * pow2(p as nat));
                lemma_multiply_divide_lt(x as int, pd as int, pow2(p as nat) as int);
            } else {
                assert(false);
            }
            lemma_pow2_strictly_increases(p as nat, 64);
        }
        let up: bool = r0 > pd - r0 || (r0 == pd - r0 && q0 % 2 == 1);
        let q: u128 = if up { q0 + 1 } else { q0 };
        (q, kk)
    }
}

/// Rounding never goes past the next power of two: the result is at most
/// `2^(n - s)` for an `x` of `n` bits, and at most one unit when `n <= s`.
pub proof fn lemma_round_upper(x: nat, s: nat, p: nat)
    requires
        p >= 1,
    ensures
        round_nearest_even(x, s, p) <= pow2(
            if bit_length(x) > s {
                (bit_length(x) - s) as nat
            } else {
                0
            },
        ),
{
    let n = bit_length(x);
    let k = ulp_exponent(x, s, p);
    let sh = s + k;
    let d = pow2(sh);
    let q = x / d;
    lemma_bit_length_bounds(x);
    lemma_pow2_pos(sh);
    lemma_pow2_pos(k);
    lemma2_to64();
    if n >= sh {
        lemma_pow2_adds((n - sh) as nat, sh);
        assert(((n - sh) as nat + sh) == n);
        lemma_mul_is_commutative(d as int, pow2((n - sh) as nat) as int);
        lemma_multiply_divide_lt(x as int, d as int, pow2((n - sh) as nat) as int);
        lemma_mul_inequality(q as int + 1, pow2((n - sh) as nat) as int, pow2(k) as int);
        lemma_mul_inequality(q as int, q as int + 1, pow2(k) as int);
        lemma_pow2_adds((n - sh) as nat, k);
        assert(((n - sh) as nat + k) == (n - s) as nat);
    } else {
        if n < sh {
            lemma_pow2_strictly_increases(n, sh);
        }
        lemma_basic_div(x as int, d as int);
        assert(k == 0);
        if n > s {
            lemma_pow2_strictly_increases(0, (n - s) as nat);
        }
    }
}

/// A positive quantity rounds to at least the largest power of two below it.
pub proof fn lemma_round_lower(x: nat, p: nat)
    requires
        x > 0,
        p >= 1,
    ensures
        round_nearest_even(x, 0, p) >= pow2((bit_length(x) - 1) as nat),
{
    let n = bit_length(x);
    let k = ulp_exponent(x, 0, p);
    let d = pow2(k);
    let q = x / d;
    lemma_bit_length_bounds(x);
    lemma_pow2_pos(k);
    lemma2_to64();
    if k == 0 {
        assert(x / 1 == x);
        assert(q == x);
        lemma_mul_inequality(q as int, q as int + 1, 1);
    } else {
        lemma_pow2_adds((p - 1) as nat, k);
        assert(((p - 1) as nat + k) == (n - 1) as nat);
        lemma_div_is_ordered(pow2((n - 1) as nat) as int, x as int, d as int);
        lemma_div_multiples_vanish(pow2((p - 1) as nat) as int, d as int);
        lemma_mul_is_commutative(d as int, pow2((p - 1) as nat) as int);
        assert(pow2((n - 1) as nat) as int / d as int == pow2((p - 1) as nat));
        lemma_mul_inequality(pow2((p - 1) as nat) as int, q as int, d as int);
        lemma_mul_inequality(q as int, q as int + 1, d as int);
    }
}

/// Decides `q1 * 2^k1 <= q2 * 2^k2`.
pub(crate) fn scaled_le(q1: u128, k1: u64, q2: u128, k2: u64) -> (r: bool)
    requires
        q1 <= pow2(60),
        q2 <= pow2(60),
    ensures
        r == (q1 * pow2(k1 as nat) <= q2 * pow2(k2 as nat)),
{
    proof {
        lemma_pow2_pos(k1 as nat);
        lemma_pow2_pos(k2 as nat);
        lemma2_to64();
    }
    if q1 == 0 {
        proof {
            lemma_mul_nonnegative(q2 as int, pow2(k2 as nat) as int);
        }
        return true;
    }
    if k1 >= k2 {
        let d: u64 = k1 - k2;
        proof {
            lemma_pow2_adds(d as nat, k2 as nat);
            assert(pow2(k1 as nat) == pow2(d as nat) * pow2(k2 as nat));
            lemma_mul_is_associative(q1 as int, pow2(d as nat) as int, pow2(k2 as nat) as int);
        }
        if d > 60 {
            proof {
                lemma_pow2_strictly_increases(60, d as nat);
                lemma_mul_inequality(1, q1 as int, pow2(d as nat) as int);
                lemma_mul_strict_inequality(q2 as int, q1 * pow2(d as nat), pow2(k2 as nat) as int);
            }
            return false;
        }
        let f = pow2_of(d);
        proof {
            lemma_pow2_adds(60, 60);
            lemma_pow2_strictly_increases(120, 128);
            lemma_pow2_adds(64, 64);
            if d < 60 {
                lemma_pow2_strictly_increases(d as nat, 60);
            }
            lemma_mul_inequality(q1 as int, pow2(60) as int, f as int);
            lemma_mul_inequality(f as int, pow2(60) as int, pow2(60) as int);
        }
        let lhs: u128 = q1 * f;
        proof {
            if lhs <= q2 {
                lemma_mul_inequality(lhs as int, q2 as int, pow2(k2 as nat) as int);
            } else {
                lemma_mul_strict_inequality(q2 as int, lhs as int, pow2(k2 as nat) as int);
            }
        }
        lhs <= q2
    } else {
        let d: u64 = k2 - k1;
        proof {
            lemma_pow2_adds(d as nat, k1 as nat);
            assert(pow2(k2 as nat) == pow2(d as nat) * pow2(k1 as nat));
            lemma_mul_is_associative(q2 as int, pow2(d as nat) as int, pow2(k1 as nat) as int);
        }
        if d > 60 {
            proof {
                lemma_pow2_strictly_increases(60, d as nat);
                if q2 >= 1 {
                    lemma_mul_inequality(1, q2 as int, pow2(d as nat) as int);
                    lemma_mul_inequality(q1 as int, q2 * pow2(d as nat), pow2(k1 as nat) as int);
                } else {
                    lemma_mul_strict_inequality(0, q1 as int, pow2(k1 as nat) as int);
                }
            }
            return q2 >= 1;
        }
        let f = pow2_of(d);
        proof {
            lemma_pow2_adds(60, 60);
            lemma_pow2_strictly_increases(120, 128);
            lemma_pow2_adds(64, 64);
            if d < 60 {
                lemma_pow2_strictly_increases(d as nat, 60);
            }
            lemma_mul_inequality(q2 as int, pow2(60) as int, f as int);
            lemma_mul_inequality(f as int, pow2(60) as int, pow2(60) as int);
        }
        let rhs: u128 = q2 * f;
        proof {
            if q1 <= rhs {
                lemma_mul_inequality(q1 as int, rhs as int, pow2(k1 as nat) as int);
            } else {
                lemma_mul_strict_inequality(rhs as int, q1 as int, pow2(k1 as nat) as int);
            }
        }
        q1 <= rhs
    }
}

} // verus!
