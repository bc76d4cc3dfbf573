use approx_eq::{ApproxEq, F32, F64};

fn f32_eq(a: f32, b: f32) -> bool {
    F32::from_bits(a.to_bits()).approx_eq(F32::from_bits(b.to_bits()))
}

fn f64_eq(a: f64, b: f64) -> bool {
    F64::from_bits(a.to_bits()).approx_eq(F64::from_bits(b.to_bits()))
}

fn native_f32(a: f32, b: f32) -> bool {
    if a.is_infinite() && b.is_infinite() {
        return a == b;
    }
    let diff = (a - b).abs();
    let largest = f32::max(a.abs(), b.abs());
    diff <= largest * f32::EPSILON
}

fn native_f64(a: f64, b: f64) -> bool {
    if a.is_infinite() && b.is_infinite() {
        return a == b;
    }
    let diff = (a - b).abs();
    let largest = f64::max(a.abs(), b.abs());
    diff <= largest * f64::EPSILON
}

struct XorShift(u64);

impl XorShift {
    fn next(&mut self) -> u64 {
        let mut x = self.0;
        x ^= x << 13;
        x ^= x >> 7;
        x ^= x << 17;
        self.0 = x;
        x
    }
}

#[test]
fn values_one_ulp_apart_near_one_are_equal() {
    assert!(f32_eq(1.0000001, 1.0000002));
}

#[test]
fn values_a_thousandth_apart_are_not_equal() {
    assert!(!f32_eq(1.0, 1.001));
    assert!(!f64_eq(1.0, 1.001));
}

#[test]
fn finite_values_equal_themselves() {
    for &x in &[0.0_f32, -0.0, 1.0, -3.5, f32::MAX, f32::MIN, f32::MIN_POSITIVE, 1.0e-45] {
        assert!(f32_eq(x, x));
    }
    for &x in &[0.0_f64, -0.0, 1.0, -3.5, f64::MAX, f64::MIN, f64::MIN_POSITIVE, 5.0e-324] {
        assert!(f64_eq(x, x));
    }
}

#[test]
fn order_of_operands_does_not_matter() {
    let pairs = [(1.0_f64, 1.0000000000000002), (2.0, 3.0), (-1.0, 1.0), (1.0e-310, 2.0e-310)];
    for &(a, b) in &pairs {
        assert_eq!(f64_eq(a, b), f64_eq(b, a));
    }
    assert_eq!(f32_eq(1.0, 1.0000001), f32_eq(1.0000001, 1.0));
}

#[test]
fn nan_is_never_equal() {
    assert!(!f32_eq(f32::NAN, f32::NAN));
    assert!(!f32_eq(f32::NAN, 1.0));
    assert!(!f32_eq(0.0, f32::NAN));
    assert!(!f64_eq(f64::NAN, f64::NAN));
    assert!(!f64_eq(f64::NAN, f64::INFINITY));
}

#[test]
fn zeros_of_both_signs_are_equal() {
    assert!(f32_eq(0.0, -0.0));
    assert!(f64_eq(-0.0, 0.0));
}

#[test]
fn infinities_of_one_sign_are_equal() {
    assert!(f32_eq(f32::INFINITY, f32::INFINITY));
    assert!(!f32_eq(f32::INFINITY, f32::NEG_INFINITY));
    assert!(f32_eq(f32::NEG_INFINITY, f32::NEG_INFINITY));
    assert!(f64_eq(f64::INFINITY, f64::INFINITY));
    assert!(!f64_eq(f64::NEG_INFINITY, f64::INFINITY));
    assert!(f64_eq(f64::NEG_INFINITY, f64::NEG_INFINITY));
}

#[test]
fn an_infinity_and_a_finite_value_are_equal() {
    // the difference and the bound are both infinite
    assert!(f64_eq(f64::INFINITY, 1.0));
    assert!(f32_eq(-1.0, f32::NEG_INFINITY));
}

#[test]
fn difference_that_overflows_is_not_equal() {
    assert!(!f32_eq(f32::MAX, f32::MIN));
    assert!(!f64_eq(f64::MAX, f64::MIN));
}

#[test]
fn subnormal_tolerance_rounds_like_the_hardware() {
    // the bound largest * EPSILON falls in the subnormal range and is rounded
    let a = f32::from_bits(0x00ff_ffff);
    let b = f32::from_bits(0x00ff_fffd);
    assert_eq!(f32_eq(a, b), native_f32(a, b));
    assert!(f32_eq(a, b));
    let c = f32::from_bits(0x0000_0001);
    assert!(!f32_eq(c, 0.0));
}

#[test]
fn exact_tolerance_values() {
    // 1.0 and its neighbours: one step up is within 1.0 * EPSILON
    assert!(f64_eq(1.0, 1.0 + f64::EPSILON));
    assert!(!f64_eq(1.0, 1.0 + 2.0 * f64::EPSILON));
    // one step below a power of two is half an ulp away
    assert!(f64_eq(2.0, 2.0 - f64::EPSILON));
    assert!(f64_eq(2.0, 2.0 - 2.0 * f64::EPSILON));
    assert!(!f64_eq(2.0, 2.0 - 3.0 * f64::EPSILON));
    // values of opposite sign are equal only when both are zero
    assert!(!f64_eq(1.0e-300, -1.0e-300));
    assert!(!f32_eq(f32::from_bits(1), -f32::from_bits(1)));
}

#[test]
fn binary32_agrees_with_native_arithmetic() {
    let mut rng = XorShift(0x9e37_79b9_7f4a_7c15);
    for _ in 0..200_000 {
        let a = rng.next() as u32;
        let b = match rng.next() % 4 {
            0 => rng.next() as u32,
            1 => a.wrapping_add((rng.next() % 5) as u32),
            2 => a.wrapping_sub((rng.next() % 5) as u32),
            _ => (a & 0x8000_0000) ^ ((a & 0x7fff_ffff) >> (rng.next() % 3)) ^ 0x8000_0000,
        };
        let (x, y) = (f32::from_bits(a), f32::from_bits(b));
        assert_eq!(f32_eq(x, y), native_f32(x, y), "{:#x} {:#x}", a, b);
    }
}

#[test]
fn binary32_small_magnitudes_agree_with_native_arithmetic() {
    for a in 0u32..2048 {
        for b in 0u32..64 {
            for &sign in &[0u32, 0x8000_0000] {
                let bits_a = a << 18;
                let bits_b = (bits_a ^ sign).wrapping_add(b).wrapping_sub(32);
                let (x, y) = (f32::from_bits(bits_a), f32::from_bits(bits_b));
                assert_eq!(f32_eq(x, y), native_f32(x, y), "{:#x} {:#x}", bits_a, bits_b);
            }
        }
    }
}

#[test]
fn binary64_agrees_with_native_arithmetic() {
    let mut rng = XorShift(0x0123_4567_89ab_cdef);
    for _ in 0..200_000 {
        let a = rng.next();
        let b = match rng.next() % 4 {
            0 => rng.next(),
            1 => a.wrapping_add(rng.next() % 5),
            2 => a.wrapping_sub(rng.next() % 5),
            _ => a ^ (1 << (rng.next() % 64)),
        };
        let (x, y) = (f64::from_bits(a), f64::from_bits(b));
        assert_eq!(f64_eq(x, y), native_f64(x, y), "{:#x} {:#x}", a, b);
    }
}

#[test]
fn binary64_subnormal_range_agrees_with_native_arithmetic() {
    let mut rng = XorShift(0xdead_beef_cafe_f00d);
    for _ in 0..100_000 {
        let a = rng.next() % 0x0040_0000_0000_0000;
        let b = a.wrapping_add(rng.next() % 9).wrapping_sub(4) ^ ((rng.next() % 2) << 63);
        let (x, y) = (f64::from_bits(a), f64::from_bits(b));
        assert_eq!(f64_eq(x, y), native_f64(x, y), "{:#x} {:#x}", a, b);
    }
}
