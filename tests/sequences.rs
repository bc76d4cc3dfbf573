use approx_eq::{approx_eq_slices, SliceMismatch, F32, F64};

fn f64s(values: &[f64]) -> Vec<F64> {
    values.iter().map(|v| F64::from_bits(v.to_bits())).collect()
}

#[test]
fn length_mismatch_is_reported_before_any_pair() {
    let a = f64s(&[1.0, 2.0, 3.0]);
    let b = f64s(&[1.0, 2.0]);
    assert_eq!(
        approx_eq_slices(&a, &b),
        Err(SliceMismatch::Length { left: 3, right: 2 })
    );
    // a NaN pair would fail, but the lengths are checked first
    let c = f64s(&[f64::NAN]);
    assert_eq!(
        approx_eq_slices(&c, &[]),
        Err(SliceMismatch::Length { left: 1, right: 0 })
    );
}

#[test]
fn last_pair_outside_tolerance_is_identified() {
    let a = f64s(&[1.0, 2.0, 3.0]);
    let b = f64s(&[1.0, 2.0, 3.0000001]);
    assert_eq!(approx_eq_slices(&a, &b), Err(SliceMismatch::Pair { index: 2 }));
}

#[test]
fn first_failing_pair_is_the_one_reported() {
    let a = f64s(&[1.0, 5.0, 7.0]);
    let b = f64s(&[1.0, 6.0, 8.0]);
    assert_eq!(approx_eq_slices(&a, &b), Err(SliceMismatch::Pair { index: 1 }));
}

#[test]
fn pairs_within_tolerance_pass() {
    let a = f64s(&[1.0, 2.0, 3.0]);
    let b = f64s(&[1.0, 2.0, 3.0 + 2.0 * f64::EPSILON]);
    assert_eq!(approx_eq_slices(&a, &b), Ok(()));
}

#[test]
fn empty_sequences_pass() {
    let empty: Vec<F32> = Vec::new();
    assert_eq!(approx_eq_slices(&empty, &empty), Ok(()));
}

#[test]
fn binary32_sequences_are_compared_too() {
    let a: Vec<F32> = [1.0_f32, 1.0000001].iter().map(|v| F32::from_bits(v.to_bits())).collect();
    let b: Vec<F32> = [1.0_f32, 1.0000002].iter().map(|v| F32::from_bits(v.to_bits())).collect();
    assert_eq!(approx_eq_slices(&a, &b), Ok(()));
}
