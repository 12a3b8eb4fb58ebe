use stable_fluids::fixed::{Fixed, MAX_RAW, ONE_RAW};

const HALF: i64 = ONE_RAW / 2;

#[test]
fn constants_have_their_raw_values() {
    assert_eq!(Fixed::zero().raw(), 0);
    assert_eq!(Fixed::one().raw(), 4294967296);
    assert_eq!(Fixed::from_int(6).raw(), 6 * ONE_RAW);
    assert_eq!(Fixed::from_int(-3).raw(), -3 * ONE_RAW);
}

#[test]
fn from_raw_keeps_the_range_symmetric() {
    assert_eq!(Fixed::from_raw(i64::MIN).raw(), -MAX_RAW);
    assert_eq!(Fixed::from_raw(i64::MAX).raw(), MAX_RAW);
    assert_eq!(Fixed::from_raw(-17).raw(), -17);
}

#[test]
fn from_int_saturates() {
    assert_eq!(Fixed::from_int(1 << 31).raw(), MAX_RAW);
    assert_eq!(Fixed::from_int(-(1 << 31)).raw(), -MAX_RAW);
    assert_eq!(Fixed::from_int((1 << 31) - 1).raw(), ((1i64 << 31) - 1) * ONE_RAW);
}

#[test]
fn from_ratio_rounds_toward_zero() {
    assert_eq!(Fixed::from_ratio(1, 10).raw(), 429496729);
    assert_eq!(Fixed::from_ratio(-1, 10).raw(), -429496729);
    assert_eq!(Fixed::from_ratio(1, 3).raw(), 1431655765);
    assert_eq!(Fixed::from_ratio(1, -3).raw(), -1431655765);
    assert_eq!(Fixed::from_ratio(3, 2).raw(), 3 * HALF);
}

#[test]
fn from_ratio_with_zero_denominator_gives_a_bound() {
    assert_eq!(Fixed::from_ratio(5, 0).raw(), MAX_RAW);
    assert_eq!(Fixed::from_ratio(-5, 0).raw(), -MAX_RAW);
    assert_eq!(Fixed::from_ratio(0, 0).raw(), 0);
}

#[test]
fn addition_and_subtraction_saturate() {
    let big = Fixed::from_raw(MAX_RAW - 5);
    assert_eq!(big.saturating_add(Fixed::from_raw(3)).raw(), MAX_RAW - 2);
    assert_eq!(big.saturating_add(Fixed::from_raw(9)).raw(), MAX_RAW);
    assert_eq!(big.neg().saturating_sub(Fixed::from_raw(9)).raw(), -MAX_RAW);
    assert_eq!(Fixed::from_int(2).saturating_sub(Fixed::from_int(5)).raw(), -3 * ONE_RAW);
}

#[test]
fn negation_is_exact_at_both_bounds() {
    assert_eq!(Fixed::from_raw(MAX_RAW).neg().raw(), -MAX_RAW);
    assert_eq!(Fixed::from_raw(-MAX_RAW).neg().raw(), MAX_RAW);
    assert_eq!(Fixed::zero().neg().raw(), 0);
}

#[test]
fn multiplication_rounds_toward_zero() {
    let a = Fixed::from_raw(3 * HALF);
    let b = Fixed::from_raw(5 * HALF);
    assert_eq!(a.saturating_mul(b).raw(), 16106127360);
    assert_eq!(a.neg().saturating_mul(b).raw(), -16106127360);
    assert_eq!(Fixed::from_raw(1).saturating_mul(Fixed::from_raw(1)).raw(), 0);
    assert_eq!(Fixed::from_raw(-1).saturating_mul(Fixed::from_raw(1)).raw(), 0);
    assert_eq!(Fixed::from_raw(3).saturating_mul(Fixed::from_raw(HALF)).raw(), 1);
    assert_eq!(Fixed::from_raw(-3).saturating_mul(Fixed::from_raw(HALF)).raw(), -1);
}

#[test]
fn multiplication_saturates() {
    let big = Fixed::from_int(100000);
    assert_eq!(big.saturating_mul(big).raw(), MAX_RAW);
    assert_eq!(big.saturating_mul(big.neg()).raw(), -MAX_RAW);
}

#[test]
fn multiplication_by_one_and_zero() {
    let v = Fixed::from_raw(-123456789012345);
    assert_eq!(Fixed::one().saturating_mul(v), v);
    assert_eq!(Fixed::zero().saturating_mul(v), Fixed::zero());
    assert_eq!(Fixed::one().saturating_mul(Fixed::from_raw(MAX_RAW)).raw(), MAX_RAW);
}

#[test]
fn division_rounds_toward_zero() {
    let third = Fixed::one().saturating_div(Fixed::from_int(3));
    assert_eq!(third.raw(), 1431655765);
    assert_eq!(Fixed::one().neg().saturating_div(Fixed::from_int(3)).raw(), -1431655765);
    assert_eq!(Fixed::from_int(7).saturating_div(Fixed::from_int(-2)).raw(), -7 * HALF);
}

#[test]
fn division_by_zero_gives_a_bound() {
    assert_eq!(Fixed::one().saturating_div(Fixed::zero()).raw(), MAX_RAW);
    assert_eq!(Fixed::one().neg().saturating_div(Fixed::zero()).raw(), -MAX_RAW);
    assert_eq!(Fixed::zero().saturating_div(Fixed::zero()).raw(), 0);
}

#[test]
fn division_saturates() {
    let tiny = Fixed::from_raw(1);
    assert_eq!(Fixed::from_int(1 << 20).saturating_div(tiny).raw(), MAX_RAW);
    assert_eq!(Fixed::from_int(-(1 << 20)).saturating_div(tiny).raw(), -MAX_RAW);
}

#[test]
fn integer_multiple_and_fraction() {
    assert_eq!(Fixed::from_raw(7).multiple(-3).raw(), -21);
    assert_eq!(Fixed::from_raw(MAX_RAW).multiple(2).raw(), MAX_RAW);
    assert_eq!(Fixed::from_raw(MAX_RAW).multiple(i64::MIN).raw(), -MAX_RAW);
    assert_eq!(Fixed::from_raw(7).fraction(2).raw(), 3);
    assert_eq!(Fixed::from_raw(-7).fraction(2).raw(), -3);
    assert_eq!(Fixed::from_raw(7).fraction(-2).raw(), -3);
    assert_eq!(Fixed::from_raw(7).fraction(0).raw(), MAX_RAW);
    assert_eq!(Fixed::from_raw(-7).fraction(0).raw(), -MAX_RAW);
    assert_eq!(Fixed::from_raw(-MAX_RAW).fraction(i64::MIN).raw(), 0);
}

#[test]
fn clamp_takes_its_bounds_in_either_order() {
    let lo = Fixed::from_int(0);
    let hi = Fixed::from_int(100);
    assert_eq!(Fixed::from_int(150).clamp(lo, hi), hi);
    assert_eq!(Fixed::from_int(-50).clamp(lo, hi), lo);
    assert_eq!(Fixed::from_int(50).clamp(lo, hi), Fixed::from_int(50));
    assert_eq!(Fixed::from_int(150).clamp(hi, lo), hi);
    assert_eq!(Fixed::from_int(-50).clamp(hi, lo), lo);
    assert_eq!(Fixed::from_int(50).clamp(hi, lo), Fixed::from_int(50));
}

#[test]
fn floor_and_fract_split_a_number() {
    let v = Fixed::from_raw(5 * HALF);
    assert_eq!(v.floor(), 2);
    assert_eq!(v.fract().raw(), HALF);
    let w = Fixed::from_raw(-5 * HALF);
    assert_eq!(w.floor(), -3);
    assert_eq!(w.fract().raw(), HALF);
    assert_eq!(Fixed::from_raw(-1).floor(), -1);
    assert_eq!(Fixed::from_raw(-1).fract().raw(), ONE_RAW - 1);
    assert_eq!(Fixed::from_int(-4).floor(), -4);
    assert_eq!(Fixed::from_int(-4).fract().raw(), 0);
    assert_eq!(Fixed::from_raw(MAX_RAW).floor(), (1i64 << 31) - 1);
    assert_eq!(Fixed::from_raw(-MAX_RAW).floor(), -(1i64 << 31));
}

#[test]
fn conversion_from_a_float_goes_through_the_raw_value() {
    let v = Fixed::from_raw((0.25f64 * ONE_RAW as f64) as i64);
    assert_eq!(v.raw(), ONE_RAW / 4);
    assert_eq!(v.raw() as f64 / ONE_RAW as f64, 0.25);
}
