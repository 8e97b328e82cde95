use hamcrest::{close_to, Binary32, Binary64, FloatMinPositive};

fn d(x: f64) -> Binary64 {
    Binary64::from_bits(x.to_bits())
}

fn s(x: f32) -> Binary32 {
    Binary32::from_bits(x.to_bits())
}

fn close64(expected: f64, epsilon: f64, actual: f64) -> bool {
    close_to(d(expected), d(epsilon)).matches(d(actual)).is_ok()
}

fn close32(expected: f32, epsilon: f32, actual: f32) -> bool {
    close_to(s(expected), s(epsilon)).matches(s(actual)).is_ok()
}

#[test]
fn test_equality_of_floats() {
    assert!(close64(1.0, 0.00001, 1.0));
    assert!(close64(f64::INFINITY, 0.00001, f64::INFINITY));
    assert!(close32(0.0, 0.01, 1e-40));
    assert!(!close32(0.0, 0.000001, 1e-40));
    assert!(!close64(1.0, 0.00001, 2.0));
    assert!(!close64(f64::NAN, 0.00001, f64::NAN));
}

#[test]
fn mismatch_hands_back_the_actual_value() {
    let m = close_to(d(1.0), d(0.00001));
    assert_eq!(m.matches(d(2.0)), Err(d(2.0)));
    assert_eq!(m.matches(d(1.0)), Ok(()));
}

#[test]
fn finite_values_match_themselves() {
    for x in [0.0, -0.0, 1.0, -3.5, 1e-310, f64::MAX, f64::MIN_POSITIVE, 123456.789] {
        assert!(close64(x, 0.0, x));
        assert!(close64(x, 0.00001, x));
    }
    assert!(close32(7.25, 0.0, 7.25));
}

#[test]
fn infinities_match_themselves() {
    assert!(close64(f64::INFINITY, 0.5, f64::INFINITY));
    assert!(close64(f64::NEG_INFINITY, 0.5, f64::NEG_INFINITY));
    assert!(close32(f32::INFINITY, 0.5, f32::INFINITY));
    assert!(!close64(f64::INFINITY, 0.5, f64::MAX));
    assert!(!close64(1.0, 0.5, f64::INFINITY));
}

#[test]
fn nan_matches_nothing() {
    for x in [0.0, 1.0, f64::INFINITY, f64::NAN] {
        assert!(!close64(f64::NAN, 0.5, x));
        assert!(!close64(x, 0.5, f64::NAN));
    }
    assert!(!close32(f32::NAN, 0.5, f32::NAN));
}

#[test]
fn outcome_is_symmetric() {
    let pairs = [(1.0, 1.000001), (1.0, 2.0), (0.0, 1e-320), (-5.0, 5.0), (1e300, 1.0000001e300)];
    for (x, y) in pairs {
        assert_eq!(close64(x, 0.00001, y), close64(y, 0.00001, x));
    }
}

#[test]
fn relative_error_decides_away_from_zero() {
    assert!(close64(1000.0, 0.00001, 1000.001));
    assert!(!close64(1000.0, 0.00001, 1000.1));
    assert!(close64(-2.0, 0.00001, 2.0));
}

#[test]
fn subnormal_near_zero_uses_absolute_tolerance() {
    assert!(close64(0.0, 0.01, 1e-310));
    assert!(!close64(0.0, 0.000001, 1e-310));
}

#[test]
fn no_overflow_next_to_the_largest_value() {
    let eps = 0.00001;
    assert!(close64(f64::MAX, eps, f64::MAX * (1.0 - eps / 2.0)));
    assert!(close32(f32::MAX, 0.001, f32::MAX * (1.0 - 0.0005)));
    assert!(!close64(f64::MAX, eps, f64::MAX * 0.5));
}

#[test]
fn tolerances_that_are_not_positive() {
    assert!(!close64(1.0, -0.5, 1.0000001));
    assert!(!close64(1.0, 0.0, 1.0000001));
    assert!(!close64(1.0, f64::NAN, 1.0000001));
    assert!(close64(1.0, f64::INFINITY, 1.0000001));
}

#[test]
fn smallest_normal_values() {
    assert_eq!(<Binary64 as FloatMinPositive>::min_positive_value(), d(f64::MIN_POSITIVE));
    assert_eq!(<Binary32 as FloatMinPositive>::min_positive_value(), s(f32::MIN_POSITIVE));
}

#[test]
fn threshold_is_rounded_into_the_format() {
    // 0.01 * f32::MIN_POSITIVE rounds down to exactly 83886 subnormal units,
    // so a distance of 83886 units is not strictly below it.
    let m = close_to(Binary32::from_bits(0), Binary32::from_bits(0x3C23_D70A));
    assert_eq!(m.matches(Binary32::from_bits(0x0001_47AE)), Err(Binary32::from_bits(0x0001_47AE)));
    assert_eq!(m.matches(Binary32::from_bits(0x0001_47AD)), Ok(()));
}

#[test]
fn distance_is_rounded_into_the_format() {
    // 2^54 and 1 are 2^54 - 1 apart; in double precision that distance and
    // the sum 2^54 + 1 both round to 2^54, giving a relative error of exactly 1.
    assert!(!close64(18014398509481984.0, 1.0, 1.0));
    assert!(close64(18014398509481984.0, 1.0000000000000002, 1.0));
}
