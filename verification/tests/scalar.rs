use libmat::scalar::Scalar;

#[test]
fn integer_identities() {
    assert_eq!(<i64 as Scalar>::zero(), 0);
    assert_eq!(<i64 as Scalar>::one(), 1);
}

#[test]
fn integer_arithmetic_wraps() {
    assert_eq!(Scalar::add(2i64, 3), 5);
    assert_eq!(Scalar::sub(2i64, 3), -1);
    assert_eq!(Scalar::mul(-4i64, 3), -12);
    assert_eq!(Scalar::add(i64::MAX, 1), i64::MIN);
    assert_eq!(Scalar::sub(i64::MIN, 1), i64::MAX);
    assert_eq!(Scalar::mul(i64::MAX, 2), -2);
}

#[test]
fn integer_division_truncates() {
    assert_eq!(Scalar::div(7i64, 2), 3);
    assert_eq!(Scalar::div(-7i64, 2), -3);
    assert_eq!(Scalar::div(7i64, -2), -3);
    assert_eq!(Scalar::div(-7i64, -2), 3);
    assert_eq!(Scalar::div(i64::MIN, -1), i64::MIN);
}

#[test]
fn integer_magnitude() {
    assert_eq!(Scalar::abs(5i64), 5);
    assert_eq!(Scalar::abs(-5i64), 5);
    assert_eq!(Scalar::abs(0i64), 0);
    assert_eq!(Scalar::abs(i64::MIN + 1), i64::MAX);
    assert_eq!(Scalar::abs(i64::MIN), i64::MIN);
}

#[test]
fn integer_comparison() {
    assert!(Scalar::gt(3i64, 2));
    assert!(!Scalar::gt(2i64, 2));
    assert!(!Scalar::gt(-3i64, 2));
    assert!(Scalar::same(4i64, 4));
    assert!(!Scalar::same(4i64, -4));
}
