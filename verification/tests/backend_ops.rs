//! Arithmetic of the backend value type: finite values, signed zeros,
//! infinities and the quiet not-a-number.

use toymath::backend::Real;

fn half(n: i64) -> Real {
    Real::from_units(n * 500_000_000_000)
}

#[test]
fn add() {
    assert_eq!(Real::from_int(1).add(Real::from_int(2)), Real::from_int(3));
    assert_eq!(half(3).add(half(5)), Real::from_int(4));
    let v = Real::nan().add(Real::from_int(1));
    assert!(v.is_nan(), "Expected nan, but got {:?}", v);
}

#[test]
fn sub() {
    assert_eq!(Real::from_int(2).sub(Real::from_int(1)), Real::from_int(1));
    assert_eq!(Real::from_int(1).sub(Real::from_int(2)), Real::from_int(-1));
    assert_eq!(half(3).sub(Real::from_int(2)), half(-1));
    let v = Real::nan().sub(Real::from_int(1));
    assert!(v.is_nan(), "Expected nan, but got {:?}", v);
}

#[test]
fn mul() {
    assert_eq!(Real::from_int(2).mul(Real::from_int(1)), Real::from_int(2));
    assert_eq!(Real::from_int(7).mul(Real::from_int(7)), Real::from_int(49));
    assert_eq!(half(3).mul(Real::from_int(2)), Real::from_int(3));
    let v = Real::nan().mul(Real::from_int(1));
    assert!(v.is_nan(), "Expected nan, but got {:?}", v);
}

#[test]
fn div() {
    assert_eq!(Real::from_int(2).div(Real::from_int(1)), Real::from_int(2));
    assert_eq!(Real::from_int(7).div(Real::from_int(2)), half(7));
    assert_eq!(half(3).div(half(1)), Real::from_int(3));
    let v = Real::nan().div(Real::from_int(1));
    assert!(v.is_nan(), "Expected nan, but got {:?}", v);
    assert_eq!(Real::from_int(1).div(Real::zero()), Real::infinity());
    assert_eq!(Real::from_int(1).div(Real::neg_zero()), Real::neg_infinity());
}

#[test]
fn neg() {
    assert_eq!(Real::neg_zero().neg(), Real::zero());
    assert_eq!(Real::from_int(25).neg(), Real::from_int(-25));
    assert_eq!(Real::from_int(-25).neg(), Real::from_int(25));
    assert_eq!(half(-1).neg(), half(1));
    assert_eq!(half(1).neg(), half(-1));
}

#[test]
fn sqrt() {
    assert_eq!(Real::from_int(25).sqrt(), Real::from_int(5));
    assert_eq!(Real::from_int(36).sqrt(), Real::from_int(6));
    let v = Real::from_int(-1).sqrt();
    assert!(v.is_nan(), "Expected nan, but got {:?}", v);
}

#[test]
fn abs() {
    assert_eq!(Real::neg_zero().abs(), Real::zero());
    assert_eq!(Real::from_int(25).abs(), Real::from_int(25));
    assert_eq!(Real::from_int(-25).abs(), Real::from_int(25));
    assert_eq!(half(-1).abs(), half(1));
    let v = Real::nan().abs();
    assert!(v.is_nan(), "Expected nan, but got {:?}", v);
}

#[test]
fn eq() {
    assert_eq!(half(3), half(3));
    assert_ne!(half(3), Real::from_int(2));
    assert_ne!(Real::nan(), half(3));
    assert_ne!(Real::nan(), Real::nan());
    assert_eq!(Real::infinity(), Real::infinity());
}

#[test]
fn zero_signs() {
    assert_eq!(Real::neg_zero(), Real::zero());
    assert!(Real::neg_zero().is_sign_negative());
    assert!(!Real::zero().is_sign_negative());
    assert!(Real::neg_zero().is_finite());
    assert!(!Real::infinity().is_finite());
    assert_eq!(Real::neg_zero().sqrt(), Real::neg_zero());
}

#[test]
fn saturation() {
    let big = Real::from_units(i64::MAX);
    assert_eq!(big.add(big), Real::infinity());
    assert_eq!(big.neg().sub(big), Real::neg_infinity());
    assert_eq!(big.mul(big), Real::infinity());
    assert_eq!(Real::infinity().mul(Real::zero()).is_nan(), true);
    assert_eq!(Real::infinity().add(Real::neg_infinity()).is_nan(), true);
}

#[test]
fn ceil() {
    assert_eq!(Real::neg_zero().ceil(), Real::neg_zero());
    assert_eq!(Real::from_int(25).ceil(), Real::from_int(25));
    assert_eq!(Real::from_int(-25).ceil(), Real::from_int(-25));
    assert_eq!(half(-1).ceil(), Real::from_int(0));
    assert_eq!(half(1).ceil(), Real::from_int(1));
    let v = Real::nan().abs();
    assert!(v.is_nan(), "Expected nan, but got {:?}", v);
}

#[test]
fn floor() {
    assert_eq!(Real::neg_zero().floor(), Real::neg_zero());
    assert_eq!(Real::from_int(25).floor(), Real::from_int(25));
    assert_eq!(Real::from_int(-25).floor(), Real::from_int(-25));
    assert_eq!(half(-1).floor(), Real::from_int(-1));
    assert_eq!(half(1).floor(), Real::from_int(0));
    let v = Real::nan().abs();
    assert!(v.is_nan(), "Expected nan, but got {:?}", v);
}

#[test]
fn round() {
    assert_eq!(Real::neg_zero().round(), Real::neg_zero());
    assert_eq!(Real::from_int(25).round(), Real::from_int(25));
    assert_eq!(Real::from_int(-25).round(), Real::from_int(-25));
    assert_eq!(half(-1).round(), Real::from_int(-1));
    assert_eq!(half(1).ceil(), Real::from_int(1));
    let v = Real::nan().abs();
    assert!(v.is_nan(), "Expected nan, but got {:?}", v);
}

#[test]
fn trunc() {
    assert_eq!(Real::neg_zero().trunc(), Real::neg_zero());
    assert_eq!(Real::from_int(25).trunc(), Real::from_int(25));
    assert_eq!(Real::from_int(-25).trunc(), Real::from_int(-25));
    assert_eq!(half(-1).trunc(), Real::from_int(0));
    assert_eq!(half(1).trunc(), Real::from_int(0));
    let v = Real::nan().abs();
    assert!(v.is_nan(), "Expected nan, but got {:?}", v);
}

#[test]
fn ordering() {
    assert!(Real::from_int(1).lt(Real::from_int(2)));
    assert!(!Real::from_int(2).lt(Real::from_int(2)));
    assert!(Real::from_int(2).le(Real::from_int(2)));
    assert!(Real::neg_zero().le(Real::zero()));
    assert!(Real::zero().le(Real::neg_zero()));
    assert!(!Real::neg_zero().lt(Real::zero()));
    assert!(Real::neg_infinity().lt(Real::from_int(-1)));
    assert!(Real::from_int(1).lt(Real::infinity()));
    assert!(!Real::nan().lt(Real::from_int(1)));
    assert!(!Real::from_int(1).le(Real::nan()));
}
