//! The decimal big-integer engine: digit arrays, grade-school
//! arithmetic, and the division that runs through binary big integers.

use std::cmp::Ordering;

use toymath::decint::math;
use toymath::decint::math::{BigEndianNormalizedSlice, DecimalArith};
use toymath::decint::DecimalInt;
use toymath::digit::Digit;

#[test]
fn basic_sub() {
    assert_eq!(
        math::sub(&DecimalInt::from_u64(1), &DecimalInt::from_u64(1)),
        DecimalInt::zero()
    )
}

#[test]
fn add_values() {
    assert_eq!(
        math::add(&DecimalInt::from_u64(999), &DecimalInt::from_u64(1)),
        DecimalInt::from_u64(1000)
    );
    assert_eq!(
        math::add(&DecimalInt::from_u64(123456), &DecimalInt::from_u64(654321)),
        DecimalInt::from_u64(777777)
    );
    assert_eq!(
        math::add(&DecimalInt::from_u64(0), &DecimalInt::from_u64(7)),
        DecimalInt::from_u64(7)
    );
}

#[test]
fn sub_values() {
    assert_eq!(
        math::sub(&DecimalInt::from_u64(1000), &DecimalInt::from_u64(1)),
        DecimalInt::from_u64(999)
    );
    assert_eq!(
        math::sub(&DecimalInt::from_u64(100), &DecimalInt::from_u64(1)),
        DecimalInt::from_u64(99)
    );
    let (wrapped, overflowed) =
        math::overflowing_sub(&DecimalInt::from_u64(1), &DecimalInt::from_u64(2));
    assert!(overflowed);
    // One borrow out of a single digit wraps modulo ten.
    assert_eq!(wrapped, DecimalInt::from_u64(9));
}

#[test]
fn mul_values() {
    assert_eq!(
        math::mul(&DecimalInt::from_u64(12), &DecimalInt::from_u64(34)),
        DecimalInt::from_u64(408)
    );
    assert_eq!(
        math::mul(&DecimalInt::from_u64(99), &DecimalInt::from_u64(99)),
        DecimalInt::from_u64(9801)
    );
    assert_eq!(
        math::mul(&DecimalInt::from_u64(0), &DecimalInt::from_u64(7)),
        DecimalInt::zero()
    );
    assert_eq!(
        math::mul(&DecimalInt::from_u64(12345678901234567890), &DecimalInt::from_u64(10)),
        math::add(
            &math::mul(&DecimalInt::from_u64(12345678901234567890), &DecimalInt::from_u64(9)),
            &DecimalInt::from_u64(12345678901234567890)
        )
    );
}

#[test]
fn div_values() {
    assert_eq!(
        math::div(&DecimalInt::from_u64(100), &DecimalInt::from_u64(7)),
        DecimalInt::from_u64(14)
    );
    assert_eq!(
        math::div(&DecimalInt::from_u64(9801), &DecimalInt::from_u64(99)),
        DecimalInt::from_u64(99)
    );
    assert_eq!(
        math::div(&DecimalInt::from_u64(5), &DecimalInt::from_u64(9)),
        DecimalInt::zero()
    );
}

#[test]
fn cmp_values() {
    assert_eq!(
        math::cmp(&DecimalInt::from_u64(12), &DecimalInt::from_u64(34)),
        Ordering::Less
    );
    assert_eq!(
        math::cmp(&DecimalInt::from_u64(34), &DecimalInt::from_u64(12)),
        Ordering::Greater
    );
    assert_eq!(
        math::cmp(&DecimalInt::from_u64(34), &DecimalInt::from_u64(34)),
        Ordering::Equal
    );
    // Trailing zero digits do not change the denoted value.
    let mut padded = DecimalInt::from_u64(34);
    padded.push(Digit::Zero);
    assert_eq!(math::cmp(&padded, &DecimalInt::from_u64(34)), Ordering::Equal);
}

#[test]
fn digit_operands() {
    assert_eq!(
        math::add(&DecimalInt::from_u64(19), &Digit::Three),
        DecimalInt::from_u64(22)
    );
    assert_eq!(math::mul(&Digit::Seven, &Digit::Eight), DecimalInt::from_u64(56));
    let be = [Digit::One, Digit::Two, Digit::Three];
    let slice = BigEndianNormalizedSlice(&be);
    assert_eq!(slice.to_basic(), DecimalInt::from_u64(123));
    assert_eq!(math::add(&slice, &Digit::One), DecimalInt::from_u64(124));
}

#[test]
fn normalization() {
    let mut v = DecimalInt::from_u64(1200);
    assert!(v.is_normalized());
    v.push(Digit::Zero);
    v.push(Digit::Zero);
    assert!(!v.is_normalized());
    assert_eq!(v.normalized_digits().len(), 4);
    v.normalize();
    assert!(v.is_normalized());
    assert_eq!(v.len(), 4);
    assert_eq!(v, DecimalInt::from_u64(1200));
    assert!(DecimalInt::zero().is_zero());
    assert!(!v.is_zero());
}

#[test]
fn shifting() {
    let v = DecimalInt::from_u64(12);
    assert_eq!(v.shifted_decimal_left(3), DecimalInt::from_u64(12000));
    let mut w = DecimalInt::from_u64(7);
    w.shift_decimal_left(1);
    assert_eq!(w, DecimalInt::from_u64(70));
    assert_eq!(w.get(0), Digit::Zero);
    assert_eq!(w.last(), Some(Digit::Seven));
    assert_eq!(w.as_bytes(), vec![0u8, 7u8]);
}

#[test]
fn bigint_roundtrip() {
    let v = DecimalInt::from_u64(98765432109876543);
    let big = v.as_bigint();
    assert_eq!(DecimalInt::from_bigint(&big), v);
    let zero = DecimalInt::zero().as_bigint();
    assert_eq!(DecimalInt::from_bigint(&zero), DecimalInt::zero());
}
