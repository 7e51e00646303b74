//! The small value types: fixed-point numbers, digits, the extended
//! representation's raw bytes, and scientific decimals.

use toymath::decimal::Decimal;
use toymath::decint::math;
use toymath::decint::{DecimalInt, DecimalIntParseError};
use toymath::digit::{Digit, InvalidDigitErr};
use toymath::extended::{check_literal_bytes, ExtendedFloat, ExtendedFloatParseError};
use toymath::fixed::{Fixed, SCALE};
use toymath::utils::NearlyEquals;

#[test]
fn fixed_arithmetic() {
    let a = Fixed::from_units(1_500_000_000_000);
    let b = Fixed::from_int(2);
    assert_eq!(a.mul(b).v, 3_000_000_000_000);
    assert_eq!(a.div(b).v, 750_000_000_000);
    assert_eq!(a.add(b).v, 3_500_000_000_000);
    assert_eq!(a.sub(b).v, -500_000_000_000);
    assert_eq!(a.neg().v, -1_500_000_000_000);
    assert_eq!(a.abs().v, 1_500_000_000_000);
    assert_eq!(Fixed::from_int(-3).abs().v, 3 * SCALE);
    assert!(Fixed::from_int(-3).is_sign_negative());
    assert!(Fixed::zero().le(a));
    assert!(b.lt(a) == false);
}

#[test]
fn fixed_sqrt() {
    assert_eq!(Fixed::from_int(25).sqrt().v, 5 * SCALE);
    // The truncated root of two at twelve digits.
    assert_eq!(Fixed::from_int(2).sqrt().v, 1_414_213_562_373);
}

#[test]
fn nearly_equals_threshold() {
    let a = Fixed::from_units(1_000_000);
    let b = Fixed::from_units(1_000_900);
    assert!(a.nearly_equals(b, Fixed::from_units(1_000)));
    assert!(!a.nearly_equals(b, Fixed::from_units(100)));
}

#[test]
fn digit_values() {
    assert_eq!(Digit::new(7), Digit::Seven);
    assert_eq!(Digit::Seven.value(), 7);
    assert_eq!(Digit::from_char('3'), Ok(Digit::Three));
    assert_eq!(Digit::from_char('x'), Err(InvalidDigitErr('x')));
    assert_eq!(Digit::Nine.to_char(), '9');
    assert_eq!(Digit::Seven.wrapping_add(Digit::Five), Digit::Two);
    assert_eq!(Digit::Two.wrapping_sub(Digit::Five), Digit::Seven);
    assert_eq!(Digit::Seven.wrapping_mul(Digit::Five), Digit::Five);
    assert_eq!(Digit::Seven.overflowing_add(Digit::Five), (Digit::Two, true));
    assert_eq!(Digit::Seven.overflowing_sub(Digit::Five), (Digit::Two, false));
    assert_eq!(Digit::Seven.overflowing_mul(Digit::Five), (Digit::Five, true));
    assert_eq!(Digit::Four.checked_add(Digit::Five), Some(Digit::Nine));
    assert_eq!(Digit::Seven.checked_add(Digit::Five), None);
    assert_eq!(Digit::Seven.checked_sub(Digit::Five), Some(Digit::Two));
    assert_eq!(Digit::Two.checked_sub(Digit::Five), None);
    assert_eq!(Digit::Three.checked_mul(Digit::Three), Some(Digit::Nine));
    assert_eq!(Digit::Seven.checked_mul(Digit::Five), None);
}

#[test]
fn extended_bits() {
    let bits: [u8; 10] = [0, 1, 2, 3, 4, 5, 6, 7, 8, 9];
    let v = ExtendedFloat::from_bits(bits);
    assert_eq!(v.to_bits(), bits);
    assert_eq!(v, ExtendedFloat(bits));
    assert_ne!(v, ExtendedFloat([0u8; 10]));
}

#[test]
fn extended_literal_checks() {
    assert_eq!(
        check_literal_bytes(&Vec::new()),
        Err(ExtendedFloatParseError::Empty)
    );
    assert_eq!(
        check_literal_bytes(&vec![32u8, 49u8]),
        Err(ExtendedFloatParseError::LeadingWhitespace(' '))
    );
    assert_eq!(
        check_literal_bytes(&vec![49u8, 0u8]),
        Err(ExtendedFloatParseError::NullByte)
    );
    assert_eq!(check_literal_bytes(&vec![49u8, 46u8, 53u8]), Ok(()));
}

#[test]
fn decimal_construction() {
    // 12.3 stored in scientific notation: 1.23 at the first power of ten.
    let d = Decimal::from_raw_decimal(false, 0, &[Digit::One, Digit::Two, Digit::Three], 2);
    assert_eq!(d.leading, Digit::One);
    assert_eq!(d.magnitude, vec![Digit::Two, Digit::Three]);
    assert_eq!(d.exponent, 1);
    assert!(!d.sign);
    // Trailing zeros of the fraction fold away.
    let t = Decimal::from_raw_decimal(true, 0, &[Digit::Five, Digit::Zero], 2);
    assert_eq!(t.leading, Digit::Five);
    assert!(t.magnitude.is_empty());
    assert_eq!(t.exponent, 1);
    assert!(t.sign);
    // An all-zero string is the one canonical zero.
    let z = Decimal::from_raw_decimal(true, 7, &[Digit::Zero, Digit::Zero], 1);
    assert!(z.is_zero());
    assert!(!z.sign);
}

#[test]
fn decimal_mul_add() {
    // 1.2 * 0.4 = 0.48, in scientific notation 4.8 at a tenth.
    let a = Decimal::from_raw_decimal(false, 0, &[Digit::One, Digit::Two], 1);
    let b = Decimal::from_raw_decimal(false, -1, &[Digit::Four], 1);
    let p = a.mul(&b);
    assert_eq!(p.leading, Digit::Four);
    assert_eq!(p.magnitude, vec![Digit::Eight]);
    assert_eq!(p.exponent, -1);
    assert!(!p.sign);
    // |1.2| + |0.4| = 1.6.
    let s = a.add_unsigned(&b);
    assert_eq!(s.leading, Digit::One);
    assert_eq!(s.magnitude, vec![Digit::Six]);
    assert_eq!(s.exponent, 0);
    // Multiplying by zero gives the canonical zero.
    assert!(a.mul(&Decimal::zero()).is_zero());
}

#[test]
fn decint_parsing() {
    let v = DecimalInt::from_str("321").unwrap();
    assert_eq!(v, DecimalInt::from_u64(321));
    assert_eq!(
        DecimalInt::from_str(""),
        Err(DecimalIntParseError::EmptyStr)
    );
    assert_eq!(
        DecimalInt::from_str("12x3"),
        Err(DecimalIntParseError::InvalidDigit(InvalidDigitErr('x')))
    );
    // Leading zeros in the text trim to the same value.
    assert_eq!(
        math::cmp(&DecimalInt::from_str("000321").unwrap(), &v),
        std::cmp::Ordering::Equal
    );
}

#[test]
fn decimal_basics() {
    let d = Decimal::from_digit(Digit::Seven);
    assert!(!d.is_zero());
    assert!(Decimal::zero().is_zero());
    assert_eq!(Decimal::zero().leading, Digit::Zero);
    assert_eq!(d.leading, Digit::Seven);
    assert_eq!(d.exponent, 0);
    assert!(d.magnitude.is_empty());
}
