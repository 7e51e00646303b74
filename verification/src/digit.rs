//! A single decimal digit and its modular arithmetic.

use vstd::prelude::*;

verus! {

/// One decimal digit, `0` through `9`.
#[derive(Clone, Copy, Debug, PartialEq, Eq, Structural)]
pub enum Digit {
    Zero,
    One,
    Two,
    Three,
    Four,
    Five,
    Six,
    Seven,
    Eight,
    Nine,
}

/// The number a digit stands for.
pub open spec fn digit_val(d: Digit) -> int {
    match d {
        Digit::Zero => 0,
        Digit::One => 1,
        Digit::Two => 2,
        Digit::Three => 3,
        Digit::Four => 4,
        Digit::Five => 5,
        Digit::Six => 6,
        Digit::Seven => 7,
        Digit::Eight => 8,
        Digit::Nine => 9,
    }
}

/// The digit standing for a number below ten.
pub open spec fn spec_digit(v: int) -> Digit {
    if v == 0 {
        Digit::Zero
    } else if v == 1 {
        Digit::One
    } else if v == 2 {
        Digit::Two
    } else if v == 3 {
        Digit::Three
    } else if v == 4 {
        Digit::Four
    } else if v == 5 {
        Digit::Five
    } else if v == 6 {
        Digit::Six
    } else if v == 7 {
        Digit::Seven
    } else if v == 8 {
        Digit::Eight
    } else {
        Digit::Nine
    }
}

impl Digit {
    /// The digit standing for `digit`; rejects values above nine.
    pub fn new(digit: u8) -> (r: Digit)
        requires
            digit <= 9,
        ensures
            r == spec_digit(digit as int),
            digit_val(r) == digit,
    {
        if digit == 0 {
            Digit::Zero
        } else if digit == 1 {
            Digit::One
        } else if digit == 2 {
            Digit::Two
        } else if digit == 3 {
            Digit::Three
        } else if digit == 4 {
            Digit::Four
        } else if digit == 5 {
            Digit::Five
        } else if digit == 6 {
            Digit::Six
        } else if digit == 7 {
            Digit::Seven
        } else if digit == 8 {
            Digit::Eight
        } else {
            Digit::Nine
        }
    }

    /// The numeric value of the digit.
    pub fn value(self) -> (r: u8)
        ensures
            r == digit_val(self),
            r <= 9,
    {
        match self {
            Digit::Zero => 0,
            Digit::One => 1,
            Digit::Two => 2,
            Digit::Three => 3,
            Digit::Four => 4,
            Digit::Five => 5,
            Digit::Six => 6,
            Digit::Seven => 7,
            Digit::Eight => 8,
            Digit::Nine => 9,
        }
    }

    /// The ASCII character for the digit.
    pub fn to_char(self) -> (r: char)
        ensures
            r as int == '0' as int + digit_val(self),
    {
        (48u8 + self.value()) as char
    }

    /// The digit a decimal ASCII character stands for.
    pub fn from_char(c: char) -> (r: Result<Digit, InvalidDigitErr>)
        ensures
            '0' <= c <= '9' ==> r == Ok::<Digit, InvalidDigitErr>(spec_digit(
                c as int - '0' as int,
            )),
            !('0' <= c <= '9') ==> r == Err::<Digit, InvalidDigitErr>(InvalidDigitErr(c)),
    {
        if c >= '0' && c <= '9' {
            Ok(Digit::new((c as u8) - 48u8))
        } else {
            Err(InvalidDigitErr(c))
        }
    }

    /// Addition modulo ten.
    pub fn wrapping_add(self, rhs: Digit) -> (r: Digit)
        ensures
            digit_val(r) == (digit_val(self) + digit_val(rhs)) % 10,
    {
        Digit::new((self.value() + rhs.value()) % 10)
    }

    /// Subtraction modulo ten.
    pub fn wrapping_sub(self, rhs: Digit) -> (r: Digit)
        ensures
            digit_val(r) == (digit_val(self) - digit_val(rhs)) % 10,
    {
        Digit::new((10 + self.value() - rhs.value()) % 10)
    }

    /// Multiplication modulo ten.
    pub fn wrapping_mul(self, rhs: Digit) -> (r: Digit)
        ensures
            digit_val(r) == (digit_val(self) * digit_val(rhs)) % 10,
    {
        self.overflowing_mul(rhs).0
    }

    /// Addition modulo ten, together with whether the sum wrapped.
    pub fn overflowing_add(self, rhs: Digit) -> (r: (Digit, bool))
        ensures
            digit_val(r.0) == (digit_val(self) + digit_val(rhs)) % 10,
            r.1 == (digit_val(self) + digit_val(rhs) >= 10),
    {
        let value = self.wrapping_add(rhs);
        (value, self.value() + rhs.value() >= 10)
    }

    /// Subtraction modulo ten, together with whether it borrowed.
    pub fn overflowing_sub(self, rhs: Digit) -> (r: (Digit, bool))
        ensures
            digit_val(r.0) == (digit_val(self) - digit_val(rhs)) % 10,
            r.1 == (digit_val(self) < digit_val(rhs)),
    {
        let value = self.wrapping_sub(rhs);
        (value, self.value() < rhs.value())
    }

    /// Multiplication modulo ten, together with whether the product wrapped.
    pub fn overflowing_mul(self, rhs: Digit) -> (r: (Digit, bool))
        ensures
            digit_val(r.0) == (digit_val(self) * digit_val(rhs)) % 10,
            r.1 == (digit_val(self) * digit_val(rhs) >= 10),
    {
        let value = self.value() * rhs.value();
        let wrapped = value % 10;
        (Digit::new(wrapped), wrapped != value)
    }

    /// Addition that fails instead of wrapping.
    pub fn checked_add(self, rhs: Digit) -> (r: Option<Digit>)
        ensures
            digit_val(self) + digit_val(rhs) <= 9 ==> r == Some(spec_digit(
                digit_val(self) + digit_val(rhs),
            )),
            digit_val(self) + digit_val(rhs) > 9 ==> r is None,
    {
        let (digit, overflowed) = self.overflowing_add(rhs);
        if overflowed {
            None
        } else {
            Some(digit)
        }
    }

    /// Subtraction that fails instead of wrapping.
    pub fn checked_sub(self, rhs: Digit) -> (r: Option<Digit>)
        ensures
            digit_val(self) >= digit_val(rhs) ==> r == Some(spec_digit(
                digit_val(self) - digit_val(rhs),
            )),
            digit_val(self) < digit_val(rhs) ==> r is None,
    {
        let (digit, overflowed) = self.overflowing_sub(rhs);
        if overflowed {
            None
        } else {
            Some(digit)
        }
    }

    /// Multiplication that fails instead of wrapping.
    pub fn checked_mul(self, rhs: Digit) -> (r: Option<Digit>)
        ensures
            digit_val(self) * digit_val(rhs) <= 9 ==> r == Some(spec_digit(
                digit_val(self) * digit_val(rhs),
            )),
            digit_val(self) * digit_val(rhs) > 9 ==> r is None,
    {
        let (digit, overflowed) = self.overflowing_mul(rhs);
        if overflowed {
            None
        } else {
            Some(digit)
        }
    }
}

/// Every digit's value lies between zero and nine.
pub proof fn lemma_digit_bound(d: Digit)
    ensures
        0 <= digit_val(d) <= 9,
{
}

/// The character that failed to parse as a decimal digit.
#[derive(Clone, Copy, Debug, PartialEq, Eq, Structural)]
pub struct InvalidDigitErr(pub char);

} // verus!
