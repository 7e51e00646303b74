//! The backend value type of the evaluator's public boundary: a finite
//! fixed-point number, a signed zero, a quiet not-a-number, or a signed
//! infinity, with arithmetic that follows the usual floating-point
//! conventions exactly as stated by each operation's spec function.
//!
//! Undefined inputs are never an error: they propagate as `Nan`, and the
//! evaluator turns any non-finite argument into `Nan` outputs.

use vstd::prelude::*;

use crate::fixed::{abs_int, spec_div_units, spec_mul_units, Fixed, SCALE};
use crate::trig::{spec_sin_cos, TrigEvaluator};

verus! {

/// A real value at the evaluator's boundary.
#[derive(Clone, Copy, Debug)]
pub enum Real {
    /// A finite value; `Finite` of zero is the positive zero.
    Finite(Fixed),
    /// The negative zero.
    NegZero,
    /// Not a number.
    Nan,
    /// Positive infinity.
    Inf,
    /// Negative infinity.
    NegInf,
}

/// Whether the value is finite (a number or either zero).
pub open spec fn is_finite(r: Real) -> bool {
    r is Finite || r is NegZero
}

/// The units of a finite value; zero for either zero.
pub open spec fn finite_units(r: Real) -> int {
    match r {
        Real::Finite(f) => f.v as int,
        _ => 0,
    }
}

/// Whether the sign bit is set: negative numbers, the negative zero and
/// the negative infinity.
pub open spec fn sign_bit(r: Real) -> bool {
    match r {
        Real::Finite(f) => f.v < 0,
        Real::NegZero => true,
        Real::Nan => false,
        Real::Inf => false,
        Real::NegInf => true,
    }
}

/// A zero of either sign.
pub open spec fn is_zero_value(r: Real) -> bool {
    r == Real::Finite(Fixed { v: 0i64 }) || r is NegZero
}

/// The finite value with `u` units, kept inside the representable range
/// by overflowing to the matching infinity.
pub open spec fn finite_or_overflow(u: int) -> Real {
    if u > i64::MAX {
        Real::Inf
    } else if u < i64::MIN {
        Real::NegInf
    } else {
        Real::Finite(Fixed { v: u as i64 })
    }
}

/// A zero whose sign is `neg`.
pub open spec fn signed_zero(neg: bool) -> Real {
    if neg {
        Real::NegZero
    } else {
        Real::Finite(Fixed { v: 0i64 })
    }
}

/// The negation: zeros and infinities swap sign, `Nan` stays.
pub open spec fn spec_real_neg(a: Real) -> Real {
    match a {
        Real::Finite(f) => if f.v == 0 {
            Real::NegZero
        } else if f.v == i64::MIN {
            Real::Inf
        } else {
            Real::Finite(Fixed { v: (-f.v) as i64 })
        },
        Real::NegZero => Real::Finite(Fixed { v: 0i64 }),
        Real::Nan => Real::Nan,
        Real::Inf => Real::NegInf,
        Real::NegInf => Real::Inf,
    }
}

/// The sum: `Nan` propagates, opposite infinities are undefined, equal
/// zeros keep their sign, and a finite sum overflows to infinity.
pub open spec fn spec_real_add(a: Real, b: Real) -> Real {
    match (a, b) {
        (Real::Nan, _) => Real::Nan,
        (_, Real::Nan) => Real::Nan,
        (Real::Inf, Real::NegInf) => Real::Nan,
        (Real::NegInf, Real::Inf) => Real::Nan,
        (Real::Inf, _) => Real::Inf,
        (_, Real::Inf) => Real::Inf,
        (Real::NegInf, _) => Real::NegInf,
        (_, Real::NegInf) => Real::NegInf,
        (Real::NegZero, Real::NegZero) => Real::NegZero,
        (Real::NegZero, Real::Finite(g)) => Real::Finite(g),
        (Real::Finite(f), Real::NegZero) => Real::Finite(f),
        (Real::Finite(f), Real::Finite(g)) => finite_or_overflow(f.v + g.v),
    }
}

/// The difference, as the sum with the negation.
pub open spec fn spec_real_sub(a: Real, b: Real) -> Real {
    spec_real_add(a, spec_real_neg(b))
}

/// The product: `Nan` propagates, infinity times zero is undefined, the
/// sign is the exclusive or of the signs, and a zero product keeps that
/// sign.
pub open spec fn spec_real_mul(a: Real, b: Real) -> Real {
    let neg = sign_bit(a) != sign_bit(b);
    if a is Nan || b is Nan {
        Real::Nan
    } else if (a is Inf || a is NegInf) && is_zero_value(b) {
        Real::Nan
    } else if (b is Inf || b is NegInf) && is_zero_value(a) {
        Real::Nan
    } else if a is Inf || a is NegInf || b is Inf || b is NegInf {
        if neg {
            Real::NegInf
        } else {
            Real::Inf
        }
    } else {
        let p = spec_mul_units(finite_units(a), finite_units(b));
        if p == 0 {
            signed_zero(neg)
        } else {
            finite_or_overflow(p)
        }
    }
}

/// The quotient: `Nan` propagates, zero by zero and infinity by
/// infinity are undefined, a nonzero number by a zero is a signed
/// infinity, and a number by an infinity is a signed zero.
pub open spec fn spec_real_div(a: Real, b: Real) -> Real {
    let neg = sign_bit(a) != sign_bit(b);
    if a is Nan || b is Nan {
        Real::Nan
    } else if (a is Inf || a is NegInf) && (b is Inf || b is NegInf) {
        Real::Nan
    } else if is_zero_value(a) && is_zero_value(b) {
        Real::Nan
    } else if a is Inf || a is NegInf {
        if neg {
            Real::NegInf
        } else {
            Real::Inf
        }
    } else if b is Inf || b is NegInf {
        signed_zero(neg)
    } else if is_zero_value(b) {
        if neg {
            Real::NegInf
        } else {
            Real::Inf
        }
    } else {
        let q = spec_div_units(finite_units(a), finite_units(b));
        if q == 0 {
            signed_zero(neg)
        } else {
            finite_or_overflow(q)
        }
    }
}

/// A non-negative remainder never exceeds what it was taken from.
proof fn lemma_rem_le(x: int, m: int)
    requires
        x >= 0,
        m > 0,
    ensures
        0 <= x % m <= x,
{
    vstd::arithmetic::div_mod::lemma_mod_bound(x, m);
    if x < m {
        vstd::arithmetic::div_mod::lemma_small_mod(x as nat, m as nat);
    }
}

/// The magnitude rounded down to a whole number of units of one.
pub open spec fn round_down_mag(u: int) -> int {
    u - u % (SCALE as int)
}

/// Truncation toward zero to a whole number, keeping the sign on a zero
/// result.
pub open spec fn spec_real_trunc(a: Real) -> Real {
    match a {
        Real::Finite(f) => {
            let r = round_down_mag(abs_int(f.v as int));
            if r == 0 {
                signed_zero(f.v < 0)
            } else if f.v < 0 {
                Real::Finite(Fixed { v: (-r) as i64 })
            } else {
                Real::Finite(Fixed { v: r as i64 })
            }
        },
        _ => a,
    }
}

/// The greatest whole number not above the value.
pub open spec fn spec_real_floor(a: Real) -> Real {
    match a {
        Real::Finite(f) => if f.v >= 0 {
            Real::Finite(Fixed { v: round_down_mag(f.v as int) as i64 })
        } else {
            let mag = abs_int(f.v as int);
            if mag % (SCALE as int) == 0 {
                Real::Finite(f)
            } else {
                finite_or_overflow(-(round_down_mag(mag) + SCALE))
            }
        },
        _ => a,
    }
}

/// The least whole number not below the value, keeping the sign on a
/// zero result.
pub open spec fn spec_real_ceil(a: Real) -> Real {
    match a {
        Real::Finite(f) => if f.v >= 0 {
            if f.v as int % (SCALE as int) == 0 {
                Real::Finite(f)
            } else {
                finite_or_overflow(round_down_mag(f.v as int) + SCALE)
            }
        } else {
            let r = round_down_mag(abs_int(f.v as int));
            if r == 0 {
                Real::NegZero
            } else {
                Real::Finite(Fixed { v: (-r) as i64 })
            }
        },
        _ => a,
    }
}

/// The nearest whole number, halves away from zero, keeping the sign on
/// a zero result.
pub open spec fn spec_real_round(a: Real) -> Real {
    match a {
        Real::Finite(f) => {
            let r = round_down_mag(abs_int(f.v as int) + (SCALE as int) / 2);
            if r == 0 {
                signed_zero(f.v < 0)
            } else if f.v < 0 {
                finite_or_overflow(-r)
            } else {
                finite_or_overflow(r)
            }
        },
        _ => a,
    }
}

/// Whether `a` stands strictly below `b` in the partial order: `Nan`
/// compares below nothing, the negative infinity below everything else,
/// everything finite below the positive infinity, and finite values by
/// their units with the two zeros equal.
pub open spec fn spec_real_lt(a: Real, b: Real) -> bool {
    if a is Nan || b is Nan {
        false
    } else if a is NegInf {
        !(b is NegInf)
    } else if b is NegInf {
        false
    } else if b is Inf {
        !(a is Inf)
    } else if a is Inf {
        false
    } else {
        finite_units(a) < finite_units(b)
    }
}

/// Whether two values are numerically equal: `Nan` equals nothing, the
/// two zeros are equal, and everything else goes by its value.
pub open spec fn spec_real_eq(a: Real, b: Real) -> bool {
    if a is Nan || b is Nan {
        false
    } else if is_finite(a) && is_finite(b) {
        finite_units(a) == finite_units(b)
    } else {
        a == b
    }
}

impl Real {
    /// The finite value with exactly `units` units.
    pub fn from_units(units: i64) -> (r: Real)
        ensures
            r == Real::Finite(Fixed { v: units }),
    {
        Real::Finite(Fixed { v: units })
    }

    /// The finite value denoting the integer `i`.
    pub fn from_int(i: i64) -> (r: Real)
        requires
            i64::MIN <= i * SCALE <= i64::MAX,
        ensures
            r == Real::Finite(Fixed { v: (i * SCALE) as i64 }),
    {
        Real::Finite(Fixed::from_int(i))
    }

    /// The positive zero.
    pub fn zero() -> (r: Real)
        ensures
            r == Real::Finite(Fixed { v: 0i64 }),
    {
        Real::Finite(Fixed { v: 0 })
    }

    /// The negative zero.
    pub fn neg_zero() -> (r: Real)
        ensures
            r == Real::NegZero,
    {
        Real::NegZero
    }

    /// The quiet not-a-number.
    pub fn nan() -> (r: Real)
        ensures
            r == Real::Nan,
    {
        Real::Nan
    }

    /// The positive infinity.
    pub fn infinity() -> (r: Real)
        ensures
            r == Real::Inf,
    {
        Real::Inf
    }

    /// The negative infinity.
    pub fn neg_infinity() -> (r: Real)
        ensures
            r == Real::NegInf,
    {
        Real::NegInf
    }

    /// Whether the value is not a number.
    pub fn is_nan(&self) -> (r: bool)
        ensures
            r == (*self is Nan),
    {
        matches!(self, Real::Nan)
    }

    /// Whether the value is finite.
    pub fn is_finite(&self) -> (r: bool)
        ensures
            r == is_finite(*self),
    {
        matches!(self, Real::Finite(_) | Real::NegZero)
    }

    /// Whether the sign bit is set.
    pub fn is_sign_negative(&self) -> (r: bool)
        ensures
            r == sign_bit(*self),
    {
        match self {
            Real::Finite(f) => f.v < 0,
            Real::NegZero => true,
            Real::Nan => false,
            Real::Inf => false,
            Real::NegInf => true,
        }
    }

    /// The negation.
    pub fn neg(self) -> (r: Real)
        ensures
            r == spec_real_neg(self),
    {
        match self {
            Real::Finite(f) => if f.v == 0 {
                Real::NegZero
            } else if f.v == i64::MIN {
                Real::Inf
            } else {
                Real::Finite(Fixed { v: -f.v })
            },
            Real::NegZero => Real::Finite(Fixed { v: 0 }),
            Real::Nan => Real::Nan,
            Real::Inf => Real::NegInf,
            Real::NegInf => Real::Inf,
        }
    }

    /// The absolute value.
    pub fn abs(self) -> (r: Real)
        ensures
            self.is_sign_negative_spec() ==> r == spec_real_neg(self),
            !self.is_sign_negative_spec() ==> r == self,
    {
        if self.is_sign_negative() {
            self.neg()
        } else {
            self
        }
    }

    /// Whether the sign bit is set, for contracts.
    pub open spec fn is_sign_negative_spec(self) -> bool {
        sign_bit(self)
    }

    /// The sum.
    pub fn add(self, rhs: Real) -> (r: Real)
        ensures
            r == spec_real_add(self, rhs),
    {
        match (self, rhs) {
            (Real::Nan, _) => Real::Nan,
            (_, Real::Nan) => Real::Nan,
            (Real::Inf, Real::NegInf) => Real::Nan,
            (Real::NegInf, Real::Inf) => Real::Nan,
            (Real::Inf, _) => Real::Inf,
            (_, Real::Inf) => Real::Inf,
            (Real::NegInf, _) => Real::NegInf,
            (_, Real::NegInf) => Real::NegInf,
            (Real::NegZero, Real::NegZero) => Real::NegZero,
            (Real::NegZero, Real::Finite(g)) => Real::Finite(g),
            (Real::Finite(f), Real::NegZero) => Real::Finite(f),
            (Real::Finite(f), Real::Finite(g)) => {
                let s: i128 = f.v as i128 + g.v as i128;
                if s > i64::MAX as i128 {
                    Real::Inf
                } else if s < i64::MIN as i128 {
                    Real::NegInf
                } else {
                    Real::Finite(Fixed { v: s as i64 })
                }
            },
        }
    }

    /// The difference.
    pub fn sub(self, rhs: Real) -> (r: Real)
        ensures
            r == spec_real_sub(self, rhs),
    {
        self.add(rhs.neg())
    }

    /// The product, truncated toward zero at the scale.
    pub fn mul(self, rhs: Real) -> (r: Real)
        ensures
            r == spec_real_mul(self, rhs),
    {
        let neg = self.is_sign_negative() != rhs.is_sign_negative();
        match (self, rhs) {
            (Real::Nan, _) => Real::Nan,
            (_, Real::Nan) => Real::Nan,
            (Real::Inf, b) | (Real::NegInf, b) => {
                if b.is_zero() {
                    Real::Nan
                } else if neg {
                    Real::NegInf
                } else {
                    Real::Inf
                }
            },
            (a, Real::Inf) | (a, Real::NegInf) => {
                if a.is_zero() {
                    Real::Nan
                } else if neg {
                    Real::NegInf
                } else {
                    Real::Inf
                }
            },
            (a, b) => {
                let am: u64 = a.magnitude_units();
                let bm: u64 = b.magnitude_units();
                proof {
                    lemma_magnitude_product(
                        finite_units(self),
                        finite_units(rhs),
                        am as int,
                        bm as int,
                    );
                }
                let p: u128 = (am as u128) * (bm as u128);
                let q: u128 = p / (SCALE as u128);
                if q == 0 {
                    if neg {
                        Real::NegZero
                    } else {
                        Real::Finite(Fixed { v: 0 })
                    }
                } else if neg {
                    if q <= i64::MAX as u128 {
                        Real::Finite(Fixed { v: -(q as i64) })
                    } else if q == i64::MAX as u128 + 1 {
                        Real::Finite(Fixed { v: i64::MIN })
                    } else {
                        Real::NegInf
                    }
                } else {
                    if q <= i64::MAX as u128 {
                        Real::Finite(Fixed { v: q as i64 })
                    } else {
                        Real::Inf
                    }
                }
            },
        }
    }

    /// The quotient, truncated toward zero at the scale.
    pub fn div(self, rhs: Real) -> (r: Real)
        ensures
            r == spec_real_div(self, rhs),
    {
        let neg = self.is_sign_negative() != rhs.is_sign_negative();
        match (self, rhs) {
            (Real::Nan, _) => Real::Nan,
            (_, Real::Nan) => Real::Nan,
            (Real::Inf, Real::Inf) => Real::Nan,
            (Real::Inf, Real::NegInf) => Real::Nan,
            (Real::NegInf, Real::Inf) => Real::Nan,
            (Real::NegInf, Real::NegInf) => Real::Nan,
            (Real::Inf, _) | (Real::NegInf, _) => {
                if neg {
                    Real::NegInf
                } else {
                    Real::Inf
                }
            },
            (_, Real::Inf) | (_, Real::NegInf) => {
                if neg {
                    Real::NegZero
                } else {
                    Real::Finite(Fixed { v: 0 })
                }
            },
            (a, b) => {
                if b.is_zero() {
                    if a.is_zero() {
                        Real::Nan
                    } else if neg {
                        Real::NegInf
                    } else {
                        Real::Inf
                    }
                } else {
                    let am: u64 = a.magnitude_units();
                    let bm: u64 = b.magnitude_units();
                    proof {
                        lemma_magnitude_quotient(
                            finite_units(self),
                            finite_units(rhs),
                            am as int,
                            bm as int,
                        );
                    }
                    let p: u128 = (am as u128) * (SCALE as u128);
                    let q: u128 = p / (bm as u128);
                    if q == 0 {
                        if neg {
                            Real::NegZero
                        } else {
                            Real::Finite(Fixed { v: 0 })
                        }
                    } else if neg {
                        if q <= i64::MAX as u128 {
                            Real::Finite(Fixed { v: -(q as i64) })
                        } else if q == i64::MAX as u128 + 1 {
                            Real::Finite(Fixed { v: i64::MIN })
                        } else {
                            Real::NegInf
                        }
                    } else {
                        if q <= i64::MAX as u128 {
                            Real::Finite(Fixed { v: q as i64 })
                        } else {
                            Real::Inf
                        }
                    }
                }
            },
        }
    }

    /// The square root: negative values are undefined, the zeros and the
    /// positive infinity return themselves, and a positive value gets the
    /// greatest representable root whose square does not exceed it.
    pub fn sqrt(self) -> (r: Real)
        ensures
            self is Nan ==> r is Nan,
            self is NegInf ==> r is Nan,
            self is Inf ==> r is Inf,
            self is NegZero ==> r is NegZero,
            self is Finite && finite_units(self) < 0 ==> r is Nan,
            self is Finite && finite_units(self) >= 0 ==> r is Finite && finite_units(r) >= 0
                && finite_units(r) * finite_units(r) <= finite_units(self) * (SCALE as int)
                < (finite_units(r) + 1) * (finite_units(r) + 1),
    {
        match self {
            Real::Nan => Real::Nan,
            Real::NegInf => Real::Nan,
            Real::Inf => Real::Inf,
            Real::NegZero => Real::NegZero,
            Real::Finite(f) => if f.v < 0 {
                Real::Nan
            } else {
                Real::Finite(f.sqrt())
            },
        }
    }

    /// Truncate toward zero to a whole number.
    pub fn trunc(self) -> (r: Real)
        ensures
            r == spec_real_trunc(self),
    {
        match self {
            Real::Finite(f) => {
                let mag: u64 = self.magnitude_units();
                proof {
                    lemma_rem_le(mag as int, SCALE as int);
                }
                let r: u64 = mag - mag % (SCALE as u64);
                if r == 0 {
                    if f.v < 0 {
                        Real::NegZero
                    } else {
                        Real::Finite(Fixed { v: 0 })
                    }
                } else if f.v < 0 {
                    Real::Finite(Fixed { v: -(r as i64) })
                } else {
                    Real::Finite(Fixed { v: r as i64 })
                }
            },
            _ => self,
        }
    }

    /// The greatest whole number not above the value.
    pub fn floor(self) -> (r: Real)
        ensures
            r == spec_real_floor(self),
    {
        match self {
            Real::Finite(f) => if f.v >= 0 {
                Real::Finite(Fixed { v: f.v - f.v % SCALE })
            } else {
                let mag: u64 = self.magnitude_units();
                let rem: u64 = mag % (SCALE as u64);
                if rem == 0 {
                    Real::Finite(f)
                } else {
                    proof {
                        assert(mag <= 9_223_372_036_854_775_808u64);
                        lemma_rem_le(mag as int, SCALE as int);
                    }
                    let down: u64 = mag - rem + (SCALE as u64);
                    if down > i64::MAX as u64 {
                        Real::NegInf
                    } else {
                        Real::Finite(Fixed { v: -(down as i64) })
                    }
                }
            },
            _ => self,
        }
    }

    /// The least whole number not below the value.
    pub fn ceil(self) -> (r: Real)
        ensures
            r == spec_real_ceil(self),
    {
        match self {
            Real::Finite(f) => if f.v >= 0 {
                let rem: i64 = f.v % SCALE;
                if rem == 0 {
                    Real::Finite(f)
                } else if f.v - rem > i64::MAX - SCALE {
                    Real::Inf
                } else {
                    Real::Finite(Fixed { v: f.v - rem + SCALE })
                }
            } else {
                let mag: u64 = self.magnitude_units();
                proof {
                    lemma_rem_le(mag as int, SCALE as int);
                }
                let r: u64 = mag - mag % (SCALE as u64);
                if r == 0 {
                    Real::NegZero
                } else {
                    Real::Finite(Fixed { v: -(r as i64) })
                }
            },
            _ => self,
        }
    }

    /// The nearest whole number, halves away from zero.
    pub fn round(self) -> (r: Real)
        ensures
            r == spec_real_round(self),
    {
        match self {
            Real::Finite(f) => {
                let mag: u64 = self.magnitude_units();
                proof {
                    assert(mag <= 9_223_372_036_854_775_808u64);
                }
                let lifted: u64 = mag + (SCALE as u64) / 2;
                proof {
                    lemma_rem_le(lifted as int, SCALE as int);
                }
                let r: u64 = lifted - lifted % (SCALE as u64);
                if r == 0 {
                    if f.v < 0 {
                        Real::NegZero
                    } else {
                        Real::Finite(Fixed { v: 0 })
                    }
                } else if r > i64::MAX as u64 {
                    if f.v < 0 {
                        Real::NegInf
                    } else {
                        Real::Inf
                    }
                } else if f.v < 0 {
                    Real::Finite(Fixed { v: -(r as i64) })
                } else {
                    Real::Finite(Fixed { v: r as i64 })
                }
            },
            _ => self,
        }
    }

    /// Whether the value stands strictly below `rhs`.
    pub fn lt(self, rhs: Real) -> (r: bool)
        ensures
            r == spec_real_lt(self, rhs),
    {
        match (self, rhs) {
            (Real::Nan, _) => false,
            (_, Real::Nan) => false,
            (Real::NegInf, Real::NegInf) => false,
            (Real::NegInf, _) => true,
            (_, Real::NegInf) => false,
            (Real::Inf, _) => false,
            (_, Real::Inf) => true,
            (a, b) => a.units_or_zero() < b.units_or_zero(),
        }
    }

    /// Whether the value stands at or below `rhs`.
    pub fn le(self, rhs: Real) -> (r: bool)
        ensures
            r == (spec_real_lt(self, rhs) || spec_real_eq(self, rhs)),
    {
        match (self, rhs) {
            (Real::Nan, _) => false,
            (_, Real::Nan) => false,
            (Real::NegInf, _) => true,
            (_, Real::NegInf) => false,
            (_, Real::Inf) => true,
            (Real::Inf, _) => false,
            (a, b) => a.units_or_zero() <= b.units_or_zero(),
        }
    }

    /// The units of a finite value, with either zero read as zero.
    fn units_or_zero(&self) -> (r: i64)
        requires
            is_finite(*self),
        ensures
            r == finite_units(*self),
    {
        match self {
            Real::Finite(f) => f.v,
            _ => 0,
        }
    }

    /// Whether the value is a zero of either sign.
    pub fn is_zero(&self) -> (r: bool)
        ensures
            r == is_zero_value(*self),
    {
        match self {
            Real::Finite(f) => f.v == 0,
            Real::NegZero => true,
            _ => false,
        }
    }

    /// The magnitude of a finite value in units; zero otherwise.
    fn magnitude_units(&self) -> (r: u64)
        ensures
            r == abs_int(finite_units(*self)),
    {
        match self {
            Real::Finite(f) => if f.v < 0 {
                (-(f.v + 1)) as u64 + 1
            } else {
                f.v as u64
            },
            _ => 0,
        }
    }
}

/// The product of the magnitudes, truncated at the scale, is the
/// magnitude of the truncated scaled product.
proof fn lemma_magnitude_product(a: int, b: int, am: int, bm: int)
    requires
        i64::MIN <= a <= i64::MAX,
        i64::MIN <= b <= i64::MAX,
        am == abs_int(a),
        bm == abs_int(b),
    ensures
        (am * bm) / (SCALE as int) == abs_int(spec_mul_units(a, b)),
        am * bm <= u64::MAX as int * (u64::MAX as int),
        spec_mul_units(a, b) == if (a >= 0) == (b >= 0) {
            (am * bm) / (SCALE as int)
        } else {
            -((am * bm) / (SCALE as int))
        },
{
    assert(abs_int(a * b) == abs_int(a) * abs_int(b)) by (nonlinear_arith);
    assert(am * bm <= u64::MAX as int * (u64::MAX as int)) by (nonlinear_arith)
        requires
            0 <= am <= u64::MAX,
            0 <= bm <= u64::MAX,
    ;
    assert((am * bm) / (SCALE as int) >= 0) by (nonlinear_arith)
        requires
            am * bm >= 0,
    ;
    assert(a * b >= 0 <==> (a >= 0 && b >= 0) || (a <= 0 && b <= 0)) by (nonlinear_arith);
    if a * b >= 0 {
        if a * b == 0 {
            assert(abs_int(a) * abs_int(b) == 0);
        }
    }
}

/// The scaled magnitude quotient is the magnitude of the truncated
/// scaled quotient.
proof fn lemma_magnitude_quotient(a: int, b: int, am: int, bm: int)
    requires
        i64::MIN <= a <= i64::MAX,
        i64::MIN <= b <= i64::MAX,
        am == abs_int(a),
        bm == abs_int(b),
        bm > 0,
    ensures
        (am * (SCALE as int)) / bm == abs_int(spec_div_units(a, b)),
        am * (SCALE as int) <= u64::MAX as int * (SCALE as int),
        spec_div_units(a, b) == if (a >= 0) == (b >= 0) {
            (am * (SCALE as int)) / bm
        } else {
            -((am * (SCALE as int)) / bm)
        },
{
    assert(am * (SCALE as int) <= u64::MAX as int * (SCALE as int)) by (nonlinear_arith)
        requires
            0 <= am <= u64::MAX,
    ;
    assert((am * (SCALE as int)) / bm >= 0) by (nonlinear_arith)
        requires
            am * (SCALE as int) >= 0,
            bm > 0,
    ;
}

impl PartialEq for Real {
    /// Numeric equality: `Nan` equals nothing, the zeros are equal.
    fn eq(&self, other: &Real) -> (r: bool) {
        match (self, other) {
            (Real::Nan, _) => false,
            (_, Real::Nan) => false,
            (Real::Inf, Real::Inf) => true,
            (Real::NegInf, Real::NegInf) => true,
            (Real::Finite(f), Real::Finite(g)) => f.v == g.v,
            (Real::Finite(f), Real::NegZero) => f.v == 0,
            (Real::NegZero, Real::Finite(g)) => g.v == 0,
            (Real::NegZero, Real::NegZero) => true,
            _ => false,
        }
    }
}

impl vstd::std_specs::cmp::PartialEqSpecImpl for Real {
    open spec fn obeys_eq_spec() -> bool {
        true
    }

    open spec fn eq_spec(&self, other: &Real) -> bool {
        spec_real_eq(*self, *other)
    }
}

impl TrigEvaluator {
    /// The sine and cosine at the boundary: a non-finite argument gives
    /// `Nan` for both, a finite argument the evaluator's pair.
    pub fn sin_cos_real(&self, x: Real) -> (r: (Real, Real))
        requires
            self.wf(),
        ensures
            !is_finite(x) ==> r.0 is Nan && r.1 is Nan,
            is_finite(x) ==> {
                let sc = spec_sin_cos(self.table(), self.epsilon(), finite_units(x));
                r.0 == Real::Finite(Fixed { v: sc.0 as i64 }) && r.1 == Real::Finite(
                    Fixed { v: sc.1 as i64 },
                )
            },
    {
        match x {
            Real::Finite(f) => {
                let (s, c) = self.sin_cos(f);
                (Real::Finite(s), Real::Finite(c))
            },
            Real::NegZero => {
                let (s, c) = self.sin_cos(Fixed { v: 0 });
                (Real::Finite(s), Real::Finite(c))
            },
            _ => (Real::Nan, Real::Nan),
        }
    }

    /// The sine at the boundary.
    pub fn sin_real(&self, x: Real) -> (r: Real)
        requires
            self.wf(),
        ensures
            !is_finite(x) ==> r is Nan,
            is_finite(x) ==> r == Real::Finite(
                Fixed {
                    v: spec_sin_cos(self.table(), self.epsilon(), finite_units(x)).0 as i64,
                },
            ),
    {
        self.sin_cos_real(x).0
    }

    /// The cosine at the boundary.
    pub fn cos_real(&self, x: Real) -> (r: Real)
        requires
            self.wf(),
        ensures
            !is_finite(x) ==> r is Nan,
            is_finite(x) ==> r == Real::Finite(
                Fixed {
                    v: spec_sin_cos(self.table(), self.epsilon(), finite_units(x)).1 as i64,
                },
            ),
    {
        self.sin_cos_real(x).1
    }
}

} // verus!
