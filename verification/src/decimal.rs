//! A signed decimal number in scientific notation: one leading digit,
//! a fractional magnitude, and a power-of-ten exponent.

use vstd::prelude::*;

use crate::decint::{
    is_trimmed, lemma_pow10_pos, lemma_seq_value_nonneg, lemma_seq_value_split,
    lemma_seq_value_zero_iff, lemma_spec_trim_value, pow10, seq_value, DecimalInt,
};
use crate::digit::{digit_val, Digit};

verus! {

/// A signed decimal in normalized scientific notation.
///
/// The denoted number is
/// `(if sign { -1 } else { 1 }) * mantissa_val * pow10(exponent - magnitude.len())`,
/// and a zero leading digit denotes zero outright.
#[derive(Clone, Debug)]
pub struct Decimal {
    /// Whether the decimal is negative; ignored when it is zero.
    pub sign: bool,
    /// The one digit before the decimal point; `Zero` makes the whole
    /// decimal zero.
    pub leading: Digit,
    /// The digits after the decimal point, most significant first,
    /// without trailing zeros.
    pub magnitude: Vec<Digit>,
    /// The power of ten the leading digit stands at.
    pub exponent: i32,
}

/// The integer the digits of a decimal spell, least significant first.
pub open spec fn mantissa_val(d: Decimal) -> int {
    seq_value(d.magnitude@.reverse().push(d.leading))
}

/// The power of ten the whole digit string is scaled by.
pub open spec fn scale_exp(d: Decimal) -> int {
    d.exponent - d.magnitude@.len()
}

/// A decimal in its single normalized form: no trailing zeros in the
/// magnitude, and zero stored only as a bare zero digit.
pub open spec fn decimal_wf(d: Decimal) -> bool {
    &&& is_trimmed(d.magnitude@)
    &&& (d.leading == Digit::Zero ==> d.magnitude@.len() == 0 && d.exponent == 0 && !d.sign)
}

/// The number a big-endian digit string spells.
pub open spec fn be_value(s: Seq<Digit>) -> int {
    seq_value(s.reverse())
}

/// The lower of the two scales.
pub open spec fn min_scale(a: Decimal, b: Decimal) -> int {
    if scale_exp(a) < scale_exp(b) {
        scale_exp(a)
    } else {
        scale_exp(b)
    }
}

/// A positive leading digit makes the mantissa positive.
pub proof fn lemma_mantissa_positive(d: Decimal)
    requires
        d.leading != Digit::Zero,
    ensures
        mantissa_val(d) >= 1,
{
    let s = d.magnitude@.reverse().push(d.leading);
    assert(s.drop_last() =~= d.magnitude@.reverse());
    lemma_seq_value_nonneg(s.drop_last());
    lemma_pow10_pos((s.len() - 1) as nat);
    assert(digit_val(s.last()) * pow10((s.len() - 1) as nat) >= 1 * pow10((s.len() - 1) as nat))
        by (nonlinear_arith)
        requires
            digit_val(s.last()) >= 1,
            pow10((s.len() - 1) as nat) >= 1,
    ;
}

/// The mantissa is never negative.
pub proof fn lemma_mantissa_nonneg(d: Decimal)
    ensures
        mantissa_val(d) >= 0,
{
    lemma_seq_value_nonneg(d.magnitude@.reverse().push(d.leading));
}

impl Decimal {
    /// The decimal holding a single digit.
    pub fn from_digit(digit: Digit) -> (r: Decimal)
        ensures
            r.sign == false,
            r.leading == digit,
            r.magnitude@ =~= Seq::<Digit>::empty(),
            r.exponent == 0,
            decimal_wf(r),
            mantissa_val(r) == digit_val(digit),
    {
        let r = Decimal { sign: false, leading: digit, magnitude: Vec::new(), exponent: 0 };
        proof {
            assert(r.magnitude@.reverse() =~= Seq::<Digit>::empty());
            assert(r.magnitude@.reverse().push(digit).drop_last() =~= Seq::<Digit>::empty());
            assert(seq_value(Seq::<Digit>::empty()) == 0);
            assert(pow10(0) == 1);
        }
        r
    }

    /// The decimal zero.
    pub fn zero() -> (r: Decimal)
        ensures
            decimal_wf(r),
            r.leading == Digit::Zero,
            !r.sign,
            mantissa_val(r) == 0,
            scale_exp(r) == 0,
    {
        Decimal::from_digit(Digit::Zero)
    }

    /// Whether the decimal denotes zero.
    pub fn is_zero(&self) -> (r: bool)
        requires
            decimal_wf(*self),
        ensures
            r == (mantissa_val(*self) == 0),
    {
        proof {
            if self.leading == Digit::Zero {
                let s = self.magnitude@.reverse().push(self.leading);
                assert(s.drop_last() =~= self.magnitude@.reverse());
                assert(s.drop_last().len() == 0);
                assert(seq_value(Seq::<Digit>::empty()) == 0);
                assert(pow10(0) == 1);
            } else {
                lemma_mantissa_positive(*self);
            }
        }
        self.leading == Digit::Zero
    }

    /// The mantissa as a little-endian decimal integer.
    pub fn mantissa_le(&self) -> (r: DecimalInt)
        ensures
            r@ == self.magnitude@.reverse().push(self.leading),
            seq_value(r@) == mantissa_val(*self),
    {
        let n = self.magnitude.len();
        let mut digits: Vec<Digit> = Vec::new();
        let mut i: usize = 0;
        while i < n
            invariant
                0 <= i <= n,
                n == self.magnitude@.len(),
                digits@.len() == i,
                forall|j: int| 0 <= j < i ==> #[trigger] digits@[j] == self.magnitude@[n - 1 - j],
            decreases n - i,
        {
            digits.push(self.magnitude[n - 1 - i]);
            i = i + 1;
        }
        digits.push(self.leading);
        proof {
            assert(digits@ =~= self.magnitude@.reverse().push(self.leading));
        }
        DecimalInt::from_digits(digits)
    }

    /// A normalized decimal from a nonzero little-endian digit string
    /// whose lowest place stands at `pow10(low_exp)`.
    fn from_le_scaled(sign: bool, digits: DecimalInt, low_exp: i64) -> (r: Decimal)
        requires
            seq_value(digits@) > 0,
            i32::MIN <= low_exp,
            low_exp + digits@.len() <= i32::MAX,
        ensures
            decimal_wf(r),
            r.sign == sign,
            r.leading != Digit::Zero,
            exists|j: nat|
                mantissa_val(r) * pow10(j) == seq_value(digits@) && #[trigger] pow10(j) > 0
                    && scale_exp(r) == low_exp + j,
    {
        let mut work = digits;
        let ghost given = work@;
        work.normalize();
        proof {
            lemma_spec_trim_value(given);
            lemma_seq_value_zero_iff(work@);
        }
        let n = work.len();
        proof {
            assert(n >= 1);
            assert(work@.last() != Digit::Zero);
        }
        // Skip the low-order zeros: they move into the exponent.
        let mut j: usize = 0;
        while work.get(j) == Digit::Zero
            invariant
                0 <= j < n == work@.len(),
                work@.last() != Digit::Zero,
                forall|k: int| 0 <= k < j ==> work@[k] == Digit::Zero,
            decreases n - j,
        {
            proof {
                if j + 1 == n {
                    assert(work@[j as int] == work@.last());
                }
            }
            j = j + 1;
        }
        let leading = work.get(n - 1);
        let mut magnitude: Vec<Digit> = Vec::new();
        let mut i: usize = 0;
        while i < n - 1 - j
            invariant
                0 <= i <= n - 1 - j,
                j < n == work@.len(),
                magnitude@.len() == i,
                forall|k: int| 0 <= k < i ==> #[trigger] magnitude@[k] == work@[n - 2 - k],
            decreases n - 1 - j - i,
        {
            magnitude.push(work.get(n - 2 - i));
            i = i + 1;
        }
        proof {
            assert(n <= given.len());
            assert(i32::MIN <= low_exp + n - 1 < i32::MAX);
        }
        let exponent_wide: i64 = low_exp + (n as i64) - 1;
        let r = Decimal { sign, leading, magnitude, exponent: exponent_wide as i32 };
        proof {
            let w = work@;
            assert(r.magnitude@.reverse().push(r.leading) =~= w.skip(j as int)) by {
                assert(forall|k: int|
                    0 <= k < r.magnitude@.len() ==> r.magnitude@.reverse()[k] == r.magnitude@[
                        r.magnitude@.len() - 1 - k] && r.magnitude@[r.magnitude@.len() - 1 - k]
                        == w[j + k]);
            }
            assert(is_trimmed(r.magnitude@)) by {
                if r.magnitude@.len() > 0 {
                    assert(r.magnitude@.last() == w[j as int]);
                    assert(w[j as int] != Digit::Zero);
                }
            }
            lemma_seq_value_split(w, j as int);
            lemma_seq_value_zero_iff(w.take(j as int));
            assert(forall|k: int| 0 <= k < j ==> w.take(j as int)[k] == w[k]);
            assert(seq_value(w.take(j as int)) == 0);
            assert(mantissa_val(r) == seq_value(w.skip(j as int)));
            assert(seq_value(w) == pow10(j as nat) * seq_value(w.skip(j as int)));
            lemma_pow10_pos(j as nat);
            assert(mantissa_val(r) * pow10(j as nat) == pow10(j as nat) * seq_value(
                w.skip(j as int),
            )) by (nonlinear_arith)
                requires
                    mantissa_val(r) == seq_value(w.skip(j as int)),
            ;
            assert(r.exponent == low_exp + n - 1);
            assert(r.magnitude@.len() == n - 1 - j);
            assert(scale_exp(r) == low_exp + j);
            assert(r.leading != Digit::Zero) by {
                assert(w.skip(j as int).last() == w.last());
            }
            assert(mantissa_val(r) * pow10(j as nat) == seq_value(given));
        }
        r
    }

    /// A decimal from a raw big-endian digit string with its decimal
    /// point `decimal_point` digits in and an outer power of ten.
    pub fn from_raw_decimal(
        sign: bool,
        exponent: i32,
        digits: &[Digit],
        decimal_point: usize,
    ) -> (r: Decimal)
        requires
            i32::MIN <= exponent + decimal_point - digits@.len(),
            exponent + decimal_point <= i32::MAX,
        ensures
            decimal_wf(r),
            be_value(digits@) == 0 ==> mantissa_val(r) == 0 && r.leading == Digit::Zero,
            be_value(digits@) != 0 ==> r.sign == sign && (exists|j: nat|
                mantissa_val(r) * pow10(j) == be_value(digits@) && #[trigger] pow10(j) > 0
                    && scale_exp(r) == exponent + decimal_point - digits@.len() + j),
    {
        let n = digits.len();
        let mut le: Vec<Digit> = Vec::new();
        let mut i: usize = 0;
        while i < n
            invariant
                0 <= i <= n,
                n == digits@.len(),
                le@.len() == i,
                forall|k: int| 0 <= k < i ==> #[trigger] le@[k] == digits@[n - 1 - k],
            decreases n - i,
        {
            le.push(digits[n - 1 - i]);
            i = i + 1;
        }
        proof {
            assert(le@ =~= digits@.reverse());
        }
        let le_int = DecimalInt::from_digits(le);
        if le_int.is_zero() {
            Decimal::zero()
        } else {
            proof {
                lemma_seq_value_nonneg(le_int@);
            }
            let low_exp: i64 = exponent as i64 + decimal_point as i64 - n as i64;
            proof {
                assert(low_exp + le_int@.len() == exponent + decimal_point);
            }
            Decimal::from_le_scaled(sign, le_int, low_exp)
        }
    }

    /// The product: multiply the mantissas as integers and renormalize,
    /// adding the scales.
    pub fn mul(&self, other: &Decimal) -> (r: Decimal)
        requires
            decimal_wf(*self),
            decimal_wf(*other),
            i32::MIN <= scale_exp(*self) + scale_exp(*other),
            scale_exp(*self) + scale_exp(*other) + self.magnitude@.len() + other.magnitude@.len()
                + 2 <= i32::MAX,
            self.magnitude@.len() + other.magnitude@.len() + 2 <= usize::MAX,
        ensures
            decimal_wf(r),
            mantissa_val(*self) == 0 || mantissa_val(*other) == 0 ==> mantissa_val(r) == 0,
            mantissa_val(*self) != 0 && mantissa_val(*other) != 0 ==> r.sign == (self.sign
                != other.sign) && (exists|j: nat|
                mantissa_val(r) * pow10(j) == mantissa_val(*self) * mantissa_val(*other)
                    && #[trigger] pow10(j) > 0 && scale_exp(r) == scale_exp(*self) + scale_exp(
                    *other,
                ) + j),
    {
        if self.is_zero() || other.is_zero() {
            Decimal::zero()
        } else {
            let sign = self.sign != other.sign;
            let ma = self.mantissa_le();
            let mb = other.mantissa_le();
            let prod = crate::decint::math::mul(&ma, &mb);
            proof {
                lemma_mantissa_nonneg(*self);
                lemma_mantissa_nonneg(*other);
                assert(seq_value(prod@) == mantissa_val(*self) * mantissa_val(*other));
                assert(seq_value(prod@) > 0) by (nonlinear_arith)
                    requires
                        seq_value(prod@) == mantissa_val(*self) * mantissa_val(*other),
                        mantissa_val(*self) > 0,
                        mantissa_val(*other) > 0,
                ;
            }
            let low_exp: i64 = (self.exponent as i64 - self.magnitude.len() as i64) + (
            other.exponent as i64 - other.magnitude.len() as i64);
            proof {
                assert(low_exp == scale_exp(*self) + scale_exp(*other));
                assert(prod@.len() == ma@.len() + mb@.len());
            }
            Decimal::from_le_scaled(sign, prod, low_exp)
        }
    }

    /// The sum of the absolute values: align the mantissas at the lower
    /// of the two scales, add them as integers, and renormalize.
    #[verifier::rlimit(60)]
    pub fn add_unsigned(&self, other: &Decimal) -> (r: Decimal)
        requires
            decimal_wf(*self),
            decimal_wf(*other),
            scale_exp(*self) - min_scale(*self, *other) + self.magnitude@.len() + 2 <= usize::MAX,
            scale_exp(*other) - min_scale(*self, *other) + other.magnitude@.len() + 2
                <= usize::MAX,
            i32::MIN <= min_scale(*self, *other),
            self.exponent + 3 <= i32::MAX,
            other.exponent + 3 <= i32::MAX,
        ensures
            decimal_wf(r),
            !r.sign,
            mantissa_val(*self) == 0 && mantissa_val(*other) == 0 ==> mantissa_val(r) == 0,
            mantissa_val(*self) != 0 || mantissa_val(*other) != 0 ==> (exists|j: nat|
                mantissa_val(r) * pow10(j) == mantissa_val(*self) * pow10(
                    (scale_exp(*self) - min_scale(*self, *other)) as nat,
                ) + mantissa_val(*other) * pow10(
                    (scale_exp(*other) - min_scale(*self, *other)) as nat,
                ) && #[trigger] pow10(j) > 0 && scale_exp(r) == min_scale(*self, *other) + j),
    {
        let sa: i64 = self.exponent as i64 - self.magnitude.len() as i64;
        let sb: i64 = other.exponent as i64 - other.magnitude.len() as i64;
        let m: i64 = if sa < sb {
            sa
        } else {
            sb
        };
        let da: usize = (sa - m) as usize;
        let db: usize = (sb - m) as usize;
        let aligned_a = self.mantissa_le().shifted_decimal_left(da);
        let aligned_b = other.mantissa_le().shifted_decimal_left(db);
        let sum = crate::decint::math::add(&aligned_a, &aligned_b);
        proof {
            lemma_mantissa_nonneg(*self);
            lemma_mantissa_nonneg(*other);
            lemma_pow10_pos(da as nat);
            lemma_pow10_pos(db as nat);
            assert(seq_value(aligned_a@) == pow10(da as nat) * mantissa_val(*self));
            assert(seq_value(aligned_b@) == pow10(db as nat) * mantissa_val(*other));
            assert(pow10(da as nat) * mantissa_val(*self) >= 0) by (nonlinear_arith)
                requires
                    pow10(da as nat) >= 1,
                    mantissa_val(*self) >= 0,
            ;
            assert(pow10(db as nat) * mantissa_val(*other) >= 0) by (nonlinear_arith)
                requires
                    pow10(db as nat) >= 1,
                    mantissa_val(*other) >= 0,
            ;
            assert(pow10(da as nat) * mantissa_val(*self) == mantissa_val(*self) * pow10(
                da as nat,
            )) by (nonlinear_arith);
            assert(pow10(db as nat) * mantissa_val(*other) == mantissa_val(*other) * pow10(
                db as nat,
            )) by (nonlinear_arith);
        }
        if sum.is_zero() {
            proof {
                assert(mantissa_val(*self) == 0) by (nonlinear_arith)
                    requires
                        pow10(da as nat) * mantissa_val(*self) == 0,
                        pow10(da as nat) >= 1,
                        mantissa_val(*self) >= 0,
                ;
                assert(mantissa_val(*other) == 0) by (nonlinear_arith)
                    requires
                        pow10(db as nat) * mantissa_val(*other) == 0,
                        pow10(db as nat) >= 1,
                        mantissa_val(*other) >= 0,
                ;
            }
            Decimal::zero()
        } else {
            proof {
                lemma_seq_value_nonneg(sum@);
                assert(aligned_a@.len() == da + self.magnitude@.len() + 1);
                assert(aligned_b@.len() == db + other.magnitude@.len() + 1);
                assert(m + aligned_a@.len() + 1 <= self.exponent + 2);
                assert(m + aligned_b@.len() + 1 <= other.exponent + 2);
                assert(m + sum@.len() <= i32::MAX);
            }
            Decimal::from_le_scaled(false, sum, m)
        }
    }
}

} // verus!
