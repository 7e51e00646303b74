//! An arbitrary-precision decimal integer stored as a digit array.
//!
//! Digits are kept little-endian: the least significant digit comes first.
//! The value a digit sequence denotes is the spec function [`seq_value`],
//! and every operation's contract is stated against it.

use vstd::prelude::*;
use vstd::string::StringSliceAdditionalSpecFns;

use crate::digit::{digit_val, spec_digit, Digit, InvalidDigitErr};

pub mod math;

verus! {

/// Ten to the power `n`.
pub open spec fn pow10(n: nat) -> int
    decreases n,
{
    if n == 0 {
        1
    } else {
        10 * pow10((n - 1) as nat)
    }
}

/// The number a little-endian digit sequence denotes.
pub open spec fn seq_value(s: Seq<Digit>) -> int
    decreases s.len(),
{
    if s.len() == 0 {
        0
    } else {
        seq_value(s.drop_last()) + digit_val(s.last()) * pow10((s.len() - 1) as nat)
    }
}

/// The digit sequence without its trailing zeros.
pub open spec fn spec_trim(s: Seq<Digit>) -> Seq<Digit>
    decreases s.len(),
{
    if s.len() == 0 {
        s
    } else if s.last() == Digit::Zero {
        spec_trim(s.drop_last())
    } else {
        s
    }
}

/// Whether a digit sequence carries no trailing zero.
pub open spec fn is_trimmed(s: Seq<Digit>) -> bool {
    s.len() == 0 || s.last() != Digit::Zero
}

pub proof fn lemma_pow10_pos(n: nat)
    ensures
        pow10(n) >= 1,
    decreases n,
{
    if n > 0 {
        lemma_pow10_pos((n - 1) as nat);
    }
}

pub proof fn lemma_seq_value_nonneg(s: Seq<Digit>)
    ensures
        seq_value(s) >= 0,
    decreases s.len(),
{
    if s.len() > 0 {
        lemma_seq_value_nonneg(s.drop_last());
        lemma_pow10_pos((s.len() - 1) as nat);
        assert(digit_val(s.last()) >= 0);
        assert(digit_val(s.last()) * pow10((s.len() - 1) as nat) >= 0) by (nonlinear_arith)
            requires
                digit_val(s.last()) >= 0,
                pow10((s.len() - 1) as nat) >= 1,
        ;
    }
}

/// A digit sequence of length `n` denotes less than `pow10(n)`.
pub proof fn lemma_seq_value_bound(s: Seq<Digit>)
    ensures
        0 <= seq_value(s) < pow10(s.len()),
    decreases s.len(),
{
    lemma_seq_value_nonneg(s);
    if s.len() > 0 {
        lemma_seq_value_bound(s.drop_last());
        let p = pow10((s.len() - 1) as nat);
        lemma_pow10_pos((s.len() - 1) as nat);
        assert(digit_val(s.last()) * p <= 9 * p) by (nonlinear_arith)
            requires
                digit_val(s.last()) <= 9,
                p >= 1,
        ;
    }
}

/// Extending a prefix by one digit adds that digit at its place value.
pub proof fn lemma_seq_value_take_succ(s: Seq<Digit>, i: int)
    requires
        0 <= i < s.len(),
    ensures
        seq_value(s.take(i + 1)) == seq_value(s.take(i)) + digit_val(s[i]) * pow10(i as nat),
{
    assert(s.take(i + 1).drop_last() =~= s.take(i));
    assert(s.take(i + 1).last() == s[i]);
}

/// The whole sequence is its own full prefix.
pub proof fn lemma_seq_value_take_all(s: Seq<Digit>)
    ensures
        seq_value(s.take(s.len() as int)) == seq_value(s),
{
    assert(s.take(s.len() as int) =~= s);
}

/// Splitting a sequence at `i` splits its value at place `pow10(i)`.
pub proof fn lemma_seq_value_split(s: Seq<Digit>, i: int)
    requires
        0 <= i <= s.len(),
    ensures
        seq_value(s) == seq_value(s.take(i)) + pow10(i as nat) * seq_value(s.skip(i)),
    decreases s.len() - i,
{
    if i == s.len() {
        lemma_seq_value_take_all(s);
        assert(s.skip(i).len() == 0);
        lemma_pow10_pos(i as nat);
    } else {
        lemma_seq_value_split(s, i + 1);
        lemma_seq_value_take_succ(s, i);
        // Unfold the head digit of the tail `s.skip(i)`.
        let t = s.skip(i);
        let u = s.skip(i + 1);
        assert(t.drop_first() =~= u);
        lemma_seq_value_head(t);
        assert(pow10((i + 1) as nat) == 10 * pow10(i as nat));
        assert(seq_value(s) == seq_value(s.take(i)) + digit_val(s[i]) * pow10(i as nat) + (10
            * pow10(i as nat)) * seq_value(u));
        assert(t[0] == s[i]);
        assert(seq_value(t) == digit_val(s[i]) + 10 * seq_value(u));
        assert(pow10(i as nat) * (digit_val(s[i]) + 10 * seq_value(u)) == digit_val(s[i]) * pow10(
            i as nat,
        ) + (10 * pow10(i as nat)) * seq_value(u)) by (nonlinear_arith);
    }
}

/// The value of a non-empty sequence, unfolded at its first digit.
pub proof fn lemma_seq_value_head(s: Seq<Digit>)
    requires
        s.len() >= 1,
    ensures
        seq_value(s) == digit_val(s[0]) + 10 * seq_value(s.drop_first()),
    decreases s.len(),
{
    if s.len() == 1 {
        assert(s.drop_first().len() == 0);
        assert(seq_value(s.drop_first()) == 0);
        assert(seq_value(s.drop_last()) == 0);
        assert(s.last() == s[0]);
    } else {
        let d = s.drop_last();
        lemma_seq_value_head(d);
        assert(s.drop_first().drop_last() =~= d.drop_first());
        assert(s.drop_first().last() == s.last());
        assert(d[0] == s[0]);
        let n = (s.len() - 2) as nat;
        assert(seq_value(s.drop_first()) == seq_value(d.drop_first()) + digit_val(s.last())
            * pow10(n));
        assert(seq_value(s) == digit_val(s[0]) + 10 * seq_value(d.drop_first()) + digit_val(
            s.last(),
        ) * pow10((s.len() - 1) as nat));
        assert(pow10((s.len() - 1) as nat) == 10 * pow10(n));
        assert(10 * (seq_value(d.drop_first()) + digit_val(s.last()) * pow10(n)) == 10 * seq_value(
            d.drop_first(),
        ) + digit_val(s.last()) * (10 * pow10(n))) by (nonlinear_arith);
        assert(10 * seq_value(s.drop_first()) == 10 * seq_value(d.drop_first()) + digit_val(
            s.last(),
        ) * (10 * pow10(n)));
        assert(digit_val(s.last()) * pow10((s.len() - 1) as nat) == digit_val(s.last()) * (10
            * pow10(n)));
        assert(seq_value(s) == digit_val(s[0]) + 10 * seq_value(s.drop_first()));
    }
}

/// A sequence denotes zero exactly when all its digits are zero.
pub proof fn lemma_seq_value_zero_iff(s: Seq<Digit>)
    ensures
        (seq_value(s) == 0) <==> (forall|i: int| 0 <= i < s.len() ==> s[i] == Digit::Zero),
    decreases s.len(),
{
    if s.len() > 0 {
        lemma_seq_value_zero_iff(s.drop_last());
        lemma_seq_value_nonneg(s.drop_last());
        lemma_pow10_pos((s.len() - 1) as nat);
        let p = pow10((s.len() - 1) as nat);
        if s.last() != Digit::Zero {
            assert(digit_val(s.last()) * p >= 1 * p) by (nonlinear_arith)
                requires
                    digit_val(s.last()) >= 1,
                    p >= 1,
            ;
        } else {
            assert(digit_val(s.last()) * p == 0);
            if seq_value(s) == 0 {
                assert(forall|i: int|
                    0 <= i < s.len() - 1 ==> s.drop_last()[i] == Digit::Zero && s.drop_last()[i]
                        == s[i]);
            }
        }
    }
}

/// Trimming trailing zeros keeps the value.
pub proof fn lemma_spec_trim_value(s: Seq<Digit>)
    ensures
        seq_value(spec_trim(s)) == seq_value(s),
        is_trimmed(spec_trim(s)),
        spec_trim(s).len() <= s.len(),
    decreases s.len(),
{
    if s.len() > 0 && s.last() == Digit::Zero {
        lemma_spec_trim_value(s.drop_last());
    }
}

/// An arbitrary-precision unsigned decimal integer,
/// least significant digit first.
#[derive(Clone, Debug)]
pub struct DecimalInt(pub(crate) Vec<Digit>);

impl View for DecimalInt {
    type V = Seq<Digit>;

    closed spec fn view(&self) -> Seq<Digit> {
        self.0@
    }
}

impl DecimalInt {
    /// A decimal integer from its digits, least significant first.
    pub fn from_digits(digits: Vec<Digit>) -> (r: DecimalInt)
        ensures
            r@ == digits@,
    {
        DecimalInt(digits)
    }

    /// The integer zero, with no digits at all.
    pub fn zero() -> (r: DecimalInt)
        ensures
            r@ =~= Seq::<Digit>::empty(),
    {
        DecimalInt(Vec::new())
    }

    /// The integer zero, with room reserved for `capacity` digits.
    pub fn with_capacity(capacity: usize) -> (r: DecimalInt)
        ensures
            r@ =~= Seq::<Digit>::empty(),
    {
        DecimalInt(Vec::with_capacity(capacity))
    }

    /// A view of the digits, least significant first.
    pub fn digits(&self) -> (r: &[Digit])
        ensures
            r@ == self@,
    {
        self.0.as_slice()
    }

    /// Mutable access to the digit vector.
    pub fn digits_mut(&mut self) -> (r: &mut Vec<Digit>)
        ensures
            r@ == old(self)@,
            final (self)@ == final (r)@,
    {
        &mut self.0
    }

    /// Whether the denoted value is zero.
    pub fn is_zero(&self) -> (r: bool)
        ensures
            r == (seq_value(self@) == 0),
    {
        let mut i: usize = 0;
        let n = self.0.len();
        while i < n
            invariant
                0 <= i <= n,
                n == self@.len(),
                forall|j: int| 0 <= j < i ==> self@[j] == Digit::Zero,
            decreases n - i,
        {
            if self.0[i] != Digit::Zero {
                proof {
                    lemma_seq_value_zero_iff(self@);
                }
                return false;
            }
            i = i + 1;
        }
        proof {
            lemma_seq_value_zero_iff(self@);
        }
        true
    }

    /// Drop trailing zero digits, keeping the value.
    pub fn normalize(&mut self)
        ensures
            final (self)@ == spec_trim(old(self)@),
            seq_value(final (self)@) == seq_value(old(self)@),
            is_trimmed(final (self)@),
    {
        while !self.is_normalized()
            invariant
                spec_trim(self@) == spec_trim(old(self)@),
                seq_value(self@) == seq_value(old(self)@),
            decreases self@.len(),
        {
            proof {
                assert(self@.len() > 0 && self@.last() == Digit::Zero);
            }
            self.0.pop();
            proof {
                lemma_spec_trim_value(self@.push(Digit::Zero));
                assert(self@.push(Digit::Zero).drop_last() =~= self@);
            }
        }
        proof {
            lemma_spec_trim_value(old(self)@);
        }
    }

    /// The digits with trailing zeros dropped, as a fresh vector.
    pub fn normalized_digits(&self) -> (r: Vec<Digit>)
        ensures
            r@ == spec_trim(self@),
            seq_value(r@) == seq_value(self@),
    {
        let mut n = self.0.len();
        proof {
            assert(self@.take(n as int) =~= self@);
        }
        while n > 0 && self.0[n - 1] == Digit::Zero
            invariant
                0 <= n <= self@.len(),
                spec_trim(self@.take(n as int)) == spec_trim(self@),
            decreases n,
        {
            proof {
                assert(self@.take(n as int).drop_last() =~= self@.take(n - 1));
            }
            n = n - 1;
        }
        let mut r: Vec<Digit> = Vec::with_capacity(n);
        let mut i: usize = 0;
        while i < n
            invariant
                0 <= i <= n <= self@.len(),
                r@ =~= self@.take(n as int).take(i as int),
            decreases n - i,
        {
            r.push(self.0[i]);
            proof {
                assert(self@.take(n as int).take(i as int).push(self@[i as int]) =~= self@.take(
                    n as int,
                ).take(i + 1));
            }
            i = i + 1;
        }
        proof {
            assert(r@ =~= self@.take(n as int));
            if n > 0 {
                assert(self@.take(n as int).last() == self@[n - 1]);
            }
            assert(spec_trim(self@.take(n as int)) == self@.take(n as int));
            lemma_spec_trim_value(self@);
        }
        r
    }

    /// Append a most significant digit.
    pub fn push(&mut self, value: Digit)
        ensures
            final (self)@ == old(self)@.push(value),
    {
        self.0.push(value)
    }

    /// Remove and return the most significant digit.
    pub fn pop(&mut self) -> (r: Option<Digit>)
        ensures
            old(self)@.len() == 0 ==> r is None && final (self)@ == old(self)@,
            old(self)@.len() > 0 ==> r == Some(old(self)@.last()) && final (self)@ == old(
                self,
            )@.drop_last(),
    {
        self.0.pop()
    }

    /// Whether no trailing zero digit is stored.
    pub fn is_normalized(&self) -> (r: bool)
        ensures
            r == is_trimmed(self@),
    {
        let n = self.0.len();
        if n == 0 {
            true
        } else {
            self.0[n - 1] != Digit::Zero
        }
    }

    /// The digits as raw byte values, least significant first.
    pub fn as_bytes(&self) -> (r: Vec<u8>)
        ensures
            r@.len() == self@.len(),
            forall|i: int| 0 <= i < r@.len() ==> r@[i] == digit_val(self@[i]),
    {
        let mut r: Vec<u8> = Vec::with_capacity(self.0.len());
        let mut i: usize = 0;
        let n = self.0.len();
        while i < n
            invariant
                0 <= i <= n,
                n == self@.len(),
                r@.len() == i,
                forall|j: int| 0 <= j < i ==> r@[j] == digit_val(self@[j]),
            decreases n - i,
        {
            r.push(self.0[i].value());
            i = i + 1;
        }
        r
    }

    /// The number of stored digits.
    pub fn len(&self) -> (r: usize)
        ensures
            r == self@.len(),
    {
        self.0.len()
    }

    /// A copy of the digits, least significant first.
    pub fn iter(&self) -> (r: Vec<Digit>)
        ensures
            r@ == self@,
    {
        let mut r: Vec<Digit> = Vec::with_capacity(self.0.len());
        let mut i: usize = 0;
        let n = self.0.len();
        while i < n
            invariant
                0 <= i <= n,
                n == self@.len(),
                r@ =~= self@.take(i as int),
            decreases n - i,
        {
            r.push(self.0[i]);
            proof {
                assert(self@.take(i as int).push(self@[i as int]) =~= self@.take(i + 1));
            }
            i = i + 1;
        }
        proof {
            assert(r@ =~= self@);
        }
        r
    }

    /// The digit at place `index` (places count from the least significant).
    pub fn get(&self, index: usize) -> (r: Digit)
        requires
            index < self@.len(),
        ensures
            r == self@[index as int],
    {
        self.0[index]
    }

    /// Replace the digit at place `index`.
    pub fn set_digit(&mut self, index: usize, value: Digit)
        requires
            index < old(self)@.len(),
        ensures
            final (self)@ == old(self)@.update(index as int, value),
    {
        self.0[index] = value;
    }

    /// The most significant stored digit, if any digit is stored.
    pub fn last(&self) -> (r: Option<Digit>)
        ensures
            self@.len() == 0 ==> r is None,
            self@.len() > 0 ==> r == Some(self@.last()),
    {
        let n = self.0.len();
        if n == 0 {
            None
        } else {
            Some(self.0[n - 1])
        }
    }

    /// The digits shifted `amount` places up, as a new integer:
    /// the value multiplied by `pow10(amount)`.
    pub fn shifted_decimal_left(&self, amount: usize) -> (r: DecimalInt)
        requires
            self@.len() + amount <= usize::MAX,
        ensures
            r@ == Seq::new(amount as nat, |i: int| Digit::Zero) + self@,
            seq_value(r@) == pow10(amount as nat) * seq_value(self@),
    {
        let mut digits: Vec<Digit> = Vec::with_capacity(self.0.len() + amount);
        let mut i: usize = 0;
        while i < amount
            invariant
                0 <= i <= amount,
                digits@ =~= Seq::new(i as nat, |j: int| Digit::Zero),
            decreases amount - i,
        {
            digits.push(Digit::Zero);
            proof {
                assert(Seq::new(i as nat, |j: int| Digit::Zero).push(Digit::Zero) =~= Seq::new(
                    (i + 1) as nat,
                    |j: int| Digit::Zero,
                ));
            }
            i = i + 1;
        }
        let mut k: usize = 0;
        let n = self.0.len();
        while k < n
            invariant
                0 <= k <= n,
                n == self@.len(),
                digits@ =~= Seq::new(amount as nat, |j: int| Digit::Zero) + self@.take(k as int),
            decreases n - k,
        {
            digits.push(self.0[k]);
            proof {
                assert((Seq::new(amount as nat, |j: int| Digit::Zero) + self@.take(
                    k as int,
                )).push(self@[k as int]) =~= Seq::new(amount as nat, |j: int| Digit::Zero)
                    + self@.take(k + 1));
            }
            k = k + 1;
        }
        let r = DecimalInt(digits);
        proof {
            assert(r@ =~= Seq::new(amount as nat, |j: int| Digit::Zero) + self@);
            let z = Seq::new(amount as nat, |j: int| Digit::Zero);
            lemma_seq_value_split(r@, amount as int);
            assert(r@.take(amount as int) =~= z);
            assert(r@.skip(amount as int) =~= self@);
            lemma_seq_value_zero_iff(z);
        }
        r
    }

    /// Shift the digits `amount` places up, in place:
    /// multiply the value by `pow10(amount)`.
    pub fn shift_decimal_left(&mut self, amount: usize)
        requires
            old(self)@.len() + amount <= usize::MAX,
        ensures
            final (self)@ == Seq::new(amount as nat, |i: int| Digit::Zero) + old(self)@,
            seq_value(final (self)@) == pow10(amount as nat) * seq_value(old(self)@),
    {
        let shifted = self.shifted_decimal_left(amount);
        *self = shifted;
    }

    /// The integer denoting `value`.
    pub fn from_u64(value: u64) -> (r: DecimalInt)
        ensures
            seq_value(r@) == value,
            is_trimmed(r@),
    {
        let mut r = DecimalInt::zero();
        let mut rest: u64 = value;
        while rest != 0
            invariant
                seq_value(r@) + rest * pow10(r@.len()) == value,
                rest == 0 ==> is_trimmed(r@),
            decreases rest,
        {
            let d = (rest % 10) as u8;
            let digit = Digit::new(d);
            let ghost old_r = r@;
            let ghost old_rest = rest as int;
            r.push(digit);
            rest = rest / 10;
            proof {
                assert(r@.drop_last() =~= old_r);
                assert(seq_value(r@) == seq_value(old_r) + digit_val(digit) * pow10(
                    old_r.len(),
                ));
                lemma_pow10_pos(old_r.len());
                assert(old_rest == 10 * (old_rest / 10) + old_rest % 10);
                assert(digit_val(digit) == old_rest % 10);
                assert(seq_value(old_r) + old_rest * pow10(old_r.len()) == value);
                assert((10 * (old_rest / 10) + old_rest % 10) * pow10(old_r.len()) == (old_rest
                    % 10) * pow10(old_r.len()) + (old_rest / 10) * (10 * pow10(old_r.len())))
                    by (nonlinear_arith);
                assert(pow10(r@.len()) == 10 * pow10(old_r.len()));
                if rest == 0 {
                    assert(old_rest % 10 == old_rest);
                    assert(digit_val(digit) != 0);
                }
            }
        }
        r
    }
}

/// The reason a string failed to parse as a decimal integer.
#[derive(Clone, Copy, Debug, PartialEq, Eq, Structural)]
pub enum DecimalIntParseError {
    EmptyStr,
    InvalidDigit(InvalidDigitErr),
}


impl DecimalInt {
    /// The same number as a binary big integer.
    pub fn as_bigint(&self) -> (r: num_bigint::BigUint)
        ensures
            crate::bigint::big_value(r) == seq_value(self@),
    {
        let bytes = self.as_bytes();
        proof {
            assert forall|i: int| 0 <= i < bytes@.len() implies bytes@[i] < 10 by {
                crate::digit::lemma_digit_bound(self@[i]);
            }
            crate::bigint::lemma_bytes_value_matches(bytes@, self@);
        }
        crate::bigint::big_from_digits(&bytes)
    }

    /// The decimal integer holding the number of a binary big integer.
    pub fn from_bigint(value: &num_bigint::BigUint) -> (r: DecimalInt)
        ensures
            seq_value(r@) == crate::bigint::big_value(*value),
            is_trimmed(r@),
    {
        let bytes = crate::bigint::big_to_digits(value);
        let n = bytes.len();
        let mut digits: Vec<Digit> = Vec::with_capacity(n);
        let mut i: usize = 0;
        while i < n
            invariant
                0 <= i <= n,
                n == bytes@.len(),
                forall|k: int| 0 <= k < n ==> bytes@[k] < 10,
                digits@.len() == i,
                forall|k: int| 0 <= k < i ==> bytes@[k] == digit_val(digits@[k]),
            decreases n - i,
        {
            digits.push(Digit::new(bytes[i]));
            i = i + 1;
        }
        let mut r = DecimalInt(digits);
        proof {
            crate::bigint::lemma_bytes_value_matches(bytes@, r@);
        }
        r.normalize();
        r
    }
}


/// Whether a byte is a decimal ASCII digit.
pub open spec fn is_digit_byte(b: u8) -> bool {
    48 <= b <= 57
}

/// The digits a byte string of decimal ASCII digits spells,
/// most significant first.
pub open spec fn digits_of_bytes(s: Seq<u8>) -> Seq<Digit> {
    Seq::new(s.len(), |i: int| spec_digit(s[i] - 48))
}

/// The least index holding a non-digit byte, or the length if none.
pub open spec fn first_non_digit(s: Seq<u8>) -> int
    decreases s.len(),
{
    if s.len() == 0 {
        0
    } else if !is_digit_byte(s[0]) {
        0
    } else {
        1 + first_non_digit(s.drop_first())
    }
}

/// With every byte below `j` a digit and the byte at `j` not one,
/// `j` is the first non-digit.
proof fn lemma_first_non_digit(s: Seq<u8>, j: int)
    requires
        0 <= j < s.len(),
        forall|k: int| 0 <= k < j ==> is_digit_byte(#[trigger] s[k]),
        !is_digit_byte(s[j]),
    ensures
        first_non_digit(s) == j,
    decreases j,
{
    if j > 0 {
        assert(forall|k: int| 0 <= k < j - 1 ==> s.drop_first()[k] == s[k + 1]);
        lemma_first_non_digit(s.drop_first(), j - 1);
    }
}

impl DecimalInt {
    /// Parse a decimal integer from text, most significant digit first;
    /// the empty string and any non-digit character are rejected.
    pub fn from_str(s: &str) -> (r: Result<DecimalInt, DecimalIntParseError>)
        ensures
            s.spec_bytes().len() == 0 ==> r == Err::<DecimalInt, DecimalIntParseError>(
                DecimalIntParseError::EmptyStr,
            ),
            s.spec_bytes().len() > 0 && (exists|i: int|
                0 <= i < s.spec_bytes().len() && !is_digit_byte(#[trigger] s.spec_bytes()[i]))
                ==> r == Err::<DecimalInt, DecimalIntParseError>(
                DecimalIntParseError::InvalidDigit(
                    InvalidDigitErr(
                        s.spec_bytes()[first_non_digit(s.spec_bytes())] as char,
                    ),
                ),
            ),
            s.spec_bytes().len() > 0 && (forall|i: int|
                0 <= i < s.spec_bytes().len() ==> is_digit_byte(#[trigger] s.spec_bytes()[i]))
                ==> r is Ok && is_trimmed(r->Ok_0@) && seq_value(r->Ok_0@) == seq_value(
                digits_of_bytes(s.spec_bytes()).reverse(),
            ),
    {
        let bytes = s.as_bytes();
        let n = bytes.len();
        if n == 0 {
            return Err(DecimalIntParseError::EmptyStr);
        }
        let mut i: usize = 0;
        while i < n
            invariant
                0 <= i <= n,
                n == s.spec_bytes().len(),
                bytes@ == s.spec_bytes(),
                forall|k: int| 0 <= k < i ==> is_digit_byte(#[trigger] bytes@[k]),
            decreases n - i,
        {
            if bytes[i] < 48 || bytes[i] > 57 {
                proof {
                    lemma_first_non_digit(bytes@, i as int);
                }
                return Err(
                    DecimalIntParseError::InvalidDigit(InvalidDigitErr(bytes[i] as char)),
                );
            }
            i = i + 1;
        }
        let mut le: Vec<Digit> = Vec::new();
        let mut k: usize = 0;
        while k < n
            invariant
                0 <= k <= n,
                n == s.spec_bytes().len(),
                bytes@ == s.spec_bytes(),
                forall|j: int| 0 <= j < n ==> is_digit_byte(#[trigger] bytes@[j]),
                le@.len() == k,
                forall|j: int|
                    0 <= j < k ==> #[trigger] le@[j] == spec_digit(bytes@[n - 1 - j] - 48),
            decreases n - k,
        {
            le.push(Digit::new(bytes[n - 1 - k] - 48));
            k = k + 1;
        }
        proof {
            assert(le@ =~= digits_of_bytes(s.spec_bytes()).reverse());
        }
        let mut result = DecimalInt(le);
        result.normalize();
        Ok(result)
    }
}

} // verus!
