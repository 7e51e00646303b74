//! Grade-school decimal arithmetic over digit arrays.
//!
//! Every operation's contract is stated against [`seq_value`], the number a
//! little-endian digit sequence denotes.

use vstd::prelude::*;

use crate::digit::{digit_val, Digit};
use crate::decint::{
    is_trimmed, lemma_pow10_pos, lemma_seq_value_bound, lemma_seq_value_nonneg,
    lemma_seq_value_head, lemma_seq_value_split, lemma_seq_value_take_all, lemma_seq_value_take_succ,
    lemma_seq_value_zero_iff, lemma_spec_trim_value, pow10, seq_value, spec_trim, DecimalInt,
};

verus! {

/// A read-only operand of the decimal arithmetic routines:
/// anything that denotes a little-endian digit sequence.
pub trait DecimalArith: Sized {
    /// The digit sequence the operand denotes, least significant first.
    spec fn digit_seq(&self) -> Seq<Digit>;

    /// The number of digits.
    fn len(&self) -> (n: usize)
        ensures
            n == self.digit_seq().len(),
    ;

    /// The digit at place `index`.
    fn get(&self, index: usize) -> (d: Digit)
        requires
            index < self.digit_seq().len(),
        ensures
            d == self.digit_seq()[index as int],
    ;

    /// A copy of the digits, least significant first.
    fn iter(&self) -> (v: Vec<Digit>)
        ensures
            v@ == self.digit_seq(),
    ;

    /// Whether the operand denotes zero.
    fn is_zero(&self) -> (r: bool)
        ensures
            r == (seq_value(self.digit_seq()) == 0),
    ;

    /// The digits with trailing zeros dropped.
    fn normalized_digits(&self) -> (v: Vec<Digit>)
        ensures
            v@ == spec_trim(self.digit_seq()),
    ;

    /// The operand copied into a decimal integer.
    fn to_basic(&self) -> (d: DecimalInt)
        ensures
            d@ == self.digit_seq(),
    ;
}

impl DecimalArith for DecimalInt {
    open spec fn digit_seq(&self) -> Seq<Digit> {
        self@
    }

    fn len(&self) -> (n: usize) {
        DecimalInt::len(self)
    }

    fn get(&self, index: usize) -> (d: Digit) {
        DecimalInt::get(self, index)
    }

    fn iter(&self) -> (v: Vec<Digit>) {
        DecimalInt::iter(self)
    }

    fn is_zero(&self) -> (r: bool) {
        DecimalInt::is_zero(self)
    }

    fn normalized_digits(&self) -> (v: Vec<Digit>) {
        DecimalInt::normalized_digits(self)
    }

    fn to_basic(&self) -> (d: DecimalInt) {
        DecimalInt(DecimalInt::iter(self))
    }
}

impl DecimalArith for Digit {
    open spec fn digit_seq(&self) -> Seq<Digit> {
        seq![*self]
    }

    fn len(&self) -> (n: usize) {
        1
    }

    fn get(&self, index: usize) -> (d: Digit) {
        *self
    }

    fn iter(&self) -> (v: Vec<Digit>) {
        let mut v = Vec::new();
        v.push(*self);
        proof {
            assert(v@ =~= seq![*self]);
        }
        v
    }

    fn is_zero(&self) -> (r: bool) {
        proof {
            lemma_seq_value_single(*self);
        }
        *self == Digit::Zero
    }

    fn normalized_digits(&self) -> (v: Vec<Digit>) {
        proof {
            lemma_seq_value_single(*self);
        }
        let mut v = Vec::new();
        if *self != Digit::Zero {
            v.push(*self);
            proof {
                assert(v@ =~= seq![*self]);
            }
        } else {
            proof {
                assert(v@ =~= Seq::<Digit>::empty());
            }
        }
        v
    }

    fn to_basic(&self) -> (d: DecimalInt) {
        DecimalInt(self.iter())
    }
}

/// A borrowed digit slice whose digits are stored most significant first
/// and carry no leading zero.
#[derive(Clone, Copy, Debug)]
pub struct BigEndianNormalizedSlice<'a>(pub &'a [Digit]);

impl<'a> DecimalArith for BigEndianNormalizedSlice<'a> {
    open spec fn digit_seq(&self) -> Seq<Digit> {
        self.0@.reverse()
    }

    fn len(&self) -> (n: usize) {
        self.0.len()
    }

    fn get(&self, index: usize) -> (d: Digit) {
        self.0[self.0.len() - 1 - index]
    }

    fn iter(&self) -> (v: Vec<Digit>) {
        let n = self.0.len();
        let mut v: Vec<Digit> = Vec::with_capacity(n);
        let mut i: usize = 0;
        while i < n
            invariant
                0 <= i <= n,
                n == self.0@.len(),
                v@.len() == i,
                forall|j: int| 0 <= j < i ==> v@[j] == self.0@[n - 1 - j],
            decreases n - i,
        {
            v.push(self.0[n - 1 - i]);
            i = i + 1;
        }
        proof {
            assert(v@ =~= self.0@.reverse());
        }
        v
    }

    fn is_zero(&self) -> (r: bool) {
        let n = self.0.len();
        let mut i: usize = 0;
        while i < n
            invariant
                0 <= i <= n,
                n == self.0@.len(),
                forall|j: int| 0 <= j < i ==> self.0@[j] == Digit::Zero,
            decreases n - i,
        {
            if self.0[i] != Digit::Zero {
                proof {
                    lemma_seq_value_zero_iff(self.digit_seq());
                    assert(self.digit_seq()[n - 1 - i] == self.0@[i as int]);
                }
                return false;
            }
            i = i + 1;
        }
        proof {
            lemma_seq_value_zero_iff(self.digit_seq());
            assert(forall|j: int|
                0 <= j < n ==> self.digit_seq()[j] == self.0@[n - 1 - j] && self.0@[n - 1 - j]
                    == Digit::Zero);
        }
        true
    }

    fn normalized_digits(&self) -> (v: Vec<Digit>) {
        let d = self.to_basic();
        d.normalized_digits()
    }

    fn to_basic(&self) -> (d: DecimalInt) {
        DecimalInt(self.iter())
    }
}

/// Pushing a zero digit on top keeps the denoted value.
proof fn lemma_push_zero(s: Seq<Digit>)
    ensures
        seq_value(s.push(Digit::Zero)) == seq_value(s),
{
    assert(s.push(Digit::Zero).drop_last() =~= s);
    lemma_pow10_pos(s.len());
}

/// The value of a one-digit sequence.
proof fn lemma_seq_value_single(d: Digit)
    ensures
        seq_value(seq![d]) == digit_val(d),
        spec_trim(seq![d]) == if d == Digit::Zero {
            Seq::<Digit>::empty()
        } else {
            seq![d]
        },
{
    let s = seq![d];
    assert(s.last() == d);
    assert(s.drop_last() =~= Seq::<Digit>::empty());
    assert(seq_value(s.drop_last()) == 0);
    assert(spec_trim(Seq::<Digit>::empty()) == Seq::<Digit>::empty());
    assert(pow10(0) == 1);
}

/// Updating place `i` leaves every higher place unchanged.
proof fn lemma_update_skip(pre: Seq<Digit>, a0: Seq<Digit>, i: int, d: Digit)
    requires
        0 <= i < pre.len(),
        pre.len() == a0.len(),
        pre.skip(i) == a0.skip(i),
    ensures
        pre.update(i, d).skip(i + 1) =~= a0.skip(i + 1),
        pre.update(i, d).take(i + 1).drop_last() =~= pre.take(i),
        pre.update(i, d).take(i) =~= pre.take(i),
        pre.skip(i)[0] == a0[i],
{
    assert forall|j: int| 0 <= j < pre.len() - (i + 1) implies #[trigger] pre.update(i, d).skip(
        i + 1,
    )[j] == a0.skip(i + 1)[j] by {
        assert(pre.skip(i)[j + 1] == a0.skip(i)[j + 1]);
    }
    assert(pre.skip(i)[0] == a0.skip(i)[0]);
}

/// The sum of two decimal integers.
pub fn add<A: DecimalArith, B: DecimalArith>(a: &A, b: &B) -> (r: DecimalInt)
    ensures
        seq_value(r@) == seq_value(a.digit_seq()) + seq_value(b.digit_seq()),
        r@.len() <= a.digit_seq().len() + 1 || r@.len() <= b.digit_seq().len() + 1,
{
    let mut result = a.to_basic();
    let bl = b.len();
    while result.len() < bl
        invariant
            bl == b.digit_seq().len(),
            seq_value(result@) == seq_value(a.digit_seq()),
            result@.len() <= bl || result@.len() == a.digit_seq().len(),
        decreases bl - result@.len(),
    {
        proof {
            lemma_push_zero(result@);
        }
        result.push(Digit::Zero);
    }
    add_inplace(&mut result, b);
    result
}

/// Add `b` into `a`, growing `a` by at most one digit.
fn add_inplace<T: DecimalArith>(a: &mut DecimalInt, b: &T)
    requires
        b.digit_seq().len() <= old(a)@.len(),
    ensures
        seq_value(final (a)@) == seq_value(old(a)@) + seq_value(b.digit_seq()),
        old(a)@.len() <= final (a)@.len() <= old(a)@.len() + 1,
{
    let bl = b.len();
    let n = a.len();
    let ghost a0 = a@;
    let ghost bs = b.digit_seq();
    let mut carry: bool = false;
    let mut i: usize = 0;
    while i < bl
        invariant
            bl == bs.len(),
            bs == b.digit_seq(),
            n == a@.len() == a0.len(),
            bl <= n,
            0 <= i <= bl,
            a@.skip(i as int) == a0.skip(i as int),
            seq_value(a@.take(i as int)) + (if carry {
                1int
            } else {
                0int
            }) * pow10(i as nat) == seq_value(a0.take(i as int)) + seq_value(bs.take(i as int)),
        decreases bl - i,
    {
        let ad = a.get(i);
        let bd = b.get(i);
        let c: u8 = if carry {
            1
        } else {
            0
        };
        proof {
            assert(a@[i as int] == a@.skip(i as int)[0]);
            assert(a0.skip(i as int)[0] == a0[i as int]);
        }
        let mut new_value: u8 = ad.value() + bd.value() + c;
        let new_carry = new_value >= 10;
        if new_carry {
            new_value = new_value - 10;
        }
        let ghost pre = a@;
        a.set_digit(i, Digit::new(new_value));
        proof {
            lemma_update_skip(pre, a0, i as int, a@[i as int]);
            assert(a@.skip(i + 1) =~= a0.skip(i + 1));
            assert(a@.take(i + 1).drop_last() =~= pre.take(i as int));
            assert(pre.take(i as int) == a@.take(i as int));
            lemma_seq_value_take_succ(a@, i as int);
            lemma_seq_value_take_succ(a0, i as int);
            lemma_seq_value_take_succ(bs, i as int);
                        lemma_pow10_pos(i as nat);
            let p = pow10(i as nat);
            assert(digit_val(a@[i as int]) == digit_val(a0[i as int]) + digit_val(bs[i as int]) + (
            if carry {
                1int
            } else {
                0int
            }) - (if new_carry {
                10int
            } else {
                0int
            }));
            assert((digit_val(a0[i as int]) + digit_val(bs[i as int]) + (if carry {
                1int
            } else {
                0int
            }) - (if new_carry {
                10int
            } else {
                0int
            })) * p == digit_val(a0[i as int]) * p + digit_val(bs[i as int]) * p + (if carry {
                1int
            } else {
                0int
            }) * p - (if new_carry {
                10int
            } else {
                0int
            }) * p) by (nonlinear_arith);
            assert(pow10((i + 1) as nat) == 10 * p);
            assert((if new_carry {
                1int
            } else {
                0int
            }) * (10 * p) == (if new_carry {
                10int
            } else {
                0int
            }) * p) by (nonlinear_arith);
        }
        carry = new_carry;
        i = i + 1;
    }
    proof {
        lemma_seq_value_take_all(bs);
    }
    // Propagate a remaining carry into the higher digits of `a`.
    while i < n && carry
        invariant
            bl == bs.len(),
            n == a@.len() == a0.len(),
            bl <= i <= n,
            a@.skip(i as int) == a0.skip(i as int),
            seq_value(a@.take(i as int)) + (if carry {
                1int
            } else {
                0int
            }) * pow10(i as nat) == seq_value(a0.take(i as int)) + seq_value(bs),
        decreases n - i,
    {
        let ad = a.get(i);
        proof {
            assert(a@[i as int] == a@.skip(i as int)[0]);
            assert(a0.skip(i as int)[0] == a0[i as int]);
        }
        let mut new_value: u8 = ad.value() + 1;
        let new_carry = new_value >= 10;
        if new_carry {
            new_value = new_value - 10;
        }
        let ghost pre = a@;
        a.set_digit(i, Digit::new(new_value));
        proof {
            lemma_update_skip(pre, a0, i as int, a@[i as int]);
            assert(a@.skip(i + 1) =~= a0.skip(i + 1));
            assert(a@.take(i + 1).drop_last() =~= pre.take(i as int));
            assert(pre.take(i as int) == a@.take(i as int));
            lemma_seq_value_take_succ(a@, i as int);
            lemma_seq_value_take_succ(a0, i as int);
            lemma_pow10_pos(i as nat);
            let p = pow10(i as nat);
            assert(digit_val(a@[i as int]) == digit_val(a0[i as int]) + 1 - (if new_carry {
                10int
            } else {
                0int
            }));
            assert((digit_val(a0[i as int]) + 1 - (if new_carry {
                10int
            } else {
                0int
            })) * p == digit_val(a0[i as int]) * p + 1 * p - (if new_carry {
                10int
            } else {
                0int
            }) * p) by (nonlinear_arith);
            assert(pow10((i + 1) as nat) == 10 * p);
            assert((if new_carry {
                1int
            } else {
                0int
            }) * (10 * p) == (if new_carry {
                10int
            } else {
                0int
            }) * p) by (nonlinear_arith);
        }
        carry = new_carry;
        i = i + 1;
    }
    proof {
        lemma_seq_value_split(a@, i as int);
        lemma_seq_value_split(a0, i as int);
    }
    if carry {
        proof {
            assert(i == n);
            lemma_seq_value_take_all(a@);
            lemma_seq_value_take_all(a0);
        }
        let ghost pre = a@;
        a.push(Digit::One);
        proof {
            assert(a@.drop_last() =~= pre);
            assert(a@.last() == Digit::One);
        }
    }
}

/// Powers of ten grow with the exponent.
proof fn lemma_pow10_mono(m: nat, n: nat)
    requires
        m <= n,
    ensures
        pow10(m) <= pow10(n),
    decreases n,
{
    if m < n {
        lemma_pow10_mono(m, (n - 1) as nat);
        lemma_pow10_pos((n - 1) as nat);
    }
}

/// Subtract `b` from `a` in place, wrapping modulo `pow10(a.len())`;
/// reports whether the subtraction wrapped.
pub fn overflowing_sub_inplace<T: DecimalArith>(a: &mut DecimalInt, b: &T) -> (overflowed: bool)
    requires
        b.digit_seq().len() <= old(a)@.len(),
    ensures
        final (a)@.len() == old(a)@.len(),
        !overflowed ==> seq_value(old(a)@) >= seq_value(b.digit_seq()) && seq_value(final (a)@)
            == seq_value(old(a)@) - seq_value(b.digit_seq()),
        overflowed ==> seq_value(old(a)@) < seq_value(b.digit_seq()) && seq_value(final (a)@)
            == seq_value(old(a)@) - seq_value(b.digit_seq()) + pow10(old(a)@.len()),
{
    let bl = b.len();
    let n = a.len();
    let ghost a0 = a@;
    let ghost bs = b.digit_seq();
    let mut borrow: bool = false;
    let mut i: usize = 0;
    while i < bl
        invariant
            bl == bs.len(),
            bs == b.digit_seq(),
            n == a@.len() == a0.len(),
            bl <= n,
            0 <= i <= bl,
            a@.skip(i as int) == a0.skip(i as int),
            seq_value(a0.take(i as int)) + (if borrow {
                1int
            } else {
                0int
            }) * pow10(i as nat) == seq_value(a@.take(i as int)) + seq_value(bs.take(i as int)),
        decreases bl - i,
    {
        let ad = a.get(i);
        let bd = b.get(i);
        let c: u8 = if borrow {
            1
        } else {
            0
        };
        proof {
            assert(a@[i as int] == a@.skip(i as int)[0]);
            assert(a0.skip(i as int)[0] == a0[i as int]);
        }
        let needs_borrow = ad.value() < c + bd.value();
        let new_value: u8 = (if needs_borrow {
            10
        } else {
            0
        }) + ad.value() - c - bd.value();
        let ghost pre = a@;
        a.set_digit(i, Digit::new(new_value));
        proof {
            lemma_update_skip(pre, a0, i as int, a@[i as int]);
            assert(a@.skip(i + 1) =~= a0.skip(i + 1));
            assert(a@.take(i + 1).drop_last() =~= pre.take(i as int));
            assert(pre.take(i as int) == a@.take(i as int));
            lemma_seq_value_take_succ(a@, i as int);
            lemma_seq_value_take_succ(a0, i as int);
            lemma_seq_value_take_succ(bs, i as int);
            lemma_pow10_pos(i as nat);
            let p = pow10(i as nat);
            assert(digit_val(a@[i as int]) == digit_val(a0[i as int]) - digit_val(bs[i as int]) - (
            if borrow {
                1int
            } else {
                0int
            }) + (if needs_borrow {
                10int
            } else {
                0int
            }));
            assert((digit_val(a0[i as int]) - digit_val(bs[i as int]) - (if borrow {
                1int
            } else {
                0int
            }) + (if needs_borrow {
                10int
            } else {
                0int
            })) * p == digit_val(a0[i as int]) * p - digit_val(bs[i as int]) * p - (if borrow {
                1int
            } else {
                0int
            }) * p + (if needs_borrow {
                10int
            } else {
                0int
            }) * p) by (nonlinear_arith);
            assert(pow10((i + 1) as nat) == 10 * p);
            assert((if needs_borrow {
                1int
            } else {
                0int
            }) * (10 * p) == (if needs_borrow {
                10int
            } else {
                0int
            }) * p) by (nonlinear_arith);
        }
        borrow = needs_borrow;
        i = i + 1;
    }
    proof {
        lemma_seq_value_take_all(bs);
    }
    // Propagate a remaining borrow into the higher digits of `a`.
    while i < n && borrow
        invariant
            bl == bs.len(),
            n == a@.len() == a0.len(),
            bl <= i <= n,
            a@.skip(i as int) == a0.skip(i as int),
            seq_value(a0.take(i as int)) + (if borrow {
                1int
            } else {
                0int
            }) * pow10(i as nat) == seq_value(a@.take(i as int)) + seq_value(bs),
        decreases n - i,
    {
        let ad = a.get(i);
        proof {
            assert(a@[i as int] == a@.skip(i as int)[0]);
            assert(a0.skip(i as int)[0] == a0[i as int]);
        }
        let new_borrow = ad.value() == 0;
        let new_value: u8 = if new_borrow {
            9
        } else {
            ad.value() - 1
        };
        let ghost pre = a@;
        a.set_digit(i, Digit::new(new_value));
        proof {
            lemma_update_skip(pre, a0, i as int, a@[i as int]);
            assert(a@.skip(i + 1) =~= a0.skip(i + 1));
            assert(a@.take(i + 1).drop_last() =~= pre.take(i as int));
            assert(pre.take(i as int) == a@.take(i as int));
            lemma_seq_value_take_succ(a@, i as int);
            lemma_seq_value_take_succ(a0, i as int);
            lemma_pow10_pos(i as nat);
            let p = pow10(i as nat);
            assert(digit_val(a@[i as int]) == digit_val(a0[i as int]) - 1 + (if new_borrow {
                10int
            } else {
                0int
            }));
            assert((digit_val(a0[i as int]) - 1 + (if new_borrow {
                10int
            } else {
                0int
            })) * p == digit_val(a0[i as int]) * p - 1 * p + (if new_borrow {
                10int
            } else {
                0int
            }) * p) by (nonlinear_arith);
            assert(pow10((i + 1) as nat) == 10 * p);
            assert((if new_borrow {
                1int
            } else {
                0int
            }) * (10 * p) == (if new_borrow {
                10int
            } else {
                0int
            }) * p) by (nonlinear_arith);
        }
        borrow = new_borrow;
        i = i + 1;
    }
    proof {
        lemma_seq_value_split(a@, i as int);
        lemma_seq_value_split(a0, i as int);
        lemma_seq_value_nonneg(a@.take(i as int));
        lemma_seq_value_nonneg(bs);
        if borrow {
            assert(i == n);
            lemma_seq_value_take_all(a@);
            lemma_seq_value_take_all(a0);
            lemma_seq_value_bound(a@);
        } else {
            lemma_seq_value_nonneg(a@);
        }
    }
    borrow
}

/// The wrapping difference of two decimal integers, with a wrap report.
pub fn overflowing_sub<A: DecimalArith, B: DecimalArith>(a: &A, b: &B) -> (r: (DecimalInt, bool))
    ensures
        !r.1 ==> seq_value(a.digit_seq()) >= seq_value(b.digit_seq()) && seq_value(r.0@)
            == seq_value(a.digit_seq()) - seq_value(b.digit_seq()),
        r.1 ==> seq_value(a.digit_seq()) < seq_value(b.digit_seq()) && seq_value(r.0@)
            == seq_value(a.digit_seq()) - seq_value(b.digit_seq()) + pow10(r.0@.len()),
{
    let mut result = a.to_basic();
    let bl = b.len();
    while result.len() < bl
        invariant
            bl == b.digit_seq().len(),
            seq_value(result@) == seq_value(a.digit_seq()),
        decreases bl - result@.len(),
    {
        proof {
            lemma_push_zero(result@);
        }
        result.push(Digit::Zero);
    }
    let overflowed = overflowing_sub_inplace(&mut result, b);
    (result, overflowed)
}

/// The difference of two decimal integers; the first operand must not be
/// smaller than the second.
pub fn sub<A: DecimalArith, B: DecimalArith>(a: &A, b: &B) -> (r: DecimalInt)
    requires
        seq_value(a.digit_seq()) >= seq_value(b.digit_seq()),
    ensures
        seq_value(r@) == seq_value(a.digit_seq()) - seq_value(b.digit_seq()),
{
    let (value, overflowed) = overflowing_sub(a, b);
    proof {
        assert(!overflowed);
    }
    value
}

/// Subtract `b` from `a` in place; `a` must not be smaller than `b`.
pub fn sub_inplace<T: DecimalArith>(a: &mut DecimalInt, b: &T)
    requires
        b.digit_seq().len() <= old(a)@.len(),
        seq_value(old(a)@) >= seq_value(b.digit_seq()),
    ensures
        final (a)@.len() == old(a)@.len(),
        seq_value(final (a)@) == seq_value(old(a)@) - seq_value(b.digit_seq()),
{
    let overflowed = overflowing_sub_inplace(a, b);
    proof {
        assert(!overflowed);
    }
}

/// Compare the denoted values of two decimal integers.
pub fn cmp<A: DecimalArith, B: DecimalArith>(a: &A, b: &B) -> (r: core::cmp::Ordering)
    ensures
        (r == core::cmp::Ordering::Less) == (seq_value(a.digit_seq()) < seq_value(b.digit_seq())),
        (r == core::cmp::Ordering::Equal) == (seq_value(a.digit_seq()) == seq_value(
            b.digit_seq(),
        )),
        (r == core::cmp::Ordering::Greater) == (seq_value(a.digit_seq()) > seq_value(
            b.digit_seq(),
        )),
{
    let ghost sa = a.digit_seq();
    let ghost sb = b.digit_seq();
    let al = a.len();
    let bl = b.len();
    let len: usize;
    if al < bl {
        let mut j: usize = al;
        while j < bl
            invariant
                al <= j <= bl,
                bl == sb.len(),
                sb == b.digit_seq(),
                al == sa.len(),
                sa == a.digit_seq(),
                forall|k: int| al <= k < j ==> sb[k] == Digit::Zero,
            decreases bl - j,
        {
            if b.get(j) != Digit::Zero {
                proof {
                    lemma_high_digit_dominates(sa, sb, j as int);
                }
                return core::cmp::Ordering::Less;
            }
            j = j + 1;
        }
        len = al;
    } else if al == bl {
        len = al;
    } else {
        let mut j: usize = bl;
        while j < al
            invariant
                bl <= j <= al,
                bl == sb.len(),
                sb == b.digit_seq(),
                al == sa.len(),
                sa == a.digit_seq(),
                forall|k: int| bl <= k < j ==> sa[k] == Digit::Zero,
            decreases al - j,
        {
            if a.get(j) != Digit::Zero {
                proof {
                    lemma_high_digit_dominates(sb, sa, j as int);
                }
                return core::cmp::Ordering::Greater;
            }
            j = j + 1;
        }
        len = bl;
    }
    proof {
        lemma_common_prefix_values(sa, sb, len as int);
    }
    let mut i: usize = len;
    while i > 0
        invariant
            len <= sa.len(),
            len <= sb.len(),
            sa == a.digit_seq(),
            sb == b.digit_seq(),
            0 <= i <= len,
            seq_value(sa) - seq_value(sb) == seq_value(sa.take(len as int)) - seq_value(
                sb.take(len as int),
            ),
            forall|k: int| i <= k < len ==> sa[k] == sb[k],
        decreases i,
    {
        i = i - 1;
        let ad = a.get(i);
        let bd = b.get(i);
        if ad.value() > bd.value() {
            proof {
                lemma_mismatch_orders(sa, sb, len as int, i as int);
            }
            return core::cmp::Ordering::Greater;
        }
        if ad.value() < bd.value() {
            proof {
                lemma_mismatch_orders(sb, sa, len as int, i as int);
            }
            return core::cmp::Ordering::Less;
        }
        proof {
            assert(digit_val(sa[i as int]) == digit_val(sb[i as int]));
            assert(sa[i as int] == sb[i as int]);
        }
    }
    proof {
        assert(sa.take(len as int) =~= sb.take(len as int));
    }
    core::cmp::Ordering::Equal
}

/// A sequence with a nonzero digit above the other's length denotes more.
proof fn lemma_high_digit_dominates(lo: Seq<Digit>, hi: Seq<Digit>, j: int)
    requires
        lo.len() <= j < hi.len(),
        hi[j] != Digit::Zero,
    ensures
        seq_value(lo) < seq_value(hi),
{
    lemma_seq_value_bound(lo);
    lemma_seq_value_split(hi, j);
    lemma_seq_value_head(hi.skip(j));
    lemma_seq_value_nonneg(hi.skip(j).drop_first());
    lemma_seq_value_nonneg(hi.take(j));
    assert(hi.skip(j)[0] == hi[j]);
    assert(seq_value(hi.skip(j)) >= 1);
    lemma_pow10_mono(lo.len(), j as nat);
    lemma_pow10_pos(lo.len());
    assert(pow10(j as nat) * seq_value(hi.skip(j)) >= pow10(j as nat) * 1) by (nonlinear_arith)
        requires
            seq_value(hi.skip(j)) >= 1,
            pow10(j as nat) >= 1,
    ;
}

/// When all digits at and above `len` are zero, the value is the value of
/// the first `len` digits.
proof fn lemma_common_prefix_values(sa: Seq<Digit>, sb: Seq<Digit>, len: int)
    requires
        0 <= len <= sa.len(),
        0 <= len <= sb.len(),
        forall|k: int| len <= k < sa.len() ==> sa[k] == Digit::Zero,
        forall|k: int| len <= k < sb.len() ==> sb[k] == Digit::Zero,
    ensures
        seq_value(sa) == seq_value(sa.take(len)),
        seq_value(sb) == seq_value(sb.take(len)),
{
    lemma_seq_value_split(sa, len);
    lemma_seq_value_split(sb, len);
    lemma_seq_value_zero_iff(sa.skip(len));
    lemma_seq_value_zero_iff(sb.skip(len));
    assert(forall|k: int| 0 <= k < sa.skip(len).len() ==> sa.skip(len)[k] == Digit::Zero);
    assert(forall|k: int| 0 <= k < sb.skip(len).len() ==> sb.skip(len)[k] == Digit::Zero);
    assert(pow10(len as nat) * 0 == 0) by (nonlinear_arith);
}

/// With the digits above `i` equal and a larger digit at `i`,
/// the first prefix denotes strictly more.
proof fn lemma_mismatch_orders(sa: Seq<Digit>, sb: Seq<Digit>, len: int, i: int)
    requires
        0 <= i < len,
        len <= sa.len(),
        len <= sb.len(),
        forall|k: int| i < k < len ==> sa[k] == sb[k],
        digit_val(sa[i]) > digit_val(sb[i]),
    ensures
        seq_value(sa.take(len)) > seq_value(sb.take(len)),
{
    let ta = sa.take(len);
    let tb = sb.take(len);
    lemma_seq_value_split(ta, i);
    lemma_seq_value_split(tb, i);
    lemma_seq_value_head(ta.skip(i));
    lemma_seq_value_head(tb.skip(i));
    assert(ta.skip(i).drop_first() =~= tb.skip(i).drop_first());
    assert(ta.skip(i)[0] == sa[i]);
    assert(tb.skip(i)[0] == sb[i]);
    assert(seq_value(ta.skip(i)) >= seq_value(tb.skip(i)) + 1);
    lemma_seq_value_bound(ta.take(i));
    lemma_seq_value_bound(tb.take(i));
    assert(ta.take(i) =~= sa.take(i));
    assert(tb.take(i) =~= sb.take(i));
    lemma_pow10_pos(i as nat);
    assert(pow10(i as nat) * seq_value(ta.skip(i)) >= pow10(i as nat) * (seq_value(tb.skip(i))
        + 1)) by (nonlinear_arith)
        requires
            seq_value(ta.skip(i)) >= seq_value(tb.skip(i)) + 1,
            pow10(i as nat) >= 1,
    ;
    assert(pow10(i as nat) * (seq_value(tb.skip(i)) + 1) == pow10(i as nat) * seq_value(
        tb.skip(i),
    ) + pow10(i as nat)) by (nonlinear_arith);
}


/// Powers of ten multiply by adding exponents.
proof fn lemma_pow10_adds(m: nat, n: nat)
    ensures
        pow10(m + n) == pow10(m) * pow10(n),
    decreases m,
{
    if m == 0 {
        assert(pow10(0) == 1);
        assert(1 * pow10(n) == pow10(n)) by (nonlinear_arith);
    } else {
        lemma_pow10_adds((m - 1) as nat, n);
        assert(pow10(m + n) == 10 * pow10((m - 1) as nat + n));
        assert(10 * (pow10((m - 1) as nat) * pow10(n)) == (10 * pow10((m - 1) as nat)) * pow10(
            n,
        )) by (nonlinear_arith);
    }
}

/// Replacing the digit at place `p` moves the value by the digit change
/// at that place.
proof fn lemma_seq_value_update(s: Seq<Digit>, p: int, d: Digit)
    requires
        0 <= p < s.len(),
    ensures
        seq_value(s.update(p, d)) == seq_value(s) + (digit_val(d) - digit_val(s[p])) * pow10(
            p as nat,
        ),
{
    let t = s.update(p, d);
    lemma_seq_value_split(s, p);
    lemma_seq_value_split(t, p);
    assert(t.take(p) =~= s.take(p));
    lemma_seq_value_head(s.skip(p));
    lemma_seq_value_head(t.skip(p));
    assert(t.skip(p).drop_first() =~= s.skip(p).drop_first());
    assert(t.skip(p)[0] == d);
    assert(s.skip(p)[0] == s[p]);
    assert(seq_value(t.skip(p)) == seq_value(s.skip(p)) + digit_val(d) - digit_val(s[p]));
    assert(pow10(p as nat) * (seq_value(s.skip(p)) + digit_val(d) - digit_val(s[p])) == pow10(
        p as nat,
    ) * seq_value(s.skip(p)) + (digit_val(d) - digit_val(s[p])) * pow10(p as nat))
        by (nonlinear_arith);
}

/// The product of two decimal integers, by grade-school multiplication.
pub fn mul<A: DecimalArith, B: DecimalArith>(a: &A, b: &B) -> (r: DecimalInt)
    requires
        a.digit_seq().len() + b.digit_seq().len() <= usize::MAX,
    ensures
        seq_value(r@) == seq_value(a.digit_seq()) * seq_value(b.digit_seq()),
        r@.len() == a.digit_seq().len() + b.digit_seq().len(),
{
    let ghost sa = a.digit_seq();
    let ghost sb = b.digit_seq();
    let al = a.len();
    let bl = b.len();
    let mut product = DecimalInt::zero();
    let mut z: usize = 0;
    while z < al + bl
        invariant
            al + bl <= usize::MAX,
            product@.len() == z <= al + bl,
            forall|k: int| 0 <= k < z ==> product@[k] == Digit::Zero,
        decreases al + bl - z,
    {
        product.push(Digit::Zero);
        z = z + 1;
    }
    proof {
        lemma_seq_value_zero_iff(product@);
        lemma_seq_value_nonneg(sa);
        lemma_seq_value_nonneg(sb);
        assert(sb.take(0) =~= Seq::<Digit>::empty());
        assert(seq_value(sa) * 0 == 0) by (nonlinear_arith);
    }
    let mut j: usize = 0;
    while j < bl
        invariant
            sa == a.digit_seq(),
            sb == b.digit_seq(),
            al == sa.len(),
            bl == sb.len(),
            al + bl <= usize::MAX,
            0 <= j <= bl,
            product@.len() == al + bl,
            seq_value(product@) == seq_value(sa) * seq_value(sb.take(j as int)),
            forall|k: int| j + al <= k < al + bl ==> product@[k] == Digit::Zero,
        decreases bl - j,
    {
        let bd = b.get(j);
        let ghost d = digit_val(sb[j as int]);
        let mut carry: u8 = 0;
        let mut i: usize = 0;
        while i < al
            invariant
                sa == a.digit_seq(),
                sb == b.digit_seq(),
                al == sa.len(),
                bl == sb.len(),
                al + bl <= usize::MAX,
                0 <= j < bl,
                0 <= i <= al,
                bd == sb[j as int],
                d == digit_val(sb[j as int]),
                carry <= 9,
                product@.len() == al + bl,
                seq_value(product@) + carry * pow10((i + j) as nat) == seq_value(sa) * seq_value(
                    sb.take(j as int),
                ) + seq_value(sa.take(i as int)) * d * pow10(j as nat),
                forall|k: int| j + al <= k < al + bl ==> product@[k] == Digit::Zero,
            decreases al - i,
        {
            let ad = a.get(i);
            let old_digit = product.get(i + j);
            let value: u8 = old_digit.value() + carry + ad.value() * bd.value();
            let new_carry = value / 10;
            let new_digit = value % 10;
            let ghost pre = product@;
            product.set_digit(i + j, Digit::new(new_digit));
            proof {
                let p = (i + j) as int;
                lemma_seq_value_update(pre, p, product@[p]);
                lemma_seq_value_take_succ(sa, i as int);
                lemma_pow10_adds(i as nat, j as nat);
                lemma_pow10_adds((i + 1) as nat, j as nat);
                lemma_pow10_pos((i + j) as nat);
                let pw = pow10((i + j) as nat);
                let pj = pow10(j as nat);
                let pi = pow10(i as nat);
                // The digit written plus ten times the carry out equals
                // what was accumulated at this place.
                assert(digit_val(product@[p]) + 10 * new_carry == digit_val(pre[p]) + carry
                    + digit_val(sa[i as int]) * d);
                assert(seq_value(product@) == seq_value(pre) + (digit_val(sa[i as int]) * d + carry
                    - 10 * new_carry) * pw) by (nonlinear_arith)
                    requires
                        seq_value(product@) == seq_value(pre) + (digit_val(product@[p])
                            - digit_val(pre[p])) * pw,
                        digit_val(product@[p]) + 10 * new_carry == digit_val(pre[p]) + carry
                            + digit_val(sa[i as int]) * d,
                ;
                assert(pow10((i + j + 1) as nat) == 10 * pw);
                // Rebalance the carry term across the place boundary.
                assert((digit_val(sa[i as int]) * d + carry - 10 * new_carry) * pw + new_carry * (
                10 * pw) == (digit_val(sa[i as int]) * d) * pw + carry * pw)
                    by (nonlinear_arith);
                // The new term is the digit's contribution at its place.
                lemma_mul_expand(
                    seq_value(sa.take(i as int)),
                    digit_val(sa[i as int]),
                    pi,
                    d,
                    pj,
                );
                assert(pw == pi * pj);
                assert((digit_val(sa[i as int]) * d) * pw == digit_val(sa[i as int]) * d * (pi
                    * pj)) by (nonlinear_arith)
                    requires
                        pw == pi * pj,
                ;
            }
            carry = new_carry;
            i = i + 1;
        }
        // Deposit the final carry one place above the last digit written.
        let ghost pre = product@;
        proof {
            assert(pre[(al + j) as int] == Digit::Zero);
        }
        product.set_digit(al + j, Digit::new(carry));
        proof {
            let p = (al + j) as int;
            lemma_seq_value_update(pre, p, product@[p]);
            lemma_seq_value_take_all(sa);
            lemma_seq_value_take_succ(sb, j as int);
            lemma_pow10_adds(al as nat, j as nat);
            let pw = pow10((al + j) as nat);
            let pj = pow10(j as nat);
            assert(seq_value(product@) == seq_value(pre) + carry * pw);
            assert(pw == pow10(al as nat) * pj);
            assert(seq_value(sa) * (seq_value(sb.take(j as int)) + digit_val(sb[j as int]) * pj)
                == seq_value(sa) * seq_value(sb.take(j as int)) + seq_value(sa) * (digit_val(
                sb[j as int],
            ) * pj)) by (nonlinear_arith);
            // Reassociate the operand value with the digit contribution.
            assert(seq_value(sa) * d * pj == seq_value(sa) * (d * pj)) by (nonlinear_arith);
            assert(seq_value(sa.take(al as int)) * d * pj == seq_value(sa) * d * pj);
            assert(forall|k: int|
                j + 1 + al <= k < al + bl ==> product@[k] == pre[k] && pre[k] == Digit::Zero);
        }
        j = j + 1;
    }
    proof {
        assert(sb.take(bl as int) =~= sb);
    }
    product
}


/// The quotient of two decimal integers, computed through binary
/// arbitrary-precision integers; the divisor must not be zero.
pub fn div<A: DecimalArith, B: DecimalArith>(a: &A, b: &B) -> (r: DecimalInt)
    requires
        seq_value(b.digit_seq()) != 0,
    ensures
        seq_value(r@) == seq_value(a.digit_seq()) / seq_value(b.digit_seq()),
        is_trimmed(r@),
{
    let ab = a.to_basic();
    let bb = b.to_basic();
    let big_a = ab.as_bigint();
    let big_b = bb.as_bigint();
    proof {
        lemma_seq_value_nonneg(b.digit_seq());
    }
    let q = crate::bigint::big_div(&big_a, &big_b);
    DecimalInt::from_bigint(&q)
}


/// Pure algebra: expanding a digit at its place through two factors.
proof fn lemma_mul_expand(x: int, y: int, pi: int, d: int, pj: int)
    by (nonlinear_arith)
    ensures
        (x + y * pi) * d * pj == x * d * pj + y * d * (pi * pj),
{
}


impl PartialEq for DecimalInt {
    /// Numeric equality: trailing zeros do not matter.
    fn eq(&self, other: &DecimalInt) -> (r: bool) {
        match cmp(self, other) {
            core::cmp::Ordering::Equal => true,
            _ => false,
        }
    }
}

impl vstd::std_specs::cmp::PartialEqSpecImpl for DecimalInt {
    open spec fn obeys_eq_spec() -> bool {
        true
    }

    open spec fn eq_spec(&self, other: &DecimalInt) -> bool {
        seq_value(self@) == seq_value(other@)
    }
}

} // verus!
