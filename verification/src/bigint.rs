//! The boundary to the arbitrary-precision binary integers of `num_bigint`,
//! used only to divide decimal integers.
//!
//! A `BigUint` is opaque here; the uninterpreted spec function [`big_value`]
//! names the number it holds, and each trusted wrapper below states how one
//! `num_bigint` call relates that number to plain base-ten digit bytes.

use vstd::prelude::*;

verus! {

#[verifier::external_type_specification]
#[verifier::external_body]
pub struct ExBigUint(num_bigint::BigUint);

/// The number a `BigUint` holds.
pub uninterp spec fn big_value(x: num_bigint::BigUint) -> nat;

/// The number a little-endian base-ten byte sequence denotes.
pub open spec fn bytes_value(s: Seq<u8>) -> int
    decreases s.len(),
{
    if s.len() == 0 {
        0
    } else {
        bytes_value(s.drop_last()) + s.last() * crate::decint::pow10((s.len() - 1) as nat)
    }
}

pub proof fn lemma_bytes_value_nonneg(s: Seq<u8>)
    requires
        forall|i: int| 0 <= i < s.len() ==> s[i] < 10,
    ensures
        bytes_value(s) >= 0,
    decreases s.len(),
{
    if s.len() > 0 {
        assert(forall|i: int| 0 <= i < s.len() - 1 ==> s.drop_last()[i] == s[i]);
        lemma_bytes_value_nonneg(s.drop_last());
        crate::decint::lemma_pow10_pos((s.len() - 1) as nat);
        assert(s.last() * crate::decint::pow10((s.len() - 1) as nat) >= 0) by (nonlinear_arith)
            requires
                s.last() >= 0,
                crate::decint::pow10((s.len() - 1) as nat) >= 1,
        ;
    }
}

/// Byte digits that match digit values place for place denote the same
/// number.
pub proof fn lemma_bytes_value_matches(s: Seq<u8>, d: Seq<crate::digit::Digit>)
    requires
        s.len() == d.len(),
        forall|i: int| 0 <= i < s.len() ==> s[i] == crate::digit::digit_val(d[i]),
    ensures
        bytes_value(s) == crate::decint::seq_value(d),
    decreases s.len(),
{
    if s.len() > 0 {
        assert(forall|i: int|
            0 <= i < s.len() - 1 ==> s.drop_last()[i] == s[i] && d.drop_last()[i] == d[i]);
        lemma_bytes_value_matches(s.drop_last(), d.drop_last());
        assert(s.last() == crate::digit::digit_val(d.last()));
    }
}

/// Relies on `num_bigint::BigUint::from_radix_le`: each byte below ten is
/// taken as one base-ten digit, least significant first.
#[verifier::external_body]
pub(crate) fn big_from_digits(digits: &Vec<u8>) -> (r: num_bigint::BigUint)
    requires
        forall|i: int| 0 <= i < digits@.len() ==> digits@[i] < 10,
    ensures
        big_value(r) == bytes_value(digits@),
{
    num_bigint::BigUint::from_radix_le(digits.as_slice(), 10).unwrap()
}

/// Relies on the `Div` impl for `&num_bigint::BigUint`: floor division of
/// arbitrary-precision integers; the divisor must not be zero.
#[verifier::external_body]
pub(crate) fn big_div(a: &num_bigint::BigUint, b: &num_bigint::BigUint) -> (r:
    num_bigint::BigUint)
    requires
        big_value(*b) > 0,
    ensures
        big_value(r) == big_value(*a) / big_value(*b),
{
    a / b
}

/// Relies on `num_bigint::BigUint::to_radix_le`: the held number as base-ten
/// digit bytes, least significant first, with no trailing zero byte except a
/// lone zero standing for the number zero.
#[verifier::external_body]
pub(crate) fn big_to_digits(a: &num_bigint::BigUint) -> (r: Vec<u8>)
    ensures
        bytes_value(r@) == big_value(*a),
        forall|i: int| 0 <= i < r@.len() ==> r@[i] < 10,
        r@.len() >= 1,
{
    a.to_radix_le(10)
}

} // verus!
