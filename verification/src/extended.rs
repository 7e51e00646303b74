//! The raw representation of an extended-precision (80-bit) floating-point
//! value, and the validation applied to its text form.
//!
//! The arithmetic on this representation lives outside this library; here it
//! is only a ten-byte container whose round trips are exact, plus the checks
//! a literal must pass before it may be handed to a parser.

use vstd::prelude::*;

verus! {

/// An extended-precision floating-point value, as its ten raw bytes.
#[derive(Clone, Copy, Debug)]
pub struct ExtendedFloat(pub [u8; 10]);

impl PartialEq for ExtendedFloat {
    /// Bitwise equality of the two representations.
    fn eq(&self, other: &ExtendedFloat) -> (r: bool) {
        let mut i: usize = 0;
        while i < 10
            invariant
                0 <= i <= 10,
                forall|j: int| 0 <= j < i ==> self.0@[j] == other.0@[j],
            decreases 10 - i,
        {
            if self.0[i] != other.0[i] {
                return false;
            }
            i = i + 1;
        }
        proof {
            assert(self.0@ =~= other.0@);
        }
        true
    }
}

impl vstd::std_specs::cmp::PartialEqSpecImpl for ExtendedFloat {
    open spec fn obeys_eq_spec() -> bool {
        true
    }

    open spec fn eq_spec(&self, other: &ExtendedFloat) -> bool {
        self.0@ == other.0@
    }
}

impl ExtendedFloat {
    /// The value with exactly these bytes.
    pub fn from_bits(bits: [u8; 10]) -> (r: ExtendedFloat)
        ensures
            r.0 == bits,
    {
        ExtendedFloat(bits)
    }

    /// The raw bytes of the value.
    pub fn to_bits(self) -> (r: [u8; 10])
        ensures
            r == self.0,
    {
        self.0
    }
}

/// The reason a string was rejected as an extended-float literal.
#[derive(Clone, Copy, Debug, PartialEq, Eq, Structural)]
pub enum ExtendedFloatParseError {
    Empty,
    NullByte,
    LeadingWhitespace(char),
    TrailingChars(usize),
    InvalidFloat,
}

/// Check the shape of an extended-float literal: it must be non-empty,
/// must not start with an ASCII space character, and must carry no NUL byte.
pub fn check_literal_bytes(s: &Vec<u8>) -> (r: Result<(), ExtendedFloatParseError>)
    ensures
        s@.len() == 0 ==> r == Err::<(), ExtendedFloatParseError>(ExtendedFloatParseError::Empty),
        s@.len() > 0 && is_ascii_space(s@[0]) ==> r == Err::<(), ExtendedFloatParseError>(
            ExtendedFloatParseError::LeadingWhitespace(s@[0] as char),
        ),
        s@.len() > 0 && !is_ascii_space(s@[0]) && (exists|i: int| 0 <= i < s@.len() && s@[i] == 0)
            ==> r == Err::<(), ExtendedFloatParseError>(ExtendedFloatParseError::NullByte),
        s@.len() > 0 && !is_ascii_space(s@[0]) && (forall|i: int|
            0 <= i < s@.len() ==> s@[i] != 0) ==> r == Ok::<(), ExtendedFloatParseError>(()),
{
    let n = s.len();
    if n == 0 {
        return Err(ExtendedFloatParseError::Empty);
    }
    if is_space(s[0]) {
        return Err(ExtendedFloatParseError::LeadingWhitespace(s[0] as char));
    }
    let mut i: usize = 0;
    while i < n
        invariant
            0 < n == s@.len(),
            0 <= i <= n,
            !is_ascii_space(s@[0]),
            forall|j: int| 0 <= j < i ==> s@[j] != 0,
        decreases n - i,
    {
        if s[i] == 0 {
            return Err(ExtendedFloatParseError::NullByte);
        }
        i = i + 1;
    }
    Ok(())
}

/// Whether a byte is ASCII whitespace.
pub open spec fn is_ascii_space(b: u8) -> bool {
    b == 32 || b == 9 || b == 10 || b == 13 || b == 11 || b == 12
}

/// Whether a byte is ASCII whitespace.
pub fn is_space(b: u8) -> (r: bool)
    ensures
        r == is_ascii_space(b),
{
    b == 32 || b == 9 || b == 10 || b == 13 || b == 11 || b == 12
}

} // verus!
