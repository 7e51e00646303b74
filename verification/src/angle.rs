//! An angle paired with its sine and cosine, and the exact identities
//! that combine such angles.
//!
//! Degrees add exactly; sines and cosines combine through the
//! angle-addition identities with every product truncated toward zero, and
//! the result held inside `[-2, 2]` so that combinations can never leave
//! the representable range. All contracts state the computed fields
//! exactly, so two equal inputs give bit-for-bit equal outputs.

use vstd::prelude::*;

use crate::fixed::{abs_int, spec_mul_units, Fixed, SCALE};

verus! {

/// Twice the scale: the clamp bound for combined sines and cosines.
pub const TWO_SCALE: i64 = 2_000_000_000_000;

/// An angle in radians together with its sine and cosine.
#[derive(Clone, Copy, Debug, PartialEq, Eq, Structural)]
pub struct KnownAngle {
    pub degree: Fixed,
    pub sin: Fixed,
    pub cos: Fixed,
}

/// Hold a combined coordinate inside `[-2, 2]`.
pub open spec fn clamp_units(x: int) -> int {
    if x < -TWO_SCALE {
        -TWO_SCALE as int
    } else if x > TWO_SCALE {
        TWO_SCALE as int
    } else {
        x
    }
}

/// The sine and cosine coordinates lie inside `[-2, 2]`.
pub open spec fn fields_bounded(a: KnownAngle) -> bool {
    &&& abs_int(a.sin.v as int) <= TWO_SCALE
    &&& abs_int(a.cos.v as int) <= TWO_SCALE
}

/// The angle-sum of two known angles: degrees add exactly, and the
/// coordinates follow the angle-addition identities with truncation and
/// the final clamp.
pub open spec fn spec_angle_add(a: KnownAngle, b: KnownAngle) -> KnownAngle {
    KnownAngle {
        degree: Fixed { v: (a.degree.v + b.degree.v) as i64 },
        sin: Fixed {
            v: clamp_units(
                spec_mul_units(a.sin.v as int, b.cos.v as int) + spec_mul_units(
                    a.cos.v as int,
                    b.sin.v as int,
                ),
            ) as i64,
        },
        cos: Fixed {
            v: clamp_units(
                spec_mul_units(a.cos.v as int, b.cos.v as int) - spec_mul_units(
                    a.sin.v as int,
                    b.sin.v as int,
                ),
            ) as i64,
        },
    }
}

/// The negation of a known angle: sine is odd, cosine is even.
pub open spec fn spec_angle_neg(a: KnownAngle) -> KnownAngle {
    KnownAngle {
        degree: Fixed { v: (-a.degree.v) as i64 },
        sin: Fixed { v: (-a.sin.v) as i64 },
        cos: a.cos,
    }
}

/// The angle-difference, as the sum with the negated angle.
pub open spec fn spec_angle_sub(a: KnownAngle, b: KnownAngle) -> KnownAngle {
    spec_angle_add(a, spec_angle_neg(b))
}

/// Hold a value inside `[-2, 2]`.
fn clamp(x: i64) -> (r: i64)
    ensures
        r == clamp_units(x as int),
        abs_int(r as int) <= TWO_SCALE,
{
    if x < -TWO_SCALE {
        -TWO_SCALE
    } else if x > TWO_SCALE {
        TWO_SCALE
    } else {
        x
    }
}

impl KnownAngle {
    /// A known angle from its three coordinates.
    pub fn new(degree: Fixed, sin: Fixed, cos: Fixed) -> (r: KnownAngle)
        ensures
            r == (KnownAngle { degree, sin, cos }),
    {
        KnownAngle { degree, sin, cos }
    }

    /// The angle-sum: `sin(a+b) = sin a cos b + cos a sin b` and
    /// `cos(a+b) = cos a cos b - sin a sin b`.
    pub fn add(self, other: KnownAngle) -> (r: KnownAngle)
        requires
            fields_bounded(self),
            fields_bounded(other),
            i64::MIN < self.degree.v + other.degree.v <= i64::MAX,
        ensures
            r == spec_angle_add(self, other),
            fields_bounded(r),
            r.degree.v == self.degree.v + other.degree.v,
    {
        let degree = Fixed { v: self.degree.v + other.degree.v };
        proof {
            lemma_mul_units_bound(self.sin.v as int, other.cos.v as int);
            lemma_mul_units_bound(self.cos.v as int, other.sin.v as int);
            lemma_mul_units_bound(self.cos.v as int, other.cos.v as int);
            lemma_mul_units_bound(self.sin.v as int, other.sin.v as int);
        }
        let s1c2 = self.sin.mul(other.cos);
        let c1s2 = self.cos.mul(other.sin);
        let c1c2 = self.cos.mul(other.cos);
        let s1s2 = self.sin.mul(other.sin);
        let sin = Fixed { v: clamp(s1c2.v + c1s2.v) };
        let cos = Fixed { v: clamp(c1c2.v - s1s2.v) };
        KnownAngle { degree, sin, cos }
    }

    /// The negated angle: sine is odd, cosine is even.
    pub fn neg(self) -> (r: KnownAngle)
        requires
            fields_bounded(self),
            self.degree.v != i64::MIN,
        ensures
            r == spec_angle_neg(self),
            fields_bounded(r),
            r.degree.v == -self.degree.v,
    {
        KnownAngle { degree: Fixed { v: -self.degree.v }, sin: Fixed { v: -self.sin.v }, cos: self.cos }
    }

    /// The angle-difference, through the negation.
    pub fn sub(self, other: KnownAngle) -> (r: KnownAngle)
        requires
            fields_bounded(self),
            fields_bounded(other),
            other.degree.v != i64::MIN,
            i64::MIN < self.degree.v - other.degree.v <= i64::MAX,
        ensures
            r == spec_angle_sub(self, other),
            fields_bounded(r),
            r.degree.v == self.degree.v - other.degree.v,
    {
        self.add(other.neg())
    }

    /// The half angle, from the half-angle identities
    /// `sin(a/2) = sqrt((1 - cos a) / 2)` and
    /// `cos(a/2) = sqrt((1 + cos a) / 2)`, valid on `[0, pi/2]` where both
    /// roots take their non-negative branch.
    pub fn half_angle(self) -> (r: KnownAngle)
        requires
            0 <= self.degree.v,
            0 <= self.cos.v <= SCALE,
        ensures
            r.degree.v == self.degree.v / 2,
            0 <= r.sin.v <= SCALE,
            0 <= r.cos.v <= SCALE,
            r.sin.v * r.sin.v <= ((SCALE - self.cos.v) / 2) * SCALE,
            r.cos.v * r.cos.v <= ((SCALE + self.cos.v) / 2) * SCALE,
            fields_bounded(r),
    {
        let degree = Fixed { v: self.degree.v / 2 };
        let sin = Fixed { v: (SCALE - self.cos.v) / 2 }.sqrt();
        let cos = Fixed { v: (SCALE + self.cos.v) / 2 }.sqrt();
        proof {
            lemma_sqrt_le_scale((SCALE - self.cos.v) / 2, sin.v as int);
            lemma_sqrt_le_scale((SCALE + self.cos.v) / 2, cos.v as int);
        }
        KnownAngle { degree, sin, cos }
    }
}

/// A product of values inside `[-2, 2]` truncates to inside `[-4, 4]`.
proof fn lemma_mul_units_bound(a: int, b: int)
    requires
        abs_int(a) <= TWO_SCALE,
        abs_int(b) <= TWO_SCALE,
    ensures
        abs_int(spec_mul_units(a, b)) <= 4 * SCALE,
{
    assert(abs_int(a * b) == abs_int(a) * abs_int(b)) by (nonlinear_arith);
    assert(abs_int(a) * abs_int(b) <= TWO_SCALE * TWO_SCALE) by (nonlinear_arith)
        requires
            0 <= abs_int(a) <= TWO_SCALE,
            0 <= abs_int(b) <= TWO_SCALE,
    ;
    let m = abs_int(a * b);
    assert(m / (SCALE as int) <= (TWO_SCALE * TWO_SCALE) / (SCALE as int)) by (nonlinear_arith)
        requires
            0 <= m <= TWO_SCALE * TWO_SCALE,
    ;
    assert((TWO_SCALE * TWO_SCALE) / (SCALE as int) == 4 * SCALE);
    if a * b >= 0 {
        assert(spec_mul_units(a, b) == m / (SCALE as int));
    } else {
        assert(spec_mul_units(a, b) == -(m / (SCALE as int)));
        assert(m / (SCALE as int) >= 0) by (nonlinear_arith)
            requires
                m >= 0,
        ;
    }
}

/// A truncated square root of at most one stays at most one.
proof fn lemma_sqrt_le_scale(y: int, r: int)
    requires
        0 <= y <= SCALE,
        r >= 0,
        r * r <= y * SCALE,
    ensures
        r <= SCALE,
{
    if r > SCALE {
        assert(r * r > SCALE * SCALE) by (nonlinear_arith)
            requires
                r > SCALE,
        ;
        assert(y * SCALE <= SCALE * SCALE) by (nonlinear_arith)
            requires
                y <= SCALE,
        ;
    }
}

} // verus!
