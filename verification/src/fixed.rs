//! An exact fixed-point real-number backend.
//!
//! A `Fixed` stores the integer `v` and denotes the real number `v / SCALE`.
//! Every arithmetic operation states its result exactly, as integer
//! arithmetic on the underlying units, so the evaluator built on top can be
//! reasoned about without any floating-point semantics.

use vstd::prelude::*;

verus! {

/// The number of fixed-point units in one whole unit: twelve decimal digits
/// after the point.
pub const SCALE: i64 = 1_000_000_000_000;

/// `pi` rounded to the nearest representable fixed-point value
/// (the nearest value is even, so `HALF_PI_UNITS` is exactly half of it).
pub const PI_UNITS: i64 = 3_141_592_653_590;

/// Exactly `PI_UNITS / 2`.
pub const HALF_PI_UNITS: i64 = 1_570_796_326_795;

/// Exactly `2 * PI_UNITS`.
pub const TWO_PI_UNITS: i64 = 6_283_185_307_180;

/// `pi / 3` rounded to the nearest representable value.
pub const PI_3_UNITS: i64 = 1_047_197_551_197;

/// `pi / 4` rounded to the nearest representable value.
pub const PI_4_UNITS: i64 = 785_398_163_397;

/// `pi / 6` rounded to the nearest representable value.
pub const PI_6_UNITS: i64 = 523_598_775_598;

/// Division by `SCALE` that truncates toward zero, the rounding every
/// scaled product and quotient below uses.
pub open spec fn strunc(x: int) -> int {
    if x >= 0 {
        x / (SCALE as int)
    } else {
        -((-x) / (SCALE as int))
    }
}

/// The exact value of a scaled fixed-point product in units.
pub open spec fn spec_mul_units(a: int, b: int) -> int {
    strunc(a * b)
}

/// The exact value of a scaled fixed-point quotient in units,
/// truncated toward zero (unspecified for `b == 0`).
pub open spec fn spec_div_units(a: int, b: int) -> int {
    let m = (abs_int(a) * (SCALE as int)) / abs_int(b);
    if (a >= 0) == (b >= 0) {
        m
    } else {
        -m
    }
}

/// Absolute value of a mathematical integer.
pub open spec fn abs_int(x: int) -> int {
    if x >= 0 {
        x
    } else {
        -x
    }
}

/// A fixed-point real number: `v` counts units of `1 / SCALE`.
#[derive(Clone, Copy, Debug, PartialEq, Eq, Structural)]
pub struct Fixed {
    pub v: i64,
}

impl Fixed {
    /// The fixed-point value holding `units` units of `1 / SCALE`.
    pub fn from_units(units: i64) -> (r: Fixed)
        ensures
            r.v == units,
    {
        Fixed { v: units }
    }

    /// The fixed-point value denoting the integer `i`.
    pub fn from_int(i: i64) -> (r: Fixed)
        requires
            i64::MIN <= i * SCALE <= i64::MAX,
        ensures
            r.v == i * SCALE,
    {
        Fixed { v: i * SCALE }
    }

    /// The fixed-point zero.
    pub fn zero() -> (r: Fixed)
        ensures
            r.v == 0,
    {
        Fixed { v: 0 }
    }

    /// Exact addition.
    pub fn add(self, rhs: Fixed) -> (r: Fixed)
        requires
            i64::MIN <= self.v + rhs.v <= i64::MAX,
        ensures
            r.v == self.v + rhs.v,
    {
        Fixed { v: self.v + rhs.v }
    }

    /// Exact subtraction.
    pub fn sub(self, rhs: Fixed) -> (r: Fixed)
        requires
            i64::MIN <= self.v - rhs.v <= i64::MAX,
        ensures
            r.v == self.v - rhs.v,
    {
        Fixed { v: self.v - rhs.v }
    }

    /// Exact negation.
    pub fn neg(self) -> (r: Fixed)
        requires
            self.v != i64::MIN,
        ensures
            r.v == -self.v,
    {
        Fixed { v: -self.v }
    }

    /// Exact absolute value.
    pub fn abs(self) -> (r: Fixed)
        requires
            self.v != i64::MIN,
        ensures
            r.v == abs_int(self.v as int),
    {
        if self.v < 0 {
            Fixed { v: -self.v }
        } else {
            self
        }
    }

    /// Scaled multiplication, truncated toward zero.
    pub fn mul(self, rhs: Fixed) -> (r: Fixed)
        requires
            self.v != i64::MIN,
            rhs.v != i64::MIN,
            abs_int(spec_mul_units(self.v as int, rhs.v as int)) <= i64::MAX,
        ensures
            r.v == spec_mul_units(self.v as int, rhs.v as int),
    {
        let neg: bool = (self.v < 0) != (rhs.v < 0);
        let am: u64 = if self.v < 0 {
            (-self.v) as u64
        } else {
            self.v as u64
        };
        let bm: u64 = if rhs.v < 0 {
            (-rhs.v) as u64
        } else {
            rhs.v as u64
        };
        proof {
            assert((am as u128) * (bm as u128) <= u64::MAX as u128 * (u64::MAX as u128))
                by (nonlinear_arith)
                requires
                    am as u128 <= u64::MAX as u128,
                    bm as u128 <= u64::MAX as u128,
            ;
        }
        let p: u128 = (am as u128) * (bm as u128);
        let q: u128 = p / (SCALE as u128);
        proof {
            lemma_abs_mul(self.v as int, rhs.v as int);
            assert(q == abs_int(self.v as int) * abs_int(rhs.v as int) / (SCALE as int));
            lemma_strunc_signs(self.v as int, rhs.v as int);
        }
        if neg {
            Fixed { v: -(q as i64) }
        } else {
            Fixed { v: q as i64 }
        }
    }

    /// Scaled division, truncated toward zero.
    pub fn div(self, rhs: Fixed) -> (r: Fixed)
        requires
            self.v != i64::MIN,
            rhs.v != i64::MIN,
            rhs.v != 0,
            abs_int(spec_div_units(self.v as int, rhs.v as int)) <= i64::MAX,
        ensures
            r.v == spec_div_units(self.v as int, rhs.v as int),
    {
        let neg: bool = (self.v < 0) != (rhs.v < 0);
        let am: u64 = if self.v < 0 {
            (-self.v) as u64
        } else {
            self.v as u64
        };
        let bm: u64 = if rhs.v < 0 {
            (-rhs.v) as u64
        } else {
            rhs.v as u64
        };
        let p: u128 = (am as u128) * (SCALE as u128);
        let q: u128 = p / (bm as u128);
        proof {
            lemma_div_mag_bound(am as int, bm as int);
        }
        if neg {
            Fixed { v: -(q as i64) }
        } else {
            Fixed { v: q as i64 }
        }
    }

    /// Square root of a non-negative value, truncated toward zero:
    /// the greatest representable value whose square does not exceed `self`.
    pub fn sqrt(self) -> (r: Fixed)
        requires
            self.v >= 0,
        ensures
            r.v >= 0,
            r.v * r.v <= self.v * SCALE < (r.v + 1) * (r.v + 1),
    {
        let x: u128 = (self.v as u128) * (SCALE as u128);
        let r: u64 = isqrt_u128(x);
        proof {
            assert((r as int) * (r as int) <= (self.v as int) * (SCALE as int));
            assert(r < 0x1_0000_0000_0000_0000u128) by {
                if r as u128 >= 0x1_0000_0000_0000_0000u128 {
                    assert((r as u128) * (r as u128) >= 0x1_0000_0000_0000_0000u128
                        * 0x1_0000_0000_0000_0000u128) by (nonlinear_arith)
                        requires
                            r as u128 >= 0x1_0000_0000_0000_0000u128,
                    ;
                }
            }
            assert(r as int <= i64::MAX) by {
                if r as int > i64::MAX {
                    assert((r as int) * (r as int) > (i64::MAX as int) * (i64::MAX as int))
                        by (nonlinear_arith)
                        requires
                            r as int > i64::MAX,
                    ;
                }
            }
        }
        Fixed { v: r as i64 }
    }

    /// Comparison on the underlying units.
    pub fn le(self, rhs: Fixed) -> (r: bool)
        ensures
            r == (self.v <= rhs.v),
    {
        self.v <= rhs.v
    }

    /// Strict comparison on the underlying units.
    pub fn lt(self, rhs: Fixed) -> (r: bool)
        ensures
            r == (self.v < rhs.v),
    {
        self.v < rhs.v
    }

    /// Whether the value is strictly negative.
    pub fn is_sign_negative(self) -> (r: bool)
        ensures
            r == (self.v < 0),
    {
        self.v < 0
    }
}

/// Truncating 64-bit integer square root: the greatest `r` with
/// `r * r <= x`.
pub fn isqrt_u128(x: u128) -> (r: u64)
    ensures
        (r as int) * (r as int) <= x < ((r as int) + 1) * ((r as int) + 1),
{
    let mut lo: u128 = 0;
    let mut hi: u128 = 0x1_0000_0000_0000_0000;
    // Binary search on `r`: the invariant brackets the root.
    while lo + 1 < hi
        invariant
            lo < hi <= 0x1_0000_0000_0000_0000,
            lo * lo <= x,
            x < hi * hi,
        decreases hi - lo,
    {
        let mid: u128 = lo + (hi - lo) / 2;
        proof {
            assert(mid * mid <= 0xffff_ffff_ffff_ffffu128 * 0xffff_ffff_ffff_ffffu128)
                by (nonlinear_arith)
                requires
                    mid <= 0xffff_ffff_ffff_ffffu128,
            ;
        }
        if mid * mid <= x {
            lo = mid;
        } else {
            hi = mid;
        }
    }
    lo as u64
}

/// The magnitude of a product is the product of the magnitudes.
proof fn lemma_abs_mul(a: int, b: int)
    by (nonlinear_arith)
    ensures
        abs_int(a * b) == abs_int(a) * abs_int(b),
{
}

/// Truncation toward zero of a product, expressed through magnitudes.
proof fn lemma_strunc_signs(a: int, b: int)
    ensures
        spec_mul_units(a, b) == if (a >= 0) == (b >= 0) {
            (abs_int(a) * abs_int(b)) / (SCALE as int)
        } else {
            -((abs_int(a) * abs_int(b)) / (SCALE as int))
        },
{
    lemma_abs_mul(a, b);
    assert(a * b >= 0 <==> (a >= 0 && b >= 0) || (a <= 0 && b <= 0)) by (nonlinear_arith);
    if a * b >= 0 {
        if a * b == 0 {
            assert(abs_int(a) * abs_int(b) == 0);
        }
    }
}

/// A non-negative quotient is bounded by its dividend.
proof fn lemma_div_mag_bound(am: int, bm: int)
    by (nonlinear_arith)
    requires
        am >= 0,
        bm > 0,
    ensures
        (am * (SCALE as int)) / bm >= 0,
{
}

} // verus!
