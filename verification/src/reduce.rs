//! Range reduction: fold any angle into `[0, pi/2]` by periodicity and
//! reflection, tracking the two sign flags that undo the folding.
//!
//! The fold is the spec function [`spec_fold`]; the reducer computes it
//! exactly. Folding works on the angle held modulo `2 pi` in `[0, 2 pi)`:
//! the first quadrant stands as it is; the second reflects about `pi / 2`
//! and flips the cosine; the third shifts by `pi` and flips both; the
//! fourth reflects about `2 pi` and flips the sine.

use vstd::arithmetic::div_mod::{
    lemma_fundamental_div_mod, lemma_mod_bound, lemma_mod_multiples_vanish, lemma_small_mod,
};
use vstd::prelude::*;

use crate::fixed::{Fixed, HALF_PI_UNITS, PI_UNITS, TWO_PI_UNITS};

verus! {

/// A reduced angle in `[0, pi/2]` with the sign corrections that recover
/// the original angle's sine and cosine.
#[derive(Clone, Copy, Debug, PartialEq, Eq, Structural)]
pub struct Reduction {
    /// The folded angle.
    pub angle: Fixed,
    /// Whether the original sine is the negated sine of the folded angle.
    pub neg_sin: bool,
    /// Whether the original cosine is the negated cosine of the folded
    /// angle.
    pub neg_cos: bool,
}

/// The angle folded into `[0, 2 pi)`.
pub open spec fn emod_two_pi(x: int) -> int {
    x % (TWO_PI_UNITS as int)
}

/// Fold an angle into `[0, pi/2]` with its two sign flags.
pub open spec fn spec_fold(x: int) -> Reduction {
    let m = emod_two_pi(x);
    if m < HALF_PI_UNITS {
        Reduction { angle: Fixed { v: m as i64 }, neg_sin: false, neg_cos: false }
    } else if m < PI_UNITS {
        Reduction { angle: Fixed { v: (PI_UNITS - m) as i64 }, neg_sin: false, neg_cos: true }
    } else if m < PI_UNITS + HALF_PI_UNITS {
        Reduction { angle: Fixed { v: (m - PI_UNITS) as i64 }, neg_sin: true, neg_cos: true }
    } else {
        Reduction { angle: Fixed { v: (TWO_PI_UNITS - m) as i64 }, neg_sin: true, neg_cos: false }
    }
}

/// Fold an arbitrary angle into `[0, pi/2]`, with the sign flags that
/// undo the folding.
pub fn reduce(x: Fixed) -> (r: Reduction)
    ensures
        r == spec_fold(x.v as int),
        0 <= r.angle.v <= HALF_PI_UNITS,
{
    let m: i64;
    if x.v >= 0 {
        m = ((x.v as u64) % (TWO_PI_UNITS as u64)) as i64;
        proof {
            assert(m == emod_two_pi(x.v as int));
        }
    } else {
        // Magnitude of `x.v`, written so that even `i64::MIN` is safe.
        let n: u64 = ((-(x.v + 1)) as u64) + 1;
        let rr: u64 = n % (TWO_PI_UNITS as u64);
        m = if rr == 0 {
            0
        } else {
            TWO_PI_UNITS - (rr as i64)
        };
        proof {
            let t = TWO_PI_UNITS as int;
            let xi = x.v as int;
            assert(n == -xi);
            assert(rr == (-xi) % t);
            lemma_fundamental_div_mod(-xi, t);
            let q = (-xi) / t;
            assert(-xi == t * q + rr);
            assert(xi == t * (-q) + (-(rr as int)));
            if rr == 0 {
                lemma_mod_multiples_vanish(-q, 0, t);
                lemma_small_mod(0, t as nat);
                assert(xi % t == 0);
            } else {
                lemma_mod_bound(-xi, t);
                assert(xi == t * (-q - 1) + (t - rr));
                lemma_mod_multiples_vanish(-q - 1, t - rr, t);
                lemma_small_mod((t - rr) as nat, t as nat);
                assert(xi % t == t - rr);
            }
        }
    }
    proof {
        lemma_mod_bound(x.v as int, TWO_PI_UNITS as int);
    }
    if m < HALF_PI_UNITS {
        Reduction { angle: Fixed { v: m }, neg_sin: false, neg_cos: false }
    } else if m < PI_UNITS {
        Reduction { angle: Fixed { v: PI_UNITS - m }, neg_sin: false, neg_cos: true }
    } else if m < PI_UNITS + HALF_PI_UNITS {
        Reduction { angle: Fixed { v: m - PI_UNITS }, neg_sin: true, neg_cos: true }
    } else {
        Reduction { angle: Fixed { v: TWO_PI_UNITS - m }, neg_sin: true, neg_cos: false }
    }
}

/// Folding is periodic: shifting the angle by whole turns changes
/// nothing at all.
pub proof fn lemma_fold_periodic(x: int, k: int)
    ensures
        spec_fold(x + k * (TWO_PI_UNITS as int)) == spec_fold(x),
{
    lemma_mod_multiples_vanish(k, x, TWO_PI_UNITS as int);
}

/// Folding is odd in the sine and even in the cosine: negating the angle
/// keeps the folded angle and the cosine flag, and flips the sine flag.
/// The quadrant boundaries are left out: there the folded angle agrees
/// but a flag on a coordinate whose true value is zero may differ.
pub proof fn lemma_fold_neg(x: int)
    requires
        emod_two_pi(x) != 0,
        emod_two_pi(x) != HALF_PI_UNITS,
        emod_two_pi(x) != PI_UNITS,
        emod_two_pi(x) != PI_UNITS + HALF_PI_UNITS,
    ensures
        spec_fold(-x).angle == spec_fold(x).angle,
        spec_fold(-x).neg_sin == !spec_fold(x).neg_sin,
        spec_fold(-x).neg_cos == spec_fold(x).neg_cos,
{
    let t = TWO_PI_UNITS as int;
    let m = x % t;
    lemma_mod_bound(x, t);
    lemma_fundamental_div_mod(x, t);
    let q = x / t;
    assert(x == t * q + m);
    assert(-x == t * (-q - 1) + (t - m));
    lemma_mod_multiples_vanish(-q - 1, t - m, t);
    lemma_small_mod((t - m) as nat, t as nat);
    assert((-x) % t == t - m);
}

} // verus!
