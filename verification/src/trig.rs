//! The public trigonometric evaluator: range reduction, greedy
//! decomposition against the precomputed tables, and the final sign
//! correction, composed into `sin`, `cos` and `sin_cos`.
//!
//! The evaluator owns its two tables, built once at construction and
//! never changed. Every evaluation is pinned to the spec function
//! [`spec_sin_cos`], so results are bit-for-bit reproducible, periodic in
//! whole turns, and odd in the sine and even in the cosine away from the
//! quadrant boundaries.

use vstd::prelude::*;

use crate::angle::KnownAngle;
use crate::decompose::{decompose, spec_decompose, table_wf};
use crate::fixed::{abs_int, Fixed, HALF_PI_UNITS, PI_4_UNITS, PI_6_UNITS, PI_UNITS, SCALE, TWO_PI_UNITS};
use crate::reduce::{emod_two_pi, reduce, spec_fold};
use crate::table::{
    build_half_table, build_unit_circle, closest, spec_closest, spec_unit_circle,
    SIN_PI_4_UNITS,
};

verus! {

/// The default convergence threshold: one billionth of a radian.
pub const DEFAULT_EPSILON_UNITS: i64 = 1_000;

/// The squared length of an angle's sine and cosine pair, in units.
pub open spec fn norm2(a: KnownAngle) -> int {
    a.sin.v * a.sin.v + a.cos.v * a.cos.v
}

/// The table-driven evaluator: the five unit-circle anchors, the
/// half-angle correction table, and the error threshold the table was
/// built for. Both tables are built once and never mutated.
pub struct TrigEvaluator {
    unit_circle: Vec<KnownAngle>,
    half_table: Vec<KnownAngle>,
    eps: i64,
}

/// What a full evaluation returns, as a function of the table, the
/// threshold and the argument alone: fold the argument into the first
/// quadrant, pick the closest anchor, run the correction loop, and apply
/// the two sign flags.
pub open spec fn spec_sin_cos(t: Seq<KnownAngle>, eps: int, x: int) -> (int, int) {
    let red = spec_fold(x);
    let init = spec_closest(spec_unit_circle(), red.angle.v as int);
    let ka = spec_decompose(
        t,
        red.angle.v as int,
        init,
        t.len() as int,
        eps,
        (abs_int(init.degree.v - red.angle.v) + 1) as nat,
    );
    (
        if red.neg_sin {
            -(ka.sin.v as int)
        } else {
            ka.sin.v as int
        },
        if red.neg_cos {
            -(ka.cos.v as int)
        } else {
            ka.cos.v as int
        },
    )
}

impl TrigEvaluator {
    /// The evaluator's tables are sound for its threshold.
    pub closed spec fn wf(&self) -> bool {
        &&& self.unit_circle@ == spec_unit_circle()
        &&& table_wf(self.half_table@, self.eps as int)
        &&& 1 <= self.eps < PI_6_UNITS
    }

    /// The half-angle correction table.
    pub closed spec fn table(&self) -> Seq<KnownAngle> {
        self.half_table@
    }

    /// The convergence threshold, in units.
    pub closed spec fn epsilon(&self) -> int {
        self.eps as int
    }

    /// Build an evaluator for the threshold `eps`: the unit circle from
    /// its exact coordinates, and the half-angle table by halving down
    /// to the threshold.
    pub fn new(eps: i64) -> (r: TrigEvaluator)
        requires
            1 <= eps < PI_6_UNITS,
        ensures
            r.wf(),
            r.epsilon() == eps,
    {
        let unit_circle = build_unit_circle();
        let half_table = build_half_table(&unit_circle, eps);
        TrigEvaluator { unit_circle, half_table, eps }
    }

    /// An evaluator at the default threshold.
    pub fn with_default_epsilon() -> (r: TrigEvaluator)
        ensures
            r.wf(),
            r.epsilon() == DEFAULT_EPSILON_UNITS,
    {
        TrigEvaluator::new(DEFAULT_EPSILON_UNITS)
    }

    /// The sine and cosine of `x`, by range reduction, decomposition and
    /// sign correction.
    pub fn sin_cos(&self, x: Fixed) -> (r: (Fixed, Fixed))
        requires
            self.wf(),
        ensures
            r.0.v as int == spec_sin_cos(self.table(), self.epsilon(), x.v as int).0,
            r.1.v as int == spec_sin_cos(self.table(), self.epsilon(), x.v as int).1,
            abs_int(r.0.v as int) <= 2 * SCALE,
            abs_int(r.1.v as int) <= 2 * SCALE,
    {
        let red = reduce(x);
        let init = closest(&self.unit_circle, red.angle);
        let ka = decompose(&self.half_table, self.eps, red.angle, init);
        let s = if red.neg_sin {
            Fixed { v: -ka.sin.v }
        } else {
            ka.sin
        };
        let c = if red.neg_cos {
            Fixed { v: -ka.cos.v }
        } else {
            ka.cos
        };
        (s, c)
    }

    /// The sine of `x`.
    pub fn sin(&self, x: Fixed) -> (r: Fixed)
        requires
            self.wf(),
        ensures
            r.v as int == spec_sin_cos(self.table(), self.epsilon(), x.v as int).0,
    {
        self.sin_cos(x).0
    }

    /// The cosine of `x`.
    pub fn cos(&self, x: Fixed) -> (r: Fixed)
        requires
            self.wf(),
        ensures
            r.v as int == spec_sin_cos(self.table(), self.epsilon(), x.v as int).1,
    {
        self.sin_cos(x).1
    }
}

/// Every unit-circle anchor satisfies the circle equation to within the
/// backend's rounding: its squared length is one, up to twice a unit.
pub proof fn lemma_unit_circle_sanity()
    ensures
        forall|i: int|
            0 <= i < spec_unit_circle().len() ==> abs_int(
                #[trigger] norm2(spec_unit_circle()[i]) - SCALE * SCALE,
            ) <= 2 * SCALE,
{
    let uc = spec_unit_circle();
    assert(uc[0].sin.v == 0 && uc[0].cos.v == SCALE);
    assert(uc[1].sin.v == 500_000_000_000i64 && uc[1].cos.v == 866_025_403_784i64);
    assert(uc[2].sin.v == 707_106_781_186i64 && uc[2].cos.v == 707_106_781_186i64);
    assert(uc[3].sin.v == 866_025_403_784i64 && uc[3].cos.v == 500_000_000_000i64);
    assert(uc[4].sin.v == SCALE && uc[4].cos.v == 0);
    assert(norm2(uc[0]) == 1000000000000000000000000);
    assert(norm2(uc[1]) == 999999999999240241518656);
    assert(norm2(uc[2]) == 999999999998451367133192);
    assert(norm2(uc[3]) == 999999999999240241518656);
    assert(norm2(uc[4]) == 1000000000000000000000000);
    assert forall|i: int| 0 <= i < uc.len() implies abs_int(
        #[trigger] norm2(uc[i]) - SCALE * SCALE,
    ) <= 2 * SCALE by {
        assert(i == 0 || i == 1 || i == 2 || i == 3 || i == 4);
    }
}

/// The half-angle table is normalized for its threshold: its degrees
/// ascend strictly, no entry is zero, the smallest entry is within the
/// threshold and more than half of it.
pub proof fn lemma_half_table_normalized(t: Seq<KnownAngle>, eps: int)
    requires
        table_wf(t, eps),
    ensures
        forall|i: int| 0 <= i < t.len() - 1 ==> #[trigger] t[i].degree.v < t[i + 1].degree.v,
        forall|i: int| 0 <= i < t.len() ==> #[trigger] t[i].degree.v >= 1,
        t[0].degree.v <= eps,
        2 * t[0].degree.v + 1 > eps,
{
}

/// Shifting the argument by any number of whole turns changes neither
/// the sine nor the cosine, exactly.
pub proof fn lemma_sin_cos_periodic(t: Seq<KnownAngle>, eps: int, x: int, k: int)
    ensures
        spec_sin_cos(t, eps, x + k * (TWO_PI_UNITS as int)) == spec_sin_cos(t, eps, x),
{
    crate::reduce::lemma_fold_periodic(x, k);
}

/// The anchor at the first-quadrant edge closest to zero is the zero
/// anchor, and the one closest to a right angle is the right-angle
/// anchor.
proof fn lemma_closest_at_axes()
    ensures
        spec_closest(spec_unit_circle(), 0) == spec_unit_circle()[0],
        spec_closest(spec_unit_circle(), HALF_PI_UNITS as int) == spec_unit_circle()[4],
        spec_closest(spec_unit_circle(), PI_4_UNITS as int) == spec_unit_circle()[2],
{
    let uc = spec_unit_circle();
    let u1 = uc.drop_first();
    let u2 = u1.drop_first();
    let u3 = u2.drop_first();
    let u4 = u3.drop_first();
    assert(u4.len() == 1);
    assert(u4[0] == uc[4]);
    assert(u3[0] == uc[3] && u3.len() == 2);
    assert(u2[0] == uc[2] && u2.len() == 3);
    assert(u1[0] == uc[1] && u1.len() == 4);
    assert(spec_closest(u4, 0) == uc[4]);
    assert(spec_closest(u3, 0) == uc[3]);
    assert(spec_closest(u2, 0) == uc[2]);
    assert(spec_closest(u1, 0) == uc[1]);
    assert(spec_closest(uc, 0) == uc[0]);
    let h = HALF_PI_UNITS as int;
    assert(spec_closest(u4, h) == uc[4]);
    assert(spec_closest(u3, h) == uc[4]);
    assert(spec_closest(u2, h) == uc[4]);
    assert(spec_closest(u1, h) == uc[4]);
    assert(spec_closest(uc, h) == uc[4]);
    let q = PI_4_UNITS as int;
    assert(spec_closest(u4, q) == uc[4]);
    assert(spec_closest(u3, q) == uc[3]);
    assert(spec_closest(u2, q) == uc[2]);
    assert(spec_closest(u1, q) == uc[2]);
    assert(spec_closest(uc, q) == uc[2]);
}

/// On the quadrant boundaries the evaluator is exact, whatever the
/// correction table holds: the folded target falls on an anchor, so the
/// decomposition ends before its first correction.
pub proof fn lemma_sin_cos_at_axes(t: Seq<KnownAngle>, eps: int, x: int)
    requires
        eps >= 0,
    ensures
        emod_two_pi(x) == 0 ==> spec_sin_cos(t, eps, x) == (0int, SCALE as int),
        emod_two_pi(x) == HALF_PI_UNITS ==> spec_sin_cos(t, eps, x) == (SCALE as int, 0int),
        emod_two_pi(x) == PI_UNITS ==> spec_sin_cos(t, eps, x) == (0int, -(SCALE as int)),
        emod_two_pi(x) == PI_UNITS + HALF_PI_UNITS ==> spec_sin_cos(t, eps, x) == (
            -(SCALE as int),
            0int,
        ),
        emod_two_pi(x) == PI_4_UNITS ==> spec_sin_cos(t, eps, x) == (
            SIN_PI_4_UNITS as int,
            SIN_PI_4_UNITS as int,
        ),
{
    lemma_closest_at_axes();
    let uc = spec_unit_circle();
    let m = emod_two_pi(x);
    if m == 0 || m == PI_UNITS {
        let red = spec_fold(x);
        assert(red.angle.v == 0);
        let init = spec_closest(uc, 0);
        assert(init == uc[0]);
        assert(abs_int(init.degree.v - 0) == 0);
        assert(spec_decompose(t, 0, init, t.len() as int, eps, 1nat) == init);
    }
    if m == HALF_PI_UNITS || m == PI_UNITS + HALF_PI_UNITS {
        let red = spec_fold(x);
        assert(red.angle.v == HALF_PI_UNITS);
        let init = spec_closest(uc, HALF_PI_UNITS as int);
        assert(init == uc[4]);
        assert(abs_int(init.degree.v - HALF_PI_UNITS) == 0);
        assert(spec_decompose(t, HALF_PI_UNITS as int, init, t.len() as int, eps, 1nat)
            == init);
    }
    if m == PI_4_UNITS {
        let red = spec_fold(x);
        assert(red.angle.v == PI_4_UNITS && !red.neg_sin && !red.neg_cos);
        let init = spec_closest(uc, PI_4_UNITS as int);
        assert(init == uc[2]);
        assert(abs_int(init.degree.v - PI_4_UNITS) == 0);
        assert(spec_decompose(t, PI_4_UNITS as int, init, t.len() as int, eps, 1nat) == init);
    }
}

/// Sine is odd and cosine is even: negating the argument negates the
/// sine and keeps the cosine, exactly. Away from the quadrant
/// boundaries the folded angle and the correction run are shared and
/// only the sine flag flips; on the boundaries both sides are exact
/// anchor values.
pub proof fn lemma_sin_cos_odd_even(t: Seq<KnownAngle>, eps: int, x: int)
    requires
        eps >= 0,
    ensures
        spec_sin_cos(t, eps, -x).0 == -spec_sin_cos(t, eps, x).0,
        spec_sin_cos(t, eps, -x).1 == spec_sin_cos(t, eps, x).1,
{
    let m = emod_two_pi(x);
    vstd::arithmetic::div_mod::lemma_mod_bound(x, TWO_PI_UNITS as int);
    if m == 0 || m == HALF_PI_UNITS || m == PI_UNITS || m == PI_UNITS + HALF_PI_UNITS {
        lemma_sin_cos_at_axes(t, eps, x);
        lemma_sin_cos_at_axes(t, eps, -x);
        lemma_neg_mod(x);
    } else {
        crate::reduce::lemma_fold_neg(x);
    }
}

/// The residue of the negation: zero stays zero, and any other residue
/// reflects about the whole turn.
proof fn lemma_neg_mod(x: int)
    ensures
        emod_two_pi(x) == 0 ==> emod_two_pi(-x) == 0,
        emod_two_pi(x) != 0 ==> emod_two_pi(-x) == TWO_PI_UNITS - emod_two_pi(x),
{
    let t = TWO_PI_UNITS as int;
    let m = x % t;
    vstd::arithmetic::div_mod::lemma_mod_bound(x, t);
    vstd::arithmetic::div_mod::lemma_fundamental_div_mod(x, t);
    let q = x / t;
    if m == 0 {
        assert(-x == t * (-q) + 0);
        vstd::arithmetic::div_mod::lemma_mod_multiples_vanish(-q, 0, t);
        vstd::arithmetic::div_mod::lemma_small_mod(0, t as nat);
    } else {
        assert(-x == t * (-q - 1) + (t - m));
        vstd::arithmetic::div_mod::lemma_mod_multiples_vanish(-q - 1, t - m, t);
        vstd::arithmetic::div_mod::lemma_small_mod((t - m) as nat, t as nat);
    }
}

} // verus!
