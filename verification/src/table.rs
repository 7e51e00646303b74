//! The two static tables of the evaluator: the five unit-circle anchors
//! with exact sines and cosines from elementary geometry, and the
//! half-angle correction table built by repeatedly halving the `pi/3`,
//! `pi/4` and `pi/6` anchors until they drop to the error threshold.

use vstd::prelude::*;

use crate::angle::KnownAngle;
use crate::decompose::{entry_wf, table_wf};
use crate::fixed::{
    abs_int, Fixed, HALF_PI_UNITS, PI_3_UNITS, PI_4_UNITS, PI_6_UNITS, SCALE,
};

verus! {

/// `sin(pi/6)`, exactly one half.
pub const SIN_PI_6_UNITS: i64 = 500_000_000_000;

/// `sin(pi/4) = sqrt(2)/2`, truncated to the scale.
pub const SIN_PI_4_UNITS: i64 = 707_106_781_186;

/// `sin(pi/3) = sqrt(3)/2`, truncated to the scale.
pub const SIN_PI_3_UNITS: i64 = 866_025_403_784;

/// The largest distance from any angle in `[0, pi/2]` to its closest
/// unit-circle anchor: half the widest gap between anchors.
pub const MAX_INITIAL_ERROR: i64 = 261_799_387_800;

/// The five unit-circle anchors with their exact coordinates.
pub open spec fn spec_unit_circle() -> Seq<KnownAngle> {
    seq![
        KnownAngle {
            degree: Fixed { v: 0 },
            sin: Fixed { v: 0 },
            cos: Fixed { v: SCALE },
        },
        KnownAngle {
            degree: Fixed { v: PI_6_UNITS },
            sin: Fixed { v: SIN_PI_6_UNITS },
            cos: Fixed { v: SIN_PI_3_UNITS },
        },
        KnownAngle {
            degree: Fixed { v: PI_4_UNITS },
            sin: Fixed { v: SIN_PI_4_UNITS },
            cos: Fixed { v: SIN_PI_4_UNITS },
        },
        KnownAngle {
            degree: Fixed { v: PI_3_UNITS },
            sin: Fixed { v: SIN_PI_3_UNITS },
            cos: Fixed { v: SIN_PI_6_UNITS },
        },
        KnownAngle {
            degree: Fixed { v: HALF_PI_UNITS },
            sin: Fixed { v: SCALE },
            cos: Fixed { v: 0 },
        },
    ]
}

/// Build the unit-circle table.
pub fn build_unit_circle() -> (r: Vec<KnownAngle>)
    ensures
        r@ == spec_unit_circle(),
{
    let mut r: Vec<KnownAngle> = Vec::with_capacity(5);
    r.push(KnownAngle { degree: Fixed { v: 0 }, sin: Fixed { v: 0 }, cos: Fixed { v: SCALE } });
    r.push(
        KnownAngle {
            degree: Fixed { v: PI_6_UNITS },
            sin: Fixed { v: SIN_PI_6_UNITS },
            cos: Fixed { v: SIN_PI_3_UNITS },
        },
    );
    r.push(
        KnownAngle {
            degree: Fixed { v: PI_4_UNITS },
            sin: Fixed { v: SIN_PI_4_UNITS },
            cos: Fixed { v: SIN_PI_4_UNITS },
        },
    );
    r.push(
        KnownAngle {
            degree: Fixed { v: PI_3_UNITS },
            sin: Fixed { v: SIN_PI_3_UNITS },
            cos: Fixed { v: SIN_PI_6_UNITS },
        },
    );
    r.push(
        KnownAngle {
            degree: Fixed { v: HALF_PI_UNITS },
            sin: Fixed { v: SCALE },
            cos: Fixed { v: 0 },
        },
    );
    proof {
        assert(r@ =~= spec_unit_circle());
    }
    r
}

/// The unit-circle entry closest to `t`, scanning from the back so that
/// an earlier anchor wins a tie.
pub open spec fn spec_closest(uc: Seq<KnownAngle>, t: int) -> KnownAngle
    decreases uc.len(),
{
    if uc.len() <= 1 {
        uc[0]
    } else {
        let rest = spec_closest(uc.drop_first(), t);
        if abs_int(uc[0].degree.v - t) <= abs_int(rest.degree.v - t) {
            uc[0]
        } else {
            rest
        }
    }
}

/// The closest entry is at least as close as every entry.
proof fn lemma_closest_min(uc: Seq<KnownAngle>, t: int, j: int)
    requires
        0 <= j < uc.len(),
    ensures
        abs_int(spec_closest(uc, t).degree.v - t) <= abs_int(uc[j].degree.v - t),
    decreases uc.len(),
{
    if uc.len() > 1 && j > 0 {
        lemma_closest_min(uc.drop_first(), t, j - 1);
        assert(uc.drop_first()[j - 1] == uc[j]);
    }
}

/// The initial guess: the anchor whose degree is closest to the target.
pub fn closest(uc: &Vec<KnownAngle>, t: Fixed) -> (r: KnownAngle)
    requires
        uc@ == spec_unit_circle(),
        0 <= t.v <= HALF_PI_UNITS,
    ensures
        r == spec_closest(uc@, t.v as int),
        abs_int(r.degree.v - t.v) <= MAX_INITIAL_ERROR,
        0 <= r.degree.v <= HALF_PI_UNITS,
        0 <= r.sin.v <= SCALE,
        0 <= r.cos.v <= SCALE,
    {
    let n = uc.len();
    let mut best = uc[n - 1];
    let mut i = n - 1;
    while i > 0
        invariant
            uc@ == spec_unit_circle(),
            0 <= t.v <= HALF_PI_UNITS,
            0 <= i < n == uc@.len(),
            best == spec_closest(uc@.skip(i as int), t.v as int),
            0 <= best.degree.v <= HALF_PI_UNITS,
            0 <= best.sin.v <= SCALE,
            0 <= best.cos.v <= SCALE,
        decreases i,
    {
        i = i - 1;
        let cand = uc[i];
        proof {
            assert(0 <= uc@[i as int].degree.v <= HALF_PI_UNITS);
            assert(0 <= uc@[i as int].sin.v <= SCALE);
            assert(0 <= uc@[i as int].cos.v <= SCALE);
        }
        let db: i64 = if best.degree.v >= t.v {
            best.degree.v - t.v
        } else {
            t.v - best.degree.v
        };
        let dc: i64 = if cand.degree.v >= t.v {
            cand.degree.v - t.v
        } else {
            t.v - cand.degree.v
        };
        proof {
            assert(uc@.skip(i as int).drop_first() =~= uc@.skip(i + 1));
            assert(uc@.skip(i as int)[0] == uc@[i as int]);
        }
        if dc <= db {
            best = cand;
        }
    }
    proof {
        assert(uc@.skip(0) =~= uc@);
        let tv = t.v as int;
        if tv <= 261_799_387_799 {
            lemma_closest_min(uc@, tv, 0);
        } else if tv <= 654_498_469_497 {
            lemma_closest_min(uc@, tv, 1);
        } else if tv <= 916_297_857_297 {
            lemma_closest_min(uc@, tv, 2);
        } else if tv <= 1_308_996_938_996 {
            lemma_closest_min(uc@, tv, 3);
        } else {
            lemma_closest_min(uc@, tv, 4);
        }
    }
    best
}

/// Entry facts every half-table element carries: a well-formed entry
/// whose doubled degree clears the threshold.
pub open spec fn chain_entries_ok(s: Seq<KnownAngle>, eps: int) -> bool {
    forall|i: int|
        0 <= i < s.len() ==> entry_wf(#[trigger] s[i]) && 2 * s[i].degree.v + 1 > eps
}

/// One halving chain: successive half-angles of `base`, pushed until the
/// degree falls to the threshold; the result is strictly descending.
fn build_chain(base: KnownAngle, eps: i64) -> (r: Vec<KnownAngle>)
    requires
        1 <= eps,
        eps < base.degree.v <= PI_3_UNITS,
        0 <= base.cos.v <= SCALE,
    ensures
        r@.len() >= 1,
        chain_entries_ok(r@, eps as int),
        forall|i: int| 0 <= i < r@.len() - 1 ==> #[trigger] r@[i].degree.v > r@[i + 1].degree.v,
        r@.last().degree.v <= eps,
{
    let mut r: Vec<KnownAngle> = Vec::new();
    let mut a = base;
    loop
        invariant_except_break
            r@.len() > 0 ==> r@.last() == a,
        invariant
            1 <= eps,
            eps < a.degree.v <= PI_3_UNITS,
            0 <= a.cos.v <= SCALE,
            chain_entries_ok(r@, eps as int),
            forall|i: int|
                0 <= i < r@.len() - 1 ==> #[trigger] r@[i].degree.v > r@[i + 1].degree.v,
        ensures
            r@.len() >= 1,
            chain_entries_ok(r@, eps as int),
            forall|i: int|
                0 <= i < r@.len() - 1 ==> #[trigger] r@[i].degree.v > r@[i + 1].degree.v,
            r@.last().degree.v <= eps,
        decreases a.degree.v,
    {
        let ghost prev = r@;
        let h = a.half_angle();
        r.push(h);
        proof {
            assert(h.degree.v == a.degree.v / 2);
            assert(2 * h.degree.v + 1 > eps);
            assert(forall|i: int| 0 <= i < prev.len() ==> r@[i] == prev[i]);
            assert(r@.last() == h);
        }
        if h.degree.v <= eps {
            break ;
        }
        a = h;
    }
    r
}

/// Reverse a strictly descending chain into a strictly ascending one.
fn reversed(v: &Vec<KnownAngle>) -> (r: Vec<KnownAngle>)
    ensures
        r@.len() == v@.len(),
        forall|i: int| 0 <= i < v@.len() ==> #[trigger] r@[i] == v@[v@.len() - 1 - i],
{
    let n = v.len();
    let mut r: Vec<KnownAngle> = Vec::with_capacity(n);
    let mut i: usize = 0;
    while i < n
        invariant
            0 <= i <= n,
            n == v@.len(),
            r@.len() == i,
            forall|j: int| 0 <= j < i ==> #[trigger] r@[j] == v@[n - 1 - j],
        decreases n - i,
    {
        r.push(v[n - 1 - i]);
        i = i + 1;
    }
    r
}

/// Merge two strictly ascending tables into one, keeping one entry of
/// any degree the two share.
#[verifier::rlimit(60)]
fn merge_tables(x: &Vec<KnownAngle>, y: &Vec<KnownAngle>, Ghost(eps): Ghost<int>) -> (r: Vec<
    KnownAngle,
>)
    requires
        chain_entries_ok(x@, eps),
        chain_entries_ok(y@, eps),
        forall|i: int| 0 <= i < x@.len() - 1 ==> #[trigger] x@[i].degree.v < x@[i + 1].degree.v,
        forall|i: int| 0 <= i < y@.len() - 1 ==> #[trigger] y@[i].degree.v < y@[i + 1].degree.v,
    ensures
        chain_entries_ok(r@, eps),
        forall|i: int| 0 <= i < r@.len() - 1 ==> #[trigger] r@[i].degree.v < r@[i + 1].degree.v,
        x@.len() > 0 || y@.len() > 0 ==> r@.len() > 0,
        x@.len() > 0 ==> r@.len() > 0 && r@[0].degree.v <= x@[0].degree.v,
        y@.len() > 0 ==> r@.len() > 0 && r@[0].degree.v <= y@[0].degree.v,
{
    let xl = x.len();
    let yl = y.len();
    let mut r: Vec<KnownAngle> = Vec::new();
    let mut xi: usize = 0;
    let mut yi: usize = 0;
    while xi < xl || yi < yl
        invariant
            xl == x@.len(),
            yl == y@.len(),
            0 <= xi <= xl,
            0 <= yi <= yl,
            chain_entries_ok(x@, eps),
            chain_entries_ok(y@, eps),
            forall|i: int|
                0 <= i < x@.len() - 1 ==> #[trigger] x@[i].degree.v < x@[i + 1].degree.v,
            forall|i: int|
                0 <= i < y@.len() - 1 ==> #[trigger] y@[i].degree.v < y@[i + 1].degree.v,
            chain_entries_ok(r@, eps),
            forall|i: int| 0 <= i < r@.len() - 1 ==> #[trigger] r@[i].degree.v < r@[i + 1].degree.v,
            r@.len() > 0 ==> r@[0].degree.v <= r@.last().degree.v,
            r@.len() > 0 && xi < xl ==> r@.last().degree.v < x@[xi as int].degree.v,
            r@.len() > 0 && yi < yl ==> r@.last().degree.v < y@[yi as int].degree.v,
            xi > 0 || yi > 0 ==> r@.len() > 0,
            xl > 0 && xi > 0 ==> r@.len() > 0 && r@[0].degree.v <= x@[0].degree.v,
            yl > 0 && yi > 0 ==> r@.len() > 0 && r@[0].degree.v <= y@[0].degree.v,
        decreases xl + yl - xi - yi,
    {
        let ghost pre = r@;
        let take_x: bool;
        let take_y: bool;
        if xi < xl && yi < yl {
            if x[xi].degree.v == y[yi].degree.v {
                take_x = true;
                take_y = true;
            } else if x[xi].degree.v < y[yi].degree.v {
                take_x = true;
                take_y = false;
            } else {
                take_x = false;
                take_y = true;
            }
        } else if xi < xl {
            take_x = true;
            take_y = false;
        } else {
            take_x = false;
            take_y = true;
        }
        if take_x {
            r.push(x[xi]);
            xi = xi + 1;
        } else {
            r.push(y[yi]);
            yi = yi + 1;
        }
        if take_y && take_x {
            yi = yi + 1;
        }
        proof {
            assert(forall|i: int| 0 <= i < pre.len() ==> r@[i] == pre[i]);
            if pre.len() > 0 {
                assert(r@[0] == pre[0]);
                assert(r@.last() == r@[r@.len() - 1]);
            }
        }
    }
    r
}

/// Build the half-angle correction table for threshold `eps`: halve the
/// `pi/3`, `pi/4` and `pi/6` anchors down to the threshold, then merge
/// the three chains ascending.
pub fn build_half_table(uc: &Vec<KnownAngle>, eps: i64) -> (r: Vec<KnownAngle>)
    requires
        uc@ == spec_unit_circle(),
        1 <= eps < PI_6_UNITS,
    ensures
        table_wf(r@, eps as int),
{
    let c3 = build_chain(uc[3], eps);
    let c4 = build_chain(uc[2], eps);
    let c6 = build_chain(uc[1], eps);
    let a3 = reversed(&c3);
    let a4 = reversed(&c4);
    let a6 = reversed(&c6);
    proof {
        lemma_reverse_chain(c3@, a3@, eps as int);
        lemma_reverse_chain(c4@, a4@, eps as int);
        lemma_reverse_chain(c6@, a6@, eps as int);
    }
    let m1 = merge_tables(&a3, &a4, Ghost(eps as int));
    let r = merge_tables(&m1, &a6, Ghost(eps as int));
    proof {
        assert(a3@[0] == c3@[c3@.len() - 1]);
        assert(r@[0].degree.v <= m1@[0].degree.v);
        assert(m1@[0].degree.v <= a3@[0].degree.v);
        assert(a3@[0].degree.v <= eps);
    }
    r
}

/// The reversal of a descending chain is ascending with the chain's
/// last element first.
proof fn lemma_reverse_chain(c: Seq<KnownAngle>, a: Seq<KnownAngle>, eps: int)
    requires
        a.len() == c.len(),
        forall|i: int| 0 <= i < c.len() ==> #[trigger] a[i] == c[c.len() - 1 - i],
        chain_entries_ok(c, eps),
        forall|i: int| 0 <= i < c.len() - 1 ==> #[trigger] c[i].degree.v > c[i + 1].degree.v,
    ensures
        chain_entries_ok(a, eps),
        forall|i: int| 0 <= i < a.len() - 1 ==> #[trigger] a[i].degree.v < a[i + 1].degree.v,
        c.len() > 0 ==> a[0] == c[c.len() - 1],
{
    assert(forall|i: int| 0 <= i < a.len() ==> #[trigger] a[i] == c[c.len() - 1 - i]);
    assert forall|i: int| 0 <= i < a.len() - 1 implies #[trigger] a[i].degree.v < a[i
        + 1].degree.v by {
        let k = c.len() - 1 - i;
        assert(a[i] == c[k]);
        assert(a[i + 1] == c[k - 1]);
        assert(c[k - 1].degree.v > c[k].degree.v);
    }
}

} // verus!
