//! The greedy correction loop: express a target angle as a known angle
//! plus a shrinking sequence of table corrections.
//!
//! Starting from an initial guess, each round measures the error against
//! the target, binary-searches the correction table for the largest entry
//! not above that error, and adds or subtracts it. Every correction
//! strictly shrinks the error, and the table's smallest entry is within
//! the threshold, so the loop always ends with the degree within the
//! threshold of the target. The whole run is pinned to the spec function
//! [`spec_decompose`], so equal inputs give bit-for-bit equal results.

use vstd::prelude::*;

use crate::angle::{fields_bounded, spec_angle_add, spec_angle_sub, KnownAngle};
use crate::fixed::{abs_int, Fixed, HALF_PI_UNITS, PI_3_UNITS, SCALE};

verus! {

/// A single correction-table entry: a positive angle no larger than
/// `pi / 3`, with sine and cosine in `[0, 1]`.
pub open spec fn entry_wf(a: KnownAngle) -> bool {
    &&& 1 <= a.degree.v <= PI_3_UNITS
    &&& 0 <= a.sin.v <= SCALE
    &&& 0 <= a.cos.v <= SCALE
}

/// A well-formed correction table for threshold `eps`: well-formed
/// entries, strictly ascending degrees, the smallest entry within `eps`,
/// and every entry above half of `eps`.
pub open spec fn table_wf(t: Seq<KnownAngle>, eps: int) -> bool {
    &&& 1 <= t.len()
    &&& (forall|i: int| 0 <= i < t.len() ==> entry_wf(#[trigger] t[i]))
    &&& (forall|i: int|
        0 <= i < t.len() - 1 ==> #[trigger] t[i].degree.v < t[i + 1].degree.v)
    &&& t[0].degree.v <= eps
    &&& (forall|i: int| 0 <= i < t.len() ==> 2 * (#[trigger] t[i].degree.v) + 1 > eps)
}

/// In an ascending table, degrees grow with the index.
pub proof fn lemma_sorted_index(t: Seq<KnownAngle>, i: int, j: int)
    requires
        forall|k: int| 0 <= k < t.len() - 1 ==> #[trigger] t[k].degree.v < t[k + 1].degree.v,
        0 <= i <= j < t.len(),
    ensures
        t[i].degree.v <= t[j].degree.v,
    decreases j - i,
{
    if i < j {
        lemma_sorted_index(t, i, j - 1);
        assert(t[j - 1].degree.v < t[j].degree.v);
    }
}

/// The greatest index below `hi` whose entry is within `err`,
/// or `-1` when there is none.
pub open spec fn spec_find_le(t: Seq<KnownAngle>, hi: int, err: int) -> int
    decreases hi,
{
    if hi <= 0 {
        -1
    } else if t[hi - 1].degree.v <= err {
        hi - 1
    } else {
        spec_find_le(t, hi - 1, err)
    }
}

/// An index whose entry is within `err` and below which everything up to
/// `hi` is above `err` is what `spec_find_le` names.
proof fn lemma_spec_find_le_agrees(t: Seq<KnownAngle>, hi: int, err: int, idx: int)
    requires
        0 <= idx < hi <= t.len(),
        t[idx].degree.v <= err,
        forall|j: int| idx < j < hi ==> #[trigger] t[j].degree.v > err,
    ensures
        spec_find_le(t, hi, err) == idx,
    decreases hi,
{
    if hi - 1 > idx {
        lemma_spec_find_le_agrees(t, hi - 1, err, idx);
    }
}

/// Binary search for the largest entry below `hi` whose degree does not
/// exceed `err`; the first entry must qualify.
pub fn find_le(table: &Vec<KnownAngle>, hi: usize, err: i64) -> (idx: usize)
    requires
        0 < hi <= table@.len(),
        forall|k: int|
            0 <= k < table@.len() - 1 ==> #[trigger] table@[k].degree.v < table@[k
                + 1].degree.v,
        table@[0].degree.v <= err,
    ensures
        idx < hi,
        table@[idx as int].degree.v <= err,
        forall|j: int| idx < j < hi ==> #[trigger] table@[j].degree.v > err,
        idx as int == spec_find_le(table@, hi as int, err as int),
{
    let mut lo: usize = 0;
    let mut up: usize = hi;
    while lo + 1 < up
        invariant
            0 <= lo < up <= hi <= table@.len(),
            forall|k: int|
                0 <= k < table@.len() - 1 ==> #[trigger] table@[k].degree.v < table@[k
                    + 1].degree.v,
            table@[lo as int].degree.v <= err,
            forall|j: int| up <= j < hi ==> #[trigger] table@[j].degree.v > err,
        decreases up - lo,
    {
        let mid = lo + (up - lo) / 2;
        if table[mid].degree.v <= err {
            lo = mid;
        } else {
            proof {
                assert forall|j: int| mid <= j < hi implies #[trigger] table@[j].degree.v
                    > err by {
                    if j < up {
                        lemma_sorted_index(table@, mid as int, j);
                    }
                }
            }
            up = mid;
        }
    }
    proof {
        lemma_spec_find_le_agrees(table@, hi as int, err as int, lo as int);
    }
    lo
}

/// The whole correction loop, as a function of its inputs. The fuel
/// bounds the rounds; one more than the initial error always suffices,
/// since every round shrinks the error by at least one unit.
pub open spec fn spec_decompose(
    t: Seq<KnownAngle>,
    target: int,
    cur: KnownAngle,
    hi: int,
    eps: int,
    fuel: nat,
) -> KnownAngle
    decreases fuel,
{
    let err = cur.degree.v - target;
    if abs_int(err) <= eps || fuel == 0 {
        cur
    } else {
        let i = spec_find_le(t, hi, abs_int(err));
        if i < 0 {
            cur
        } else {
            let next = if err > 0 {
                spec_angle_sub(cur, t[i])
            } else {
                spec_angle_add(cur, t[i])
            };
            spec_decompose(t, target, next, i + 1, eps, (fuel - 1) as nat)
        }
    }
}

/// Decompose `target` from the guess `initial`: correct the guess with
/// ever smaller table entries until its degree is within `eps` of the
/// target.
pub fn decompose(table: &Vec<KnownAngle>, eps: i64, target: Fixed, initial: KnownAngle) -> (r:
    KnownAngle)
    requires
        table_wf(table@, eps as int),
        1 <= eps,
        0 <= target.v <= HALF_PI_UNITS,
        fields_bounded(initial),
        0 <= initial.degree.v <= HALF_PI_UNITS,
        abs_int(initial.degree.v - target.v) <= SCALE,
    ensures
        r == spec_decompose(
            table@,
            target.v as int,
            initial,
            table@.len() as int,
            eps as int,
            (abs_int(initial.degree.v - target.v) + 1) as nat,
        ),
        abs_int(r.degree.v - target.v) <= eps,
        fields_bounded(r),
{
    let mut cur = initial;
    let mut hi = table.len();
    let ghost fuel0 = (abs_int(initial.degree.v - target.v) + 1) as nat;
    let ghost mut fuel = fuel0;
    loop
        invariant
            table_wf(table@, eps as int),
            1 <= eps,
            0 <= target.v <= HALF_PI_UNITS,
            0 < hi <= table@.len(),
            fields_bounded(cur),
            abs_int(cur.degree.v - target.v) <= SCALE,
            fuel >= abs_int(cur.degree.v - target.v) + 1,
            spec_decompose(table@, target.v as int, cur, hi as int, eps as int, fuel)
                == spec_decompose(
                table@,
                target.v as int,
                initial,
                table@.len() as int,
                eps as int,
                fuel0,
            ),
        ensures
            abs_int(cur.degree.v - target.v) <= eps,
            spec_decompose(table@, target.v as int, cur, hi as int, eps as int, fuel)
                == spec_decompose(
                table@,
                target.v as int,
                initial,
                table@.len() as int,
                eps as int,
                fuel0,
            ),
            fields_bounded(cur),
        decreases abs_int(cur.degree.v - target.v),
    {
        let err: i64 = cur.degree.v - target.v;
        let aerr: i64 = if err < 0 {
            -err
        } else {
            err
        };
        if aerr <= eps {
            break ;
        }
        let idx = find_le(table, hi, aerr);
        let correction = table[idx];
        proof {
            assert(entry_wf(table@[idx as int]));
            assert(correction.degree.v <= aerr);
            assert(1 <= correction.degree.v);
            assert(abs_int(correction.sin.v as int) <= crate::angle::TWO_SCALE);
            assert(abs_int(correction.cos.v as int) <= crate::angle::TWO_SCALE);
        }
        let ghost pre = cur;
        if err > 0 {
            cur = cur.sub(correction);
        } else {
            cur = cur.add(correction);
        }
        proof {
            assert(abs_int(cur.degree.v - target.v) == abs_int(pre.degree.v - target.v)
                - correction.degree.v);
            assert(spec_decompose(table@, target.v as int, pre, hi as int, eps as int, fuel)
                == spec_decompose(
                table@,
                target.v as int,
                cur,
                idx + 1,
                eps as int,
                (fuel - 1) as nat,
            ));
            fuel = (fuel - 1) as nat;
        }
        hi = idx + 1;
    }
    proof {
        assert(spec_decompose(table@, target.v as int, cur, hi as int, eps as int, fuel) == cur);
    }
    cur
}

} // verus!
