//! Approximate comparison of backend values.

use vstd::prelude::*;

use crate::fixed::{abs_int, Fixed};

verus! {

/// A type whose values can be compared up to a threshold.
pub trait NearlyEquals<T>: Sized {
    /// What counts as nearly equal, stated over the values.
    spec fn nearly_eq_spec(self, other: Self, threshold: T) -> bool;

    /// Whether `self` and `other` differ by at most `threshold`.
    fn nearly_equals(self, other: Self, threshold: T) -> (r: bool)
        ensures
            r == self.nearly_eq_spec(other, threshold),
    ;
}

impl NearlyEquals<Fixed> for Fixed {
    open spec fn nearly_eq_spec(self, other: Fixed, threshold: Fixed) -> bool {
        abs_int(self.v - other.v) <= threshold.v
    }

    fn nearly_equals(self, other: Fixed, threshold: Fixed) -> (r: bool) {
        let diff: i128 = self.v as i128 - other.v as i128;
        let mag: i128 = if diff < 0 {
            -diff
        } else {
            diff
        };
        mag <= threshold.v as i128
    }
}

} // verus!
