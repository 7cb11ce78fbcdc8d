//! Comparison of count results: by slime chunks counted, then nearer to
//! the centre ranks higher.
use vstd::prelude::*;
use std::cmp::Ordering;
use crate::counter::CountResult;

verus! {

/// How `a` compares to `b`: more slime chunks is greater, and with as many,
/// a smaller squared distance is greater.
pub open spec fn result_order(a: CountResult, b: CountResult) -> Ordering {
    if a.slime_count < b.slime_count {
        Ordering::Less
    } else if a.slime_count > b.slime_count {
        Ordering::Greater
    } else if a.distance_sq > b.distance_sq {
        Ordering::Less
    } else if a.distance_sq < b.distance_sq {
        Ordering::Greater
    } else {
        Ordering::Equal
    }
}

impl CountResult {
    /// Compares by slime chunks counted, then by squared distance reversed.
    pub fn cmp(&self, other: &Self) -> (r: Ordering)
        ensures
            r == result_order(*self, *other),
    {
        if self.slime_count < other.slime_count {
            Ordering::Less
        } else if self.slime_count > other.slime_count {
            Ordering::Greater
        } else if self.distance_sq > other.distance_sq {
            Ordering::Less
        } else if self.distance_sq < other.distance_sq {
            Ordering::Greater
        } else {
            Ordering::Equal
        }
    }
}

impl PartialEq for CountResult {
    /// Equal counts and equal squared distances.
    fn eq(&self, other: &Self) -> (r: bool) {
        self.slime_count == other.slime_count && self.distance_sq == other.distance_sq
    }
}

impl vstd::std_specs::cmp::PartialEqSpecImpl for CountResult {
    open spec fn obeys_eq_spec() -> bool {
        true
    }

    open spec fn eq_spec(&self, other: &CountResult) -> bool {
        self.slime_count == other.slime_count && self.distance_sq == other.distance_sq
    }
}

impl Eq for CountResult {}

impl PartialOrd for CountResult {
    /// Always some ordering: the one of [`CountResult::cmp`].
    fn partial_cmp(&self, other: &Self) -> (r: Option<Ordering>) {
        Some(self.cmp(other))
    }
}

impl vstd::std_specs::cmp::PartialOrdSpecImpl for CountResult {
    open spec fn obeys_partial_cmp_spec() -> bool {
        true
    }

    open spec fn partial_cmp_spec(&self, other: &CountResult) -> Option<Ordering> {
        Some(result_order(*self, *other))
    }
}

} // verus!
