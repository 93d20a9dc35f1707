//! The order of dates: by year, then by month, then by day.

use crate::calendar::{precedes, Date};
use core::cmp::Ordering;
use vstd::prelude::*;
use vstd::std_specs::cmp::PartialOrdSpecImpl;

verus! {

impl PartialOrd for Date {
    /// Compares by year, then by month, then by day.
    fn partial_cmp(&self, other: &Self) -> (r: Option<Ordering>) {
        match self.year.partial_cmp(&other.year) {
            Some(Ordering::Equal) => match self.month.partial_cmp(&other.month) {
                Some(Ordering::Equal) => self.day.partial_cmp(&other.day),
                other => other,
            },
            other => other,
        }
    }
}

impl PartialOrdSpecImpl for Date {
    /// The comparison keeps to [`Self::partial_cmp_spec`].
    open spec fn obeys_partial_cmp_spec() -> bool {
        true
    }

    /// Less where `self` comes before `other`, greater where it comes after.
    open spec fn partial_cmp_spec(&self, other: &Self) -> Option<Ordering> {
        if precedes(*self, *other) {
            Some(Ordering::Less)
        } else if precedes(*other, *self) {
            Some(Ordering::Greater)
        } else {
            Some(Ordering::Equal)
        }
    }
}

} // verus!
