//! The order of distances, and of search entries by their distance.

use std::cmp::Ordering;
use vstd::prelude::*;
use vstd::std_specs::cmp::PartialOrdSpecImpl;
use crate::key::Distance;
use crate::routing::NodeAndDistance;

verus! {

/// Distances are ordered as the numbers they are.
impl PartialOrd for Distance {
    fn partial_cmp(&self, other: &Distance) -> (r: Option<Ordering>) {
        if self.closer_than(other) {
            Some(Ordering::Less)
        } else if other.closer_than(self) {
            Some(Ordering::Greater)
        } else {
            Some(Ordering::Equal)
        }
    }
}

impl PartialOrdSpecImpl for Distance {
    open spec fn obeys_partial_cmp_spec() -> bool {
        true
    }

    open spec fn partial_cmp_spec(&self, other: &Distance) -> Option<Ordering> {
        if self.value() < other.value() {
            Some(Ordering::Less)
        } else if self.value() > other.value() {
            Some(Ordering::Greater)
        } else {
            Some(Ordering::Equal)
        }
    }
}

/// Entries are ordered against their distances: the nearer entry is the
/// greater, so that a max-heap hands out the nearest first.
impl PartialOrd for NodeAndDistance {
    fn partial_cmp(&self, other: &NodeAndDistance) -> (r: Option<Ordering>) {
        if other.1.closer_than(&self.1) {
            Some(Ordering::Less)
        } else if self.1.closer_than(&other.1) {
            Some(Ordering::Greater)
        } else {
            Some(Ordering::Equal)
        }
    }
}

impl PartialOrdSpecImpl for NodeAndDistance {
    open spec fn obeys_partial_cmp_spec() -> bool {
        true
    }

    open spec fn partial_cmp_spec(&self, other: &NodeAndDistance) -> Option<Ordering> {
        if other.1.value() < self.1.value() {
            Some(Ordering::Less)
        } else if other.1.value() > self.1.value() {
            Some(Ordering::Greater)
        } else {
            Some(Ordering::Equal)
        }
    }
}

} // verus!
