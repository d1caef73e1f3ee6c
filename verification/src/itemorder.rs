//! How open items compare: by their estimate alone, and in reverse, so that
//! a container that hands out its greatest item hands out the item of least
//! estimate.

use vstd::prelude::*;
use vstd::std_specs::cmp::{PartialEqSpecImpl, PartialOrdSpecImpl};
use core::cmp::Ordering;
use crate::astar::OpenItem;
use crate::cost::Cost;

verus! {

impl<Node, C: Cost> PartialEq for OpenItem<Node, C> {
    /// Two items are equal for ordering where their estimates are; the node
    /// plays no part.
    fn eq(&self, other: &Self) -> (same: bool) {
        self.heuristic.at_most(other.heuristic) && other.heuristic.at_most(self.heuristic)
    }
}

impl<Node, C: Cost> PartialEqSpecImpl for OpenItem<Node, C> {
    open spec fn obeys_eq_spec() -> bool {
        true
    }

    open spec fn eq_spec(&self, other: &Self) -> bool {
        self.heuristic.value() == other.heuristic.value()
    }
}

impl<Node, C: Cost> PartialOrd for OpenItem<Node, C> {
    /// The order of the estimates, reversed: the item of lower estimate is
    /// the greater.
    fn partial_cmp(&self, other: &Self) -> (order: Option<Ordering>) {
        if !self.heuristic.at_most(other.heuristic) {
            Some(Ordering::Less)
        } else if !other.heuristic.at_most(self.heuristic) {
            Some(Ordering::Greater)
        } else {
            Some(Ordering::Equal)
        }
    }
}

impl<Node, C: Cost> PartialOrdSpecImpl for OpenItem<Node, C> {
    open spec fn obeys_partial_cmp_spec() -> bool {
        true
    }

    open spec fn partial_cmp_spec(&self, other: &Self) -> Option<Ordering> {
        if self.heuristic.value() > other.heuristic.value() {
            Some(Ordering::Less)
        } else if self.heuristic.value() < other.heuristic.value() {
            Some(Ordering::Greater)
        } else {
            Some(Ordering::Equal)
        }
    }
}

} // verus!
