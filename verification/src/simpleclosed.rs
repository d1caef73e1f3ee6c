//! A closed list backed by a vector, one slot per solar system index.

use vstd::prelude::*;
use crate::astar::{ClosedList, ClosedListState, Visits};
use crate::cost::Cost;
use crate::evemap::SolarSystemIndex;

verus! {

pub struct SimpleClosed<C>(Vec<ClosedListState<SolarSystemIndex, C>>);

impl<C: Cost> SimpleClosed<C> {
    /// A closed list with room for the indices below `capacity`, all of them
    /// unvisited.
    pub fn new(capacity: usize) -> (closed: Self)
        ensures
            closed@.dom() == Set::new(|n: SolarSystemIndex| n.offset() < capacity),
            forall|n: SolarSystemIndex| closed@.dom().contains(n) ==> closed@[n] is Unvisited,
    {
        let mut slots: Vec<ClosedListState<SolarSystemIndex, C>> = Vec::new();
        let mut i: usize = 0;
        while i < capacity
            invariant
                i <= capacity,
                slots@.len() == i,
                forall|j: int| 0 <= j < i ==> slots@[j] is Unvisited,
            decreases capacity - i,
        {
            slots.push(ClosedListState::Unvisited);
            i = i + 1;
        }
        let closed = SimpleClosed(slots);
        assert(closed@.dom() =~= Set::new(|n: SolarSystemIndex| n.offset() < capacity));
        closed
    }
}

impl<C: Cost> ClosedList<SolarSystemIndex, C> for SimpleClosed<C> {
    closed spec fn view(&self) -> Visits<SolarSystemIndex, C> {
        Map::new(
            |n: SolarSystemIndex| n.offset() < self.0@.len(),
            |n: SolarSystemIndex| self.0@[n.offset() as int],
        )
    }

    proof fn domain_is_finite(&self) {
        SolarSystemIndex::finitely_many_below(self.0@.len());
        assert(self@.dom() =~= Set::new(|n: SolarSystemIndex| n.offset() < self.0@.len()));
    }

    fn get(&self, node: SolarSystemIndex) -> (s: ClosedListState<SolarSystemIndex, C>) {
        self.0[node.position()]
    }

    fn set(&mut self, node: SolarSystemIndex, state: ClosedListState<SolarSystemIndex, C>) {
        let i = node.position();
        self.0[i] = state;
        proof {
            assert forall|n: SolarSystemIndex|
                n.offset() < self.0@.len() && n != node implies self.0@[n.offset() as int] == old(
                self,
            ).0@[n.offset() as int] by {
                if n.offset() == node.offset() {
                    SolarSystemIndex::offset_is_injective(n, node);
                }
            }
            assert(self@ =~= old(self)@.insert(node, state));
        }
    }
}

} // verus!
