//! An open list kept as a binary min-heap in a vector.
//!
//! The list does not look for an earlier entry of the same node: a node may
//! be queued several times, under different estimates.

use vstd::prelude::*;
use vstd::multiset::Multiset;
use vstd::seq_lib::{
    to_multiset_build, to_multiset_contains, to_multiset_len, to_multiset_remove,
    to_multiset_update,
};
use crate::astar::{OpenItem, OpenList};
use crate::cost::Cost;

verus! {

/// Whether every item is at least as large as the one at its parent position,
/// so that the least estimate stands first.
pub open spec fn heap_ordered<N, C: Cost>(s: Seq<OpenItem<N, C>>) -> bool {
    forall|i: int|
        1 <= i < s.len() ==> s[(i - 1) / 2].heuristic.value() <= (#[trigger] s[i]).heuristic.value()
}

/// In an ordered heap no item is smaller than the first.
pub proof fn lemma_first_is_least<N, C: Cost>(s: Seq<OpenItem<N, C>>, i: int)
    requires
        heap_ordered(s),
        0 <= i < s.len(),
    ensures
        s[0].heuristic.value() <= s[i].heuristic.value(),
    decreases i,
{
    if i > 0 {
        lemma_first_is_least(s, (i - 1) / 2);
    }
}

/// Exchanging two items leaves the multiset of items as it was.
proof fn lemma_exchange_keeps_items<N, C>(s: Seq<OpenItem<N, C>>, i: int, j: int)
    requires
        0 <= i < s.len(),
        0 <= j < s.len(),
    ensures
        s.update(i, s[j]).update(j, s[i]).to_multiset() == s.to_multiset(),
{
    broadcast use to_multiset_update;

    let t = s.update(i, s[j]);
    assert(t.to_multiset() =~= s.to_multiset().insert(s[j]).remove(s[i]));
    assert(t.update(j, s[i]).to_multiset() =~= t.to_multiset().insert(s[i]).remove(t[j]));
    to_multiset_contains(s, s[i]);
    to_multiset_contains(s, s[j]);
    assert(s.contains(s[i]));
    assert(s.contains(s[j]));
    assert(t.update(j, s[i]).to_multiset() =~= s.to_multiset());
}

/// Moves the last item up until its parent is no larger.
fn sift_up<N: Copy, C: Cost>(heap: &mut Vec<OpenItem<N, C>>)
    requires
        old(heap)@.len() >= 1,
        heap_ordered(old(heap)@.drop_last()),
    ensures
        heap_ordered(final(heap)@),
        final(heap)@.to_multiset() == old(heap)@.to_multiset(),
{
    let mut i: usize = heap.len() - 1;
    assert forall|j: int| 1 <= j < heap@.len() && j != i implies heap@[(j - 1) / 2].heuristic.value()
        <= (#[trigger] heap@[j]).heuristic.value() by {
        assert(heap@.drop_last()[j] == heap@[j]);
    }
    while i > 0
        invariant
            i < heap@.len(),
            heap@.len() == old(heap)@.len(),
            heap@.to_multiset() == old(heap)@.to_multiset(),
            forall|j: int|
                1 <= j < heap@.len() && j != i ==> heap@[(j - 1) / 2].heuristic.value() <= (
                #[trigger] heap@[j]).heuristic.value(),
            forall|j: int|
                1 <= j < heap@.len() && (j - 1) / 2 == i && i >= 1 ==> heap@[(i - 1)
                    / 2].heuristic.value() <= (#[trigger] heap@[j]).heuristic.value(),
        ensures
            heap_ordered(heap@),
            heap@.to_multiset() == old(heap)@.to_multiset(),
        decreases i,
    {
        let parent: usize = (i - 1) / 2;
        let below = heap[i];
        let above = heap[parent];
        if above.heuristic.at_most(below.heuristic) {
            break ;
        }
        proof {
            lemma_exchange_keeps_items(heap@, i as int, parent as int);
        }
        let ghost before = heap@;
        heap[i] = above;
        heap[parent] = below;
        assert(heap@ == before.update(i as int, above).update(parent as int, below));
        i = parent;
    }
}

/// Moves the first item down until neither child is smaller.
fn sift_down<N: Copy, C: Cost>(heap: &mut Vec<OpenItem<N, C>>)
    requires
        forall|j: int|
            1 <= j < old(heap)@.len() && (j - 1) / 2 != 0 ==> old(heap)@[(j - 1)
                / 2].heuristic.value() <= (#[trigger] old(heap)@[j]).heuristic.value(),
    ensures
        heap_ordered(final(heap)@),
        final(heap)@.to_multiset() == old(heap)@.to_multiset(),
{
    let len = heap.len();
    let half: usize = len / 2;
    let mut i: usize = 0;
    while i < half
        invariant
            len == heap@.len(),
            half == len / 2,
            heap@.to_multiset() == old(heap)@.to_multiset(),
            forall|j: int|
                1 <= j < heap@.len() && (j - 1) / 2 != i ==> heap@[(j - 1) / 2].heuristic.value()
                    <= (#[trigger] heap@[j]).heuristic.value(),
            forall|j: int|
                1 <= j < heap@.len() && (j - 1) / 2 == i && i >= 1 ==> heap@[(i - 1)
                    / 2].heuristic.value() <= (#[trigger] heap@[j]).heuristic.value(),
        ensures
            heap_ordered(heap@),
            heap@.to_multiset() == old(heap)@.to_multiset(),
        decreases len - i,
    {
        let left: usize = 2 * i + 1;
        let right: usize = left + 1;
        let mut child: usize = left;
        if right < len && !heap[left].heuristic.at_most(heap[right].heuristic) {
            child = right;
        }
        let above = heap[i];
        let below = heap[child];
        if above.heuristic.at_most(below.heuristic) {
            break ;
        }
        proof {
            lemma_exchange_keeps_items(heap@, i as int, child as int);
        }
        let ghost before = heap@;
        heap[i] = below;
        heap[child] = above;
        assert(heap@ == before.update(i as int, below).update(child as int, above));
        i = child;
    }
}

/// SimpleOpenList is a simplistic open list: a priority queue that does not
/// check whether the node of a new item is queued already, so the queue may
/// come to hold items of higher cost than pending ones for the same node.
pub struct SimpleOpenList<N, C: Cost> {
    ordering: Vec<OpenItem<N, C>>,
}

impl<N, C: Cost> SimpleOpenList<N, C> {
    #[verifier::type_invariant]
    spec fn ordered(self) -> bool {
        heap_ordered(self.ordering@)
    }

    /// The items in the order in which the vector holds them.
    pub closed spec fn layout(self) -> Seq<OpenItem<N, C>> {
        self.ordering@
    }

}

impl<N: Copy, C: Cost> SimpleOpenList<N, C> {
    /// An open list without items.
    pub fn new() -> (list: Self)
        ensures
            list@ == Multiset::<OpenItem<N, C>>::empty(),
    {
        let list = Self { ordering: Vec::new() };
        assert(list@ =~= Multiset::<OpenItem<N, C>>::empty()) by {
            to_multiset_len(list.ordering@);
        }
        list
    }
}

impl<N: Copy, C: Cost> OpenList<N, C> for SimpleOpenList<N, C> {
    open spec fn view(&self) -> Multiset<OpenItem<N, C>> {
        self.layout().to_multiset()
    }

    fn is_empty(&self) -> (b: bool) {
        proof {
            to_multiset_len(self.ordering@);
        }
        self.ordering.len() == 0
    }

    fn push_open(&mut self, e: OpenItem<N, C>) {
        proof {
            use_type_invariant(&*self);
        }
        let mut heap: Vec<OpenItem<N, C>> = Vec::new();
        core::mem::swap(&mut heap, &mut self.ordering);
        let ghost before = heap@;
        heap.push(e);
        proof {
            assert(heap@.drop_last() =~= before);
            to_multiset_build(before, e);
        }
        sift_up(&mut heap);
        self.ordering = heap;
    }

    fn pop_min(&mut self) -> (popped: Option<OpenItem<N, C>>) {
        proof {
            use_type_invariant(&*self);
            to_multiset_len(self.ordering@);
        }
        if self.ordering.len() == 0 {
            return None;
        }
        let mut heap: Vec<OpenItem<N, C>> = Vec::new();
        core::mem::swap(&mut heap, &mut self.ordering);
        let ghost before = heap@;
        let last: usize = heap.len() - 1;
        let top = heap[0];
        let moved = heap[last];
        heap[0] = moved;
        let ghost shifted = heap@;
        heap.pop();
        proof {
            to_multiset_update(before, 0, moved);
            to_multiset_remove(shifted, last as int);
            assert(heap@ =~= shifted.remove(last as int));
            to_multiset_contains(before, moved);
            to_multiset_contains(before, top);
            assert(before.contains(moved));
            assert(before.contains(top));
            assert(heap@.to_multiset() =~= before.to_multiset().remove(top));
            assert forall|x: OpenItem<N, C>| #[trigger]
                before.to_multiset().contains(x) implies top.heuristic.value()
                <= x.heuristic.value() by {
                to_multiset_contains(before, x);
                let k = choose|k: int| 0 <= k < before.len() && before[k] == x;
                lemma_first_is_least(before, k);
            }
        }
        sift_down(&mut heap);
        self.ordering = heap;
        Some(top)
    }
}

} // verus!
