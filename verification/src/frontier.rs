//! What a search knows between two steps, and why each step keeps it.
//!
//! The nodes split into the expanded ones, whose edges have all been looked
//! at, the reached ones that wait in the open list, and the unvisited rest.
//! The predicates here say what holds of each part; the lemmas show that
//! popping an item, labelling a neighbour and finishing a node preserve it.

use vstd::prelude::*;
use vstd::multiset::Multiset;
use crate::astar::{is_trail, ClosedListState, OpenItem, Visits};
use crate::cost::Cost;
use crate::graph::{consistent, forest, is_edge, order_preserving, queued, ranked, rooted, seeded};

verus! {

/// Whether a step out of `from` needs no further work: its target is a
/// starting point, or records a cost no higher than the way through `from`.
pub open spec fn settled<Node, C: Cost>(
    visits: Visits<Node, C>,
    from: Node,
    step: (C, Node),
) -> bool {
    visits[step.1] is StartingPoint || (visits[step.1] matches ClosedListState::PathFrom(_, c)
        && c.value() <= step.0.value() + visits[from].cost())
}

/// Whether every step in a list the neighbour function gives for `node` is
/// settled.
pub open spec fn processed<Node, C: Cost, G: Fn(&Node) -> Vec<(C, Node)>>(
    visits: Visits<Node, C>,
    neighbours: G,
    node: Node,
) -> bool {
    exists|out: Vec<(C, Node)>| #[trigger]
        call_ensures(neighbours, (&node,), out) && forall|i: int|
            0 <= i < out@.len() ==> settled(visits, node, #[trigger] out@[i])
}

/// The state of a search between two steps. Every queued item stands for a
/// reached node and carries its cost plus an estimate; every reached node is
/// expanded, queued, or the one in hand; every expanded node was no goal and
/// has all its steps settled.
pub open spec fn frontier<
    Node,
    C: Cost,
    F: Fn(&Node) -> bool,
    H: Fn(&Node) -> C,
    G: Fn(&Node) -> Vec<(C, Node)>,
>(
    visits: Visits<Node, C>,
    open: Multiset<OpenItem<Node, C>>,
    is_goal: F,
    heuristic: H,
    neighbours: G,
    expanded: Set<Node>,
    current: Option<Node>,
) -> bool {
    &&& forall|item: OpenItem<Node, C>| #[trigger]
        open.contains(item) ==> visits.dom().contains(item.node) && !(visits[item.node]
            is Unvisited) && ranked(visits, heuristic, item)
    &&& forall|n: Node|
        visits.dom().contains(n) && !(#[trigger] visits[n] is Unvisited) && !expanded.contains(n)
            && current != Some(n) ==> queued(open, n)
    &&& forall|u: Node| #[trigger]
        expanded.contains(u) ==> visits.dom().contains(u) && !(visits[u] is Unvisited)
            && processed(visits, neighbours, u) && call_ensures(is_goal, (&u,), false)
}

/// A seeded pair of containers is the state of a search that has expanded
/// nothing.
pub proof fn lemma_seeded_frontier<
    Node,
    C: Cost,
    F: Fn(&Node) -> bool,
    H: Fn(&Node) -> C,
    G: Fn(&Node) -> Vec<(C, Node)>,
>(
    visits: Visits<Node, C>,
    open: Multiset<OpenItem<Node, C>>,
    is_goal: F,
    heuristic: H,
    neighbours: G,
)
    requires
        seeded(visits, open, heuristic),
        forall|item: OpenItem<Node, C>| #[trigger]
            open.contains(item) ==> visits.dom().contains(item.node),
    ensures
        frontier(visits, open, is_goal, heuristic, neighbours, Set::empty(), None),
{
}

/// Taking an item out leaves the state intact, with the item's node in hand.
pub proof fn lemma_pop_keeps_frontier<
    Node,
    C: Cost,
    F: Fn(&Node) -> bool,
    H: Fn(&Node) -> C,
    G: Fn(&Node) -> Vec<(C, Node)>,
>(
    visits: Visits<Node, C>,
    open: Multiset<OpenItem<Node, C>>,
    is_goal: F,
    heuristic: H,
    neighbours: G,
    expanded: Set<Node>,
    item: OpenItem<Node, C>,
)
    requires
        frontier(visits, open, is_goal, heuristic, neighbours, expanded, None),
        open.contains(item),
    ensures
        frontier(
            visits,
            open.remove(item),
            is_goal,
            heuristic,
            neighbours,
            expanded,
            Some(item.node),
        ),
{
    let rest = open.remove(item);
    assert forall|x: OpenItem<Node, C>| #[trigger] rest.contains(x) implies open.contains(x) by {}
    assert forall|n: Node|
        visits.dom().contains(n) && !(#[trigger] visits[n] is Unvisited) && !expanded.contains(n)
            && Some(item.node) != Some(n) implies queued(rest, n) by {
        assert(queued(open, n));
        let x = choose|x: OpenItem<Node, C>| #[trigger] open.contains(x) && x.node == n;
        assert(x != item);
        assert(rest.contains(x));
    }
}

/// Labelling an unvisited node from the node in hand, and queueing it under
/// its cost plus an estimate, leaves the state intact.
pub proof fn lemma_label_keeps_frontier<
    Node,
    C: Cost,
    F: Fn(&Node) -> bool,
    H: Fn(&Node) -> C,
    G: Fn(&Node) -> Vec<(C, Node)>,
>(
    visits: Visits<Node, C>,
    open: Multiset<OpenItem<Node, C>>,
    is_goal: F,
    heuristic: H,
    neighbours: G,
    expanded: Set<Node>,
    current: Node,
    node: Node,
    label: ClosedListState<Node, C>,
    estimate: C,
    item: OpenItem<Node, C>,
)
    requires
        frontier(visits, open, is_goal, heuristic, neighbours, expanded, Some(current)),
        visits.dom().contains(node),
        visits[node] is Unvisited,
        label is PathFrom,
        call_ensures(heuristic, (&node,), estimate),
        item.node == node,
        item.heuristic.value() == label.cost() + estimate.value(),
    ensures
        frontier(
            visits.insert(node, label),
            open.insert(item),
            is_goal,
            heuristic,
            neighbours,
            expanded,
            Some(current),
        ),
{
    let after = visits.insert(node, label);
    let more = open.insert(item);
    assert forall|x: OpenItem<Node, C>| #[trigger] more.contains(x) implies after.dom().contains(
        x.node,
    ) && !(after[x.node] is Unvisited) && ranked(after, heuristic, x) by {
        if x == item {
            assert(ranked(after, heuristic, x));
        } else {
            assert(open.contains(x));
            let est = choose|est: C| #[trigger]
                call_ensures(heuristic, (&x.node,), est) && x.heuristic.value()
                    == visits[x.node].cost() + est.value();
            assert(call_ensures(heuristic, (&x.node,), est));
        }
    }
    assert forall|n: Node|
        after.dom().contains(n) && !(#[trigger] after[n] is Unvisited) && !expanded.contains(n)
            && Some(current) != Some(n) implies queued(more, n) by {
        if n == node {
            assert(more.contains(item));
        } else {
            assert(!(visits[n] is Unvisited));
            let x = choose|x: OpenItem<Node, C>| #[trigger] open.contains(x) && x.node == n;
            assert(more.contains(x));
        }
    }
    assert forall|u: Node| #[trigger] expanded.contains(u) implies after.dom().contains(u) && !(
    after[u] is Unvisited) && processed(after, neighbours, u) && call_ensures(
        is_goal,
        (&u,),
        false,
    ) by {
        lemma_label_keeps_processed(visits, neighbours, u, node, label);
    }
}

/// Labelling an unvisited node leaves the steps of a reached node settled.
pub proof fn lemma_label_keeps_processed<Node, C: Cost, G: Fn(&Node) -> Vec<(C, Node)>>(
    visits: Visits<Node, C>,
    neighbours: G,
    u: Node,
    node: Node,
    label: ClosedListState<Node, C>,
)
    requires
        processed(visits, neighbours, u),
        !(visits[u] is Unvisited),
        visits[node] is Unvisited,
    ensures
        processed(visits.insert(node, label), neighbours, u),
{
    let after = visits.insert(node, label);
    let out = choose|out: Vec<(C, Node)>| #[trigger]
        call_ensures(neighbours, (&u,), out) && forall|i: int|
            0 <= i < out@.len() ==> settled(visits, u, #[trigger] out@[i]);
    assert forall|i: int| 0 <= i < out@.len() implies settled(after, u, #[trigger] out@[i]) by {
        assert(settled(visits, u, out@[i]));
    }
    assert(call_ensures(neighbours, (&u,), out));
}

/// Once every step of the node in hand is settled, and the node was no goal,
/// it counts as expanded.
pub proof fn lemma_finish_keeps_frontier<
    Node,
    C: Cost,
    F: Fn(&Node) -> bool,
    H: Fn(&Node) -> C,
    G: Fn(&Node) -> Vec<(C, Node)>,
>(
    visits: Visits<Node, C>,
    open: Multiset<OpenItem<Node, C>>,
    is_goal: F,
    heuristic: H,
    neighbours: G,
    expanded: Set<Node>,
    current: Node,
)
    requires
        frontier(visits, open, is_goal, heuristic, neighbours, expanded, Some(current)),
        visits.dom().contains(current),
        !(visits[current] is Unvisited),
        processed(visits, neighbours, current),
        call_ensures(is_goal, (&current,), false),
    ensures
        frontier(visits, open, is_goal, heuristic, neighbours, expanded.insert(current), None),
{
}

/// Labelling an unvisited node from a reached one keeps the back-links a
/// forest.
pub proof fn lemma_label_keeps_forest<Node, C>(
    visits: Visits<Node, C>,
    current: Node,
    node: Node,
    cost: C,
)
    requires
        forest(visits),
        visits.dom().contains(current),
        !(visits[current] is Unvisited),
        visits.dom().contains(node),
        visits[node] is Unvisited,
    ensures
        forest(visits.insert(node, ClosedListState::PathFrom(current, cost))),
{
    let after = visits.insert(node, ClosedListState::PathFrom(current, cost));
    assert forall|n: Node| after.dom().contains(n) && !(#[trigger] after[n] is Unvisited) implies rooted(
        after,
        n,
    ) by {
        let m = if n == node {
            current
        } else {
            n
        };
        assert(!(visits[m] is Unvisited));
        assert(rooted(visits, m));
        let t = choose|t: Seq<Node>| #[trigger] is_trail(visits, t, m) && visits[t[0]] is StartingPoint;
        assert forall|i: int| 0 <= i < t.len() implies t[i] != node by {
            if i >= 1 {
                assert(visits[t[i]] is PathFrom);
            }
        }
        if n == node {
            let longer = t.push(node);
            assert forall|i: int| 1 <= i < longer.len() implies (
            #[trigger] after[longer[i]] matches ClosedListState::PathFrom(p, _) && p == longer[i
                - 1]) by {
                if i < t.len() {
                    assert(visits[t[i]] is PathFrom);
                }
            }
            assert(is_trail(after, longer, n));
            assert(after[longer[0]] is StartingPoint);
        } else {
            assert forall|i: int| 1 <= i < t.len() implies (
            #[trigger] after[t[i]] matches ClosedListState::PathFrom(p, _) && p == t[i - 1]) by {
                assert(visits[t[i]] is PathFrom);
            }
            assert(is_trail(after, t, n));
            assert(after[t[0]] is StartingPoint);
        }
    }
}

/// Seeded containers hold a forest: there are no back-links yet.
pub proof fn lemma_seeded_forest<Node, C: Cost, H: Fn(&Node) -> C>(
    visits: Visits<Node, C>,
    open: Multiset<OpenItem<Node, C>>,
    heuristic: H,
)
    requires
        seeded(visits, open, heuristic),
    ensures
        forest(visits),
{
    assert forall|n: Node| visits.dom().contains(n) && !(#[trigger] visits[n] is Unvisited) implies rooted(
        visits,
        n,
    ) by {
        let t = seq![n];
        assert(is_trail(visits, t, n));
        assert(visits[t[0]] is StartingPoint);
    }
}

/// Whether the cost recorded for `node` is what some neighbour offered when
/// the search stood at `floor` or below: for some edge into `node`, the cost
/// plus the estimate at the edge's origin is at most `floor` plus the edge
/// cost.
pub open spec fn anchored<Node, C: Cost, H: Fn(&Node) -> C, G: Fn(&Node) -> Vec<(C, Node)>>(
    visits: Visits<Node, C>,
    heuristic: H,
    neighbours: G,
    node: Node,
    floor: nat,
) -> bool {
    exists|p: Node, w: C, est: C|
        #![trigger is_edge(neighbours, p, w, node), call_ensures(heuristic, (&p,), est)]
        is_edge(neighbours, p, w, node) && call_ensures(heuristic, (&p,), est)
            && visits[node].cost() + est.value() <= floor + w.value()
}

/// What holds of a search whose estimated totals never decrease: nothing
/// queued lies below `floor`, the estimated total of the last popped item,
/// and every node the search has labelled is anchored there.
pub open spec fn monotone<Node, C: Cost, H: Fn(&Node) -> C, G: Fn(&Node) -> Vec<(C, Node)>>(
    before: Visits<Node, C>,
    visits: Visits<Node, C>,
    open: Multiset<OpenItem<Node, C>>,
    heuristic: H,
    neighbours: G,
    floor: nat,
) -> bool {
    &&& forall|item: OpenItem<Node, C>| #[trigger]
        open.contains(item) ==> floor <= item.heuristic.value()
    &&& forall|v: Node|
        before.dom().contains(v) && before[v] is Unvisited && !(#[trigger] visits[v] is Unvisited)
            ==> anchored(visits, heuristic, neighbours, v, floor)
}

/// Popping a least item raises the floor to its estimated total.
pub proof fn lemma_pop_keeps_monotone<
    Node,
    C: Cost,
    H: Fn(&Node) -> C,
    G: Fn(&Node) -> Vec<(C, Node)>,
>(
    before: Visits<Node, C>,
    visits: Visits<Node, C>,
    open: Multiset<OpenItem<Node, C>>,
    heuristic: H,
    neighbours: G,
    floor: nat,
    item: OpenItem<Node, C>,
)
    requires
        monotone(before, visits, open, heuristic, neighbours, floor),
        open.contains(item),
        forall|x: OpenItem<Node, C>| #[trigger]
            open.contains(x) ==> item.heuristic.value() <= x.heuristic.value(),
    ensures
        monotone(
            before,
            visits,
            open.remove(item),
            heuristic,
            neighbours,
            item.heuristic.value(),
        ),
{
    let rest = open.remove(item);
    let raised = item.heuristic.value();
    assert forall|x: OpenItem<Node, C>| #[trigger] rest.contains(x) implies raised
        <= x.heuristic.value() by {
        assert(open.contains(x));
    }
    assert forall|v: Node|
        before.dom().contains(v) && before[v] is Unvisited && !(#[trigger] visits[v]
            is Unvisited) implies anchored(visits, heuristic, neighbours, v, raised) by {
        assert(anchored(visits, heuristic, neighbours, v, floor));
        let (p, w, est) = choose|p: Node, w: C, est: C|
            #![trigger is_edge(neighbours, p, w, v), call_ensures(heuristic, (&p,), est)]
            is_edge(neighbours, p, w, v) && call_ensures(heuristic, (&p,), est) && visits[v].cost()
                + est.value() <= floor + w.value();
        assert(is_edge(neighbours, p, w, v) && call_ensures(heuristic, (&p,), est));
    }
}

/// Under a consistent heuristic, labelling a neighbour of the popped node
/// and queueing it keeps the search monotone.
pub proof fn lemma_label_keeps_monotone<
    Node,
    C: Cost,
    H: Fn(&Node) -> C,
    G: Fn(&Node) -> Vec<(C, Node)>,
>(
    before: Visits<Node, C>,
    visits: Visits<Node, C>,
    open: Multiset<OpenItem<Node, C>>,
    heuristic: H,
    neighbours: G,
    floor: nat,
    current: Node,
    current_estimate: C,
    step: (C, Node),
    label: ClosedListState<Node, C>,
    estimate: C,
    item: OpenItem<Node, C>,
)
    requires
        monotone(before, visits, open, heuristic, neighbours, floor),
        consistent(heuristic, neighbours),
        is_edge(neighbours, current, step.0, step.1),
        call_ensures(heuristic, (&current,), current_estimate),
        floor == visits[current].cost() + current_estimate.value(),
        visits[step.1] is Unvisited,
        label is PathFrom,
        label.cost() == step.0.value() + visits[current].cost(),
        call_ensures(heuristic, (&step.1,), estimate),
        item.heuristic.value() == label.cost() + estimate.value(),
    ensures
        monotone(
            before,
            visits.insert(step.1, label),
            open.insert(item),
            heuristic,
            neighbours,
            floor,
        ),
{
    let after = visits.insert(step.1, label);
    let more = open.insert(item);
    assert forall|x: OpenItem<Node, C>| #[trigger] more.contains(x) implies floor
        <= x.heuristic.value() by {
        if x != item {
            assert(open.contains(x));
        }
    }
    assert forall|v: Node|
        before.dom().contains(v) && before[v] is Unvisited && !(#[trigger] after[v]
            is Unvisited) implies anchored(after, heuristic, neighbours, v, floor) by {
        if v == step.1 {
            assert(is_edge(neighbours, current, step.0, v) && call_ensures(
                heuristic,
                (&current,),
                current_estimate,
            ));
        } else {
            assert(anchored(visits, heuristic, neighbours, v, floor));
            let (p, w, est) = choose|p: Node, w: C, est: C|
                #![trigger is_edge(neighbours, p, w, v), call_ensures(heuristic, (&p,), est)]
                is_edge(neighbours, p, w, v) && call_ensures(heuristic, (&p,), est)
                    && visits[v].cost() + est.value() <= floor + w.value();
            assert(is_edge(neighbours, p, w, v) && call_ensures(heuristic, (&p,), est));
        }
    }
}

/// In a monotone search over order-preserving edges, the popped node offers
/// no labelled neighbour a cost below the one it records.
pub proof fn lemma_no_cheaper_way<
    Node,
    C: Cost,
    H: Fn(&Node) -> C,
    G: Fn(&Node) -> Vec<(C, Node)>,
>(
    before: Visits<Node, C>,
    visits: Visits<Node, C>,
    open: Multiset<OpenItem<Node, C>>,
    heuristic: H,
    neighbours: G,
    floor: nat,
    current: Node,
    current_estimate: C,
    step: (C, Node),
)
    requires
        monotone(before, visits, open, heuristic, neighbours, floor),
        order_preserving(heuristic, neighbours),
        is_edge(neighbours, current, step.0, step.1),
        call_ensures(heuristic, (&current,), current_estimate),
        floor == visits[current].cost() + current_estimate.value(),
        before.dom().contains(step.1),
        before[step.1] is Unvisited,
        !(visits[step.1] is Unvisited),
    ensures
        visits[step.1].cost() <= step.0.value() + visits[current].cost(),
{
    let v = step.1;
    assert(anchored(visits, heuristic, neighbours, v, floor));
    let (p, w, est) = choose|p: Node, w: C, est: C|
        #![trigger is_edge(neighbours, p, w, v), call_ensures(heuristic, (&p,), est)]
        is_edge(neighbours, p, w, v) && call_ensures(heuristic, (&p,), est) && visits[v].cost()
            + est.value() <= floor + w.value();
    assert(is_edge(neighbours, current, step.0, v) && is_edge(neighbours, p, w, v) && call_ensures(
        heuristic,
        (&current,),
        current_estimate,
    ) && call_ensures(heuristic, (&p,), est));
}

} // verus!
