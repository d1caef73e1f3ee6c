//! What a search is run on, in mathematical terms: graphs and the walks
//! along their edges, the properties a heuristic may have, and what a search
//! leaves behind.
//!
//! The three functions handed to a search are ordinary closures, known by
//! their contracts alone. What a search does is said of what their calls may
//! return (`is_edge`, `ranked`, `consistent`). What a search finds is said
//! of a graph, a function from every node to the steps out of it, that the
//! neighbour function `implements`, and of the goals that the goal test
//! `decides` for.

use vstd::prelude::*;
use vstd::multiset::Multiset;
use crate::astar::{is_trail, AStarError, ClosedListState, OpenItem, Visits};
use crate::cost::Cost;
use crate::frontier::frontier;

verus! {

/// Whether the neighbour function may report a step from `from` to `to` at
/// cost `cost`.
pub open spec fn is_edge<Node, C, G: Fn(&Node) -> Vec<(C, Node)>>(
    neighbours: G,
    from: Node,
    cost: C,
    to: Node,
) -> bool {
    exists|out: Vec<(C, Node)>| #[trigger]
        call_ensures(neighbours, (&from,), out) && out@.contains((cost, to))
}

/// Whether the goal test may accept `node`.
pub open spec fn is_goal_node<Node, F: Fn(&Node) -> bool>(is_goal: F, node: Node) -> bool {
    call_ensures(is_goal, (&node,), true)
}

/// The node a walk stands on before its step `i`.
pub open spec fn walk_node<Node, C>(from: Node, steps: Seq<(C, Node)>, i: int) -> Node {
    if i <= 0 {
        from
    } else {
        steps[i - 1].1
    }
}

/// The node a walk ends on.
pub open spec fn walk_end<Node, C>(from: Node, steps: Seq<(C, Node)>) -> Node {
    walk_node(from, steps, steps.len() as int)
}

/// A graph in mathematical terms: for every node the steps that lead out of
/// it, each an edge cost and the node it leads to.
pub type Steps<Node, C> = spec_fn(Node) -> Seq<(C, Node)>;

/// Whether the neighbour function gives, for every node, the steps the graph
/// has there.
pub open spec fn implements<Node, C, G: Fn(&Node) -> Vec<(C, Node)>>(
    neighbours: G,
    edges: Steps<Node, C>,
) -> bool {
    forall|n: Node, out: Vec<(C, Node)>| #[trigger]
        call_ensures(neighbours, (&n,), out) ==> out@ == edges(n)
}

/// Whether the goal test accepts exactly the nodes of `goals`.
pub open spec fn decides<Node, F: Fn(&Node) -> bool>(
    is_goal: F,
    goals: spec_fn(Node) -> bool,
) -> bool {
    forall|n: Node, answer: bool| #[trigger]
        call_ensures(is_goal, (&n,), answer) ==> answer == goals(n)
}

/// Whether step `i` of a walk is an edge out of the node the walk stands on
/// before it.
pub open spec fn is_step<Node, C>(
    edges: Steps<Node, C>,
    from: Node,
    steps: Seq<(C, Node)>,
    i: int,
) -> bool {
    edges(walk_node(from, steps, i)).contains(steps[i])
}

/// Whether `steps`, each an edge cost and the node it leads to, can be
/// travelled one after another starting at `from`.
pub open spec fn is_walk<Node, C>(edges: Steps<Node, C>, from: Node, steps: Seq<(C, Node)>) -> bool {
    forall|i: int| 0 <= i < steps.len() ==> #[trigger] is_step(edges, from, steps, i)
}

/// The summed edge cost of a walk.
pub open spec fn walk_cost<Node, C: Cost>(steps: Seq<(C, Node)>) -> nat
    decreases steps.len(),
{
    if steps.len() == 0 {
        0
    } else {
        walk_cost(steps.drop_last()) + steps.last().0.value()
    }
}

/// The nodes of the domain that have not been reached.
pub open spec fn unvisited<Node, C>(visits: Visits<Node, C>) -> Set<Node> {
    visits.dom().filter(|n: Node| visits[n] is Unvisited)
}

/// Whether the three functions can be called on every node of the domain,
/// and the neighbour function never leads out of it.
pub open spec fn searchable<
    Node,
    C,
    F: Fn(&Node) -> bool,
    H: Fn(&Node) -> C,
    G: Fn(&Node) -> Vec<(C, Node)>,
>(domain: Set<Node>, is_goal: F, heuristic: H, neighbours: G) -> bool {
    &&& forall|n: Node| #[trigger] domain.contains(n) ==> call_requires(is_goal, (&n,))
    &&& forall|n: Node| #[trigger] domain.contains(n) ==> call_requires(heuristic, (&n,))
    &&& forall|n: Node| #[trigger] domain.contains(n) ==> call_requires(neighbours, (&n,))
    &&& forall|n: Node, out: Vec<(C, Node)>, i: int|
        #![trigger call_ensures(neighbours, (&n,), out), out@[i]]
        domain.contains(n) && call_ensures(neighbours, (&n,), out) && 0 <= i < out@.len()
            ==> domain.contains(out@[i].1)
}

/// Whether no recorded cost exceeds `seed_max`, no edge cost `edge_max` and
/// no estimate `estimate_max`, and the cost type has room for the longest sum
/// a search can then form.
pub open spec fn budget<Node, C: Cost, H: Fn(&Node) -> C, G: Fn(&Node) -> Vec<(C, Node)>>(
    visits: Visits<Node, C>,
    heuristic: H,
    neighbours: G,
    seed_max: nat,
    edge_max: nat,
    estimate_max: nat,
) -> bool {
    &&& forall|n: Node| #[trigger] visits.dom().contains(n) ==> visits[n].cost() <= seed_max
    &&& forall|n: Node, out: Vec<(C, Node)>, i: int|
        #![trigger call_ensures(neighbours, (&n,), out), out@[i]]
        visits.dom().contains(n) && call_ensures(neighbours, (&n,), out) && 0 <= i < out@.len()
            ==> out@[i].0.value() <= edge_max
    &&& forall|n: Node, est: C|
        visits.dom().contains(n) && #[trigger] call_ensures(heuristic, (&n,), est) ==> est.value()
            <= estimate_max
    &&& seed_max + (unvisited(visits).len() + 1) * edge_max + estimate_max <= C::limit()
}

/// Whether the cost type can hold every sum a search from `visits` forms: a
/// recorded cost plus, for each unvisited node and once more, an edge cost,
/// plus an estimate.
pub open spec fn within_budget<Node, C: Cost, H: Fn(&Node) -> C, G: Fn(&Node) -> Vec<(C, Node)>>(
    visits: Visits<Node, C>,
    heuristic: H,
    neighbours: G,
) -> bool {
    exists|seed_max: nat, edge_max: nat, estimate_max: nat|
        budget(visits, heuristic, neighbours, seed_max, edge_max, estimate_max)
}

/// What a search may change in the closed list: the domain stays, a reached
/// node keeps its state, and a node reached by the search has a reached
/// predecessor, from which an edge leads to it at the recorded difference in
/// cost.
pub open spec fn extends<Node, C: Cost, G: Fn(&Node) -> Vec<(C, Node)>>(
    before: Visits<Node, C>,
    after: Visits<Node, C>,
    neighbours: G,
) -> bool {
    &&& after.dom() == before.dom()
    &&& forall|n: Node|
        before.dom().contains(n) && !(before[n] is Unvisited) ==> #[trigger] after[n] == before[n]
    &&& forall|n: Node|
        before.dom().contains(n) && before[n] is Unvisited && !(#[trigger] after[n] is Unvisited)
            ==> labelled_by_edge(after, neighbours, n)
}

/// Whether `node` records a reached predecessor and a cost that is the
/// predecessor's plus that of an edge between the two.
pub open spec fn labelled_by_edge<Node, C: Cost, G: Fn(&Node) -> Vec<(C, Node)>>(
    visits: Visits<Node, C>,
    neighbours: G,
    node: Node,
) -> bool {
    &&& visits[node] matches ClosedListState::PathFrom(p, c)
    &&& visits.dom().contains(p)
    &&& !(visits[p] is Unvisited)
    &&& exists|w: C| #[trigger]
        is_edge(neighbours, p, w, node) && c.value() == w.value() + visits[p].cost()
}

/// Whether an item's estimated total is the cost recorded for its node plus
/// a value the heuristic may give for that node.
pub open spec fn ranked<Node, C: Cost, H: Fn(&Node) -> C>(
    visits: Visits<Node, C>,
    heuristic: H,
    item: OpenItem<Node, C>,
) -> bool {
    exists|est: C| #[trigger]
        call_ensures(heuristic, (&item.node,), est) && item.heuristic.value()
            == visits[item.node].cost() + est.value()
}

/// Whether the open list holds an item for `node`.
pub open spec fn queued<Node, C>(open: Multiset<OpenItem<Node, C>>, node: Node) -> bool {
    exists|item: OpenItem<Node, C>| #[trigger] open.contains(item) && item.node == node
}

/// Whether the two containers are seeded as a search expects them: no node
/// records a predecessor yet, every queued item stands for a starting point
/// and carries its cost plus an estimate, and every starting point is queued.
pub open spec fn seeded<Node, C: Cost, H: Fn(&Node) -> C>(
    visits: Visits<Node, C>,
    open: Multiset<OpenItem<Node, C>>,
    heuristic: H,
) -> bool {
    &&& forall|n: Node| visits.dom().contains(n) ==> !(#[trigger] visits[n] is PathFrom)
    &&& forall|item: OpenItem<Node, C>| #[trigger]
        open.contains(item) ==> visits[item.node] is StartingPoint && ranked(
            visits,
            heuristic,
            item,
        )
    &&& forall|n: Node|
        visits.dom().contains(n) && #[trigger] visits[n] is StartingPoint ==> queued(open, n)
}

/// Whether the back-links from `node` lead to a starting point.
pub open spec fn rooted<Node, C>(visits: Visits<Node, C>, node: Node) -> bool {
    exists|t: Seq<Node>| #[trigger] is_trail(visits, t, node) && visits[t[0]] is StartingPoint
}

/// Whether the back-links form a forest rooted at the starting points: from
/// every reached node they lead to one.
pub open spec fn forest<Node, C>(visits: Visits<Node, C>) -> bool {
    forall|n: Node|
        visits.dom().contains(n) && !(#[trigger] visits[n] is Unvisited) ==> rooted(visits, n)
}

/// Whether the heuristic never overestimates: no value it may give for a
/// node exceeds the cost of a walk from that node to a goal.
pub open spec fn admissible<Node, C: Cost, H: Fn(&Node) -> C>(
    heuristic: H,
    edges: Steps<Node, C>,
    goals: spec_fn(Node) -> bool,
) -> bool {
    forall|n: Node, est: C, steps: Seq<(C, Node)>|
        #![trigger call_ensures(heuristic, (&n,), est), is_walk(edges, n, steps)]
        call_ensures(heuristic, (&n,), est) && is_walk(edges, n, steps) && goals(
            walk_end(n, steps),
        ) ==> est.value() <= walk_cost(steps)
}

/// Whether the heuristic obeys the triangle inequality across every edge.
pub open spec fn consistent<Node, C: Cost, H: Fn(&Node) -> C, G: Fn(&Node) -> Vec<(C, Node)>>(
    heuristic: H,
    neighbours: G,
) -> bool {
    forall|u: Node, w: C, v: Node, eu: C, ev: C|
        #![trigger is_edge(neighbours, u, w, v), call_ensures(heuristic, (&u,), eu), call_ensures(heuristic, (&v,), ev)]
        is_edge(neighbours, u, w, v) && call_ensures(heuristic, (&u,), eu) && call_ensures(
            heuristic,
            (&v,),
            ev,
        ) ==> eu.value() <= w.value() + ev.value()
}

/// Whether the edges into a node agree on what they cost beyond the estimate
/// at their origin. Nodes are popped in the order of cost plus estimate, and
/// a node is labelled from the first popped neighbour; under this condition
/// that neighbour also offers the least cost.
pub open spec fn order_preserving<
    Node,
    C: Cost,
    H: Fn(&Node) -> C,
    G: Fn(&Node) -> Vec<(C, Node)>,
>(heuristic: H, neighbours: G) -> bool {
    forall|u: Node, w: C, u2: Node, w2: C, v: Node, eu: C, eu2: C|
        #![trigger is_edge(neighbours, u, w, v), is_edge(neighbours, u2, w2, v), call_ensures(heuristic, (&u,), eu), call_ensures(heuristic, (&u2,), eu2)]
        is_edge(neighbours, u, w, v) && is_edge(neighbours, u2, w2, v) && call_ensures(
            heuristic,
            (&u,),
            eu,
        ) && call_ensures(heuristic, (&u2,), eu2) ==> w.value() + eu2.value() == w2.value()
            + eu.value()
}

/// Whether `steps` is a way a search from `visits` can take: a walk that
/// leaves a starting point and passes through unvisited nodes only.
pub open spec fn is_route<Node, C>(
    visits: Visits<Node, C>,
    edges: Steps<Node, C>,
    start: Node,
    steps: Seq<(C, Node)>,
) -> bool {
    &&& visits.dom().contains(start)
    &&& visits[start] is StartingPoint
    &&& is_walk(edges, start, steps)
    &&& forall|i: int|
        0 <= i < steps.len() ==> visits.dom().contains((#[trigger] steps[i]).1)
            && visits[steps[i].1] is Unvisited
}

/// Whether `start` is the one starting point of a closed list that is fresh
/// otherwise.
pub open spec fn starts_at<Node, C>(visits: Visits<Node, C>, start: Node) -> bool {
    &&& visits.dom().contains(start)
    &&& visits[start] is StartingPoint
    &&& forall|n: Node| visits.dom().contains(n) && n != start ==> #[trigger] visits[n] is Unvisited
}

/// Whether `cost` is at most what any route to a goal costs, the cost of its
/// starting point included.
pub open spec fn cheapest<Node, C: Cost>(
    visits: Visits<Node, C>,
    edges: Steps<Node, C>,
    goals: spec_fn(Node) -> bool,
    cost: nat,
) -> bool {
    forall|start: Node, steps: Seq<(C, Node)>|
        #![trigger is_route(visits, edges, start, steps)]
        is_route(visits, edges, start, steps) && goals(walk_end(start, steps)) ==> cost
            <= visits[start].cost() + walk_cost(steps)
}

/// Whether no route leads to a goal.
pub open spec fn no_goal_in_reach<Node, C>(
    visits: Visits<Node, C>,
    edges: Steps<Node, C>,
    goals: spec_fn(Node) -> bool,
) -> bool {
    forall|start: Node, steps: Seq<(C, Node)>|
        #![trigger is_route(visits, edges, start, steps)]
        is_route(visits, edges, start, steps) ==> !goals(walk_end(start, steps))
}

/// Whether a strictly cheaper way leads to a node that already records a
/// predecessor: along some edge from a reached node, the sum is less than the
/// cost the target records.
pub open spec fn cheaper_way_found<Node, C: Cost, G: Fn(&Node) -> Vec<(C, Node)>>(
    visits: Visits<Node, C>,
    neighbours: G,
) -> bool {
    exists|u: Node, w: C, v: Node|
        {
            &&& visits.dom().contains(u)
            &&& !(visits[u] is Unvisited)
            &&& #[trigger] is_edge(neighbours, u, w, v)
            &&& visits[v] matches ClosedListState::PathFrom(_, c)
            &&& w.value() + visits[u].cost() < c.value()
        }
}

/// Whether the open list is not empty and holds only nodes that the goal
/// test cannot but accept.
pub open spec fn all_goals_queued<Node, C, F: Fn(&Node) -> bool>(
    open: Multiset<OpenItem<Node, C>>,
    is_goal: F,
) -> bool {
    &&& open.len() > 0
    &&& forall|item: OpenItem<Node, C>, answer: bool|
        #![trigger open.contains(item), call_ensures(is_goal, (&item.node,), answer)]
        open.contains(item) && call_ensures(is_goal, (&item.node,), answer) ==> answer
}

/// What a search of a graph finds, where it began from seeded containers:
/// giving up means that no route leads to a goal, and with a heuristic that
/// never overestimates, the goal returned is reached at the least cost of
/// any route to a goal.
pub open spec fn conclusive<Node, C: Cost, H: Fn(&Node) -> C>(
    before: Visits<Node, C>,
    heuristic: H,
    edges: Steps<Node, C>,
    goals: spec_fn(Node) -> bool,
    after: Visits<Node, C>,
    result: Result<Node, AStarError>,
) -> bool {
    &&& result matches Err(AStarError::PathNotFound) ==> no_goal_in_reach(before, edges, goals)
    &&& admissible(heuristic, edges, goals) ==> (result matches Ok(node) ==> cheapest(
        before,
        edges,
        goals,
        after[node].cost(),
    ))
}

/// What a search from seeded containers adds to the outcome of any search.
///
/// Every popped node has a record, so `OpenItemNotInClosedList` does not
/// occur, and a goal that is returned has been reached. The containers are
/// left as the frontier of a search, with some nodes expanded and at most
/// one in hand, none where the search gave up. With a consistent
/// heuristic over order-preserving edges no cheaper way is ever found. And
/// whatever graph the neighbour function implements, and whatever nodes the
/// goal test decides for, the search is conclusive about them.
pub open spec fn seeded_outcome<
    Node,
    C: Cost,
    F: Fn(&Node) -> bool,
    H: Fn(&Node) -> C,
    G: Fn(&Node) -> Vec<(C, Node)>,
>(
    before: Visits<Node, C>,
    is_goal: F,
    heuristic: H,
    neighbours: G,
    after: Visits<Node, C>,
    rest: Multiset<OpenItem<Node, C>>,
    result: Result<Node, AStarError>,
) -> bool {
    &&& !(result matches Err(AStarError::OpenItemNotInClosedList))
    &&& result matches Ok(node) ==> !(after[node] is Unvisited)
    &&& exists|expanded: Set<Node>, current: Option<Node>|
        {
            &&& #[trigger] frontier(
                after,
                rest,
                is_goal,
                heuristic,
                neighbours,
                expanded,
                current,
            )
            &&& result matches Err(AStarError::PathNotFound) ==> current is None
        }
    &&& consistent(heuristic, neighbours) && order_preserving(heuristic, neighbours) ==> !(result
        matches Err(AStarError::FoundHigherCostPath))
    &&& forall|edges: Steps<Node, C>, goals: spec_fn(Node) -> bool|
        #![trigger implements(neighbours, edges), decides(is_goal, goals)]
        implements(neighbours, edges) && decides(is_goal, goals) ==> conclusive(
            before,
            heuristic,
            edges,
            goals,
            after,
            result,
        )
}

/// What a search leaves behind, whatever the open list made of equal
/// estimates.
///
/// The closed list changes within the frame of `extends`, and a forest
/// stays one. A node that is returned is a goal of the domain;
/// `PathNotFound` comes with an empty open list, `OpenItemNotInClosedList`
/// with an item that was queued for an unvisited node, `FoundHigherCostPath`
/// with an edge that undercuts a recorded cost. Where the open list held
/// goals only, one of them is returned, its item has left the open list and
/// nothing else has changed. Seeded containers give what `seeded_outcome`
/// says.
pub open spec fn outcome<
    Node,
    C: Cost,
    F: Fn(&Node) -> bool,
    H: Fn(&Node) -> C,
    G: Fn(&Node) -> Vec<(C, Node)>,
>(
    before: Visits<Node, C>,
    queue: Multiset<OpenItem<Node, C>>,
    is_goal: F,
    heuristic: H,
    neighbours: G,
    after: Visits<Node, C>,
    rest: Multiset<OpenItem<Node, C>>,
    result: Result<Node, AStarError>,
) -> bool {
    &&& extends(before, after, neighbours)
    &&& forest(before) ==> forest(after)
    &&& match result {
        Ok(node) => after.dom().contains(node) && is_goal_node(is_goal, node),
        Err(AStarError::PathNotFound) => rest.len() == 0,
        Err(AStarError::OpenItemNotInClosedList) => exists|item: OpenItem<Node, C>| #[trigger]
            queue.contains(item) && after[item.node] is Unvisited,
        Err(AStarError::FoundHigherCostPath) => cheaper_way_found(after, neighbours),
    }
    &&& all_goals_queued(queue, is_goal) ==> {
        &&& result matches Ok(node) && exists|item: OpenItem<Node, C>| #[trigger]
            queue.contains(item) && item.node == node && rest == queue.remove(item)
        &&& after == before
    }
    &&& seeded(before, queue, heuristic) ==> seeded_outcome(
        before,
        is_goal,
        heuristic,
        neighbours,
        after,
        rest,
        result,
    )
}

} // verus!
