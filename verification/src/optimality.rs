//! Why a search that ends is right: the goal it returns is reached as
//! cheaply as any route allows, and where it gives up no route leads to a
//! goal.
//!
//! The search never revises a recorded cost. It may do without, because a
//! cheaper way to a labelled node ends it with an error: what it has
//! expanded without error has every step settled, and along any route the
//! recorded costs are then no higher than the route's own.

use vstd::prelude::*;
use vstd::multiset::Multiset;
use crate::astar::{has_trail, is_trail, AStarError, OpenItem, Visits};
use crate::cost::Cost;
use crate::frontier::{frontier, lemma_seeded_forest, processed, settled};
use crate::graph::{
    admissible, cheapest, consistent, decides, extends, implements, is_route, is_step, is_walk,
    labelled_by_edge, no_goal_in_reach, order_preserving, outcome, queued, ranked, rooted,
    seeded, starts_at, walk_cost, walk_end, walk_node, Steps,
};
use crate::run::{is_run, never_cheaper_way, Round};
use crate::trail::{lemma_trail_begins_at_start, lemma_trail_is_route};

verus! {

/// The cost of a walk is that of its first `i` steps plus that of the rest.
pub proof fn lemma_walk_cost_splits<Node, C: Cost>(steps: Seq<(C, Node)>, i: int)
    requires
        0 <= i <= steps.len(),
    ensures
        walk_cost(steps) == walk_cost(steps.take(i)) + walk_cost(steps.skip(i)),
    decreases steps.len(),
{
    if i == steps.len() {
        assert(steps.take(i) =~= steps);
        assert(steps.skip(i).len() == 0);
    } else {
        let shorter = steps.drop_last();
        lemma_walk_cost_splits(shorter, i);
        assert(shorter.take(i) =~= steps.take(i));
        assert(steps.skip(i).drop_last() =~= shorter.skip(i));
        assert(steps.skip(i).last() == steps.last());
    }
}

/// The steps of a walk from its `i`-th node on are a walk to the same end.
pub proof fn lemma_rest_is_walk<Node, C>(
    edges: Steps<Node, C>,
    from: Node,
    steps: Seq<(C, Node)>,
    i: int,
)
    requires
        is_walk(edges, from, steps),
        0 <= i <= steps.len(),
    ensures
        is_walk(edges, walk_node(from, steps, i), steps.skip(i)),
        walk_end(walk_node(from, steps, i), steps.skip(i)) == walk_end(from, steps),
{
    let mid = walk_node(from, steps, i);
    let rest = steps.skip(i);
    assert forall|j: int| 0 <= j < rest.len() implies #[trigger] is_step(edges, mid, rest, j) by {
        assert(is_step(edges, from, steps, i + j));
        assert(rest[j] == steps[i + j]);
        assert(walk_node(mid, rest, j) == walk_node(from, steps, i + j));
    }
}

/// Along a route whose first `i` nodes are expanded, the node after them
/// records a cost no higher than the route's own up to there.
pub proof fn lemma_route_is_followed<
    Node,
    C: Cost,
    F: Fn(&Node) -> bool,
    H: Fn(&Node) -> C,
    G: Fn(&Node) -> Vec<(C, Node)>,
>(
    before: Visits<Node, C>,
    visits: Visits<Node, C>,
    open: Multiset<OpenItem<Node, C>>,
    is_goal: F,
    heuristic: H,
    neighbours: G,
    edges: Steps<Node, C>,
    expanded: Set<Node>,
    start: Node,
    steps: Seq<(C, Node)>,
    i: int,
)
    requires
        extends(before, visits, neighbours),
        frontier(visits, open, is_goal, heuristic, neighbours, expanded, None),
        implements(neighbours, edges),
        is_route(before, edges, start, steps),
        0 <= i <= steps.len(),
        forall|j: int| 0 <= j < i ==> expanded.contains(walk_node(start, steps, j)),
    ensures
        visits.dom().contains(walk_node(start, steps, i)),
        !(visits[walk_node(start, steps, i)] is Unvisited),
        visits[walk_node(start, steps, i)].cost() <= before[start].cost() + walk_cost(
            steps.take(i),
        ),
    decreases i,
{
    if i == 0 {
        assert(visits[start] == before[start]);
        assert(steps.take(0).len() == 0);
    } else {
        lemma_route_is_followed(
            before,
            visits,
            open,
            is_goal,
            heuristic,
            neighbours,
            edges,
            expanded,
            start,
            steps,
            i - 1,
        );
        let u = walk_node(start, steps, i - 1);
        let step = steps[i - 1];
        assert(expanded.contains(u));
        assert(processed(visits, neighbours, u));
        let out = choose|out: Vec<(C, Node)>| #[trigger]
            call_ensures(neighbours, (&u,), out) && forall|k: int|
                0 <= k < out@.len() ==> settled(visits, u, #[trigger] out@[k]);
        assert(is_step(edges, start, steps, i - 1));
        assert(out@ == edges(u));
        let k = choose|k: int| 0 <= k < out@.len() && out@[k] == step;
        assert(settled(visits, u, out@[k]));
        assert(before.dom().contains(step.1) && before[step.1] is Unvisited);
        assert(!(visits[step.1] is Unvisited));
        assert(labelled_by_edge(visits, neighbours, step.1));
        assert(steps.take(i).drop_last() =~= steps.take(i - 1));
        assert(steps.take(i).last() == step);
    }
}

/// The first node of a walk, from position `from` on, that is not expanded,
/// given that the end of the walk is not.
pub proof fn lemma_first_unexpanded<Node, C>(
    expanded: Set<Node>,
    start: Node,
    steps: Seq<(C, Node)>,
    from: int,
) -> (i: int)
    requires
        0 <= from <= steps.len(),
        !expanded.contains(walk_end(start, steps)),
        forall|j: int| 0 <= j < from ==> expanded.contains(walk_node(start, steps, j)),
    ensures
        from <= i <= steps.len(),
        !expanded.contains(walk_node(start, steps, i)),
        forall|j: int| 0 <= j < i ==> expanded.contains(walk_node(start, steps, j)),
    decreases steps.len() - from,
{
    if !expanded.contains(walk_node(start, steps, from)) {
        from
    } else {
        lemma_first_unexpanded(expanded, start, steps, from + 1)
    }
}

/// Where the least queued item stands for a goal, no route reaches a goal
/// at less than the cost recorded for that node, provided the heuristic
/// never overestimates.
pub proof fn lemma_popped_goal_is_cheapest<
    Node,
    C: Cost,
    F: Fn(&Node) -> bool,
    H: Fn(&Node) -> C,
    G: Fn(&Node) -> Vec<(C, Node)>,
>(
    before: Visits<Node, C>,
    visits: Visits<Node, C>,
    open: Multiset<OpenItem<Node, C>>,
    is_goal: F,
    heuristic: H,
    neighbours: G,
    edges: Steps<Node, C>,
    goals: spec_fn(Node) -> bool,
    expanded: Set<Node>,
    item: OpenItem<Node, C>,
    start: Node,
    steps: Seq<(C, Node)>,
)
    requires
        extends(before, visits, neighbours),
        frontier(visits, open, is_goal, heuristic, neighbours, expanded, None),
        open.contains(item),
        forall|x: OpenItem<Node, C>| #[trigger]
            open.contains(x) ==> item.heuristic.value() <= x.heuristic.value(),
        implements(neighbours, edges),
        decides(is_goal, goals),
        admissible(heuristic, edges, goals),
        is_route(before, edges, start, steps),
        goals(walk_end(start, steps)),
    ensures
        visits[item.node].cost() <= before[start].cost() + walk_cost(steps),
{
    let end = walk_end(start, steps);
    assert(!expanded.contains(end)) by {
        if expanded.contains(end) {
            assert(call_ensures(is_goal, (&end,), false));
        }
    }
    let i = lemma_first_unexpanded(expanded, start, steps, 0);
    let x = walk_node(start, steps, i);
    lemma_route_is_followed(
        before,
        visits,
        open,
        is_goal,
        heuristic,
        neighbours,
        edges,
        expanded,
        start,
        steps,
        i,
    );
    assert(queued(open, x));
    let waiting = choose|w: OpenItem<Node, C>| #[trigger] open.contains(w) && w.node == x;
    assert(ranked(visits, heuristic, waiting));
    let est = choose|est: C| #[trigger]
        call_ensures(heuristic, (&waiting.node,), est) && waiting.heuristic.value()
            == visits[waiting.node].cost() + est.value();
    lemma_rest_is_walk(edges, start, steps, i);
    assert(call_ensures(heuristic, (&x,), est) && is_walk(edges, x, steps.skip(i)));
    assert(est.value() <= walk_cost(steps.skip(i)));
    lemma_walk_cost_splits(steps, i);
    assert(ranked(visits, heuristic, item));
}

/// Where the open list is empty, no route leads to a goal.
pub proof fn lemma_exhausted_means_no_goal<
    Node,
    C: Cost,
    F: Fn(&Node) -> bool,
    H: Fn(&Node) -> C,
    G: Fn(&Node) -> Vec<(C, Node)>,
>(
    before: Visits<Node, C>,
    visits: Visits<Node, C>,
    open: Multiset<OpenItem<Node, C>>,
    is_goal: F,
    heuristic: H,
    neighbours: G,
    edges: Steps<Node, C>,
    goals: spec_fn(Node) -> bool,
    expanded: Set<Node>,
    start: Node,
    steps: Seq<(C, Node)>,
)
    requires
        extends(before, visits, neighbours),
        frontier(visits, open, is_goal, heuristic, neighbours, expanded, None),
        open.len() == 0,
        implements(neighbours, edges),
        decides(is_goal, goals),
        is_route(before, edges, start, steps),
    ensures
        !goals(walk_end(start, steps)),
{
    let end = walk_end(start, steps);
    if goals(end) {
        assert(!expanded.contains(end)) by {
            if expanded.contains(end) {
                assert(call_ensures(is_goal, (&end,), false));
            }
        }
        let i = lemma_first_unexpanded(expanded, start, steps, 0);
        let x = walk_node(start, steps, i);
        lemma_route_is_followed(
            before,
            visits,
            open,
            is_goal,
            heuristic,
            neighbours,
            edges,
            expanded,
            start,
            steps,
            i,
        );
        assert(queued(open, x));
        let waiting = choose|w: OpenItem<Node, C>| #[trigger] open.contains(w) && w.node == x;
        assert(open.count(waiting) > 0);
        vstd::multiset::axiom_count_le_len(open, waiting);
    }
}

/// The last position of a walk, at or before `upto`, at which it stands on
/// its first node.
proof fn lemma_last_return<Node, C>(from: Node, steps: Seq<(C, Node)>, upto: int) -> (at: int)
    requires
        0 <= upto <= steps.len(),
        forall|j: int| upto < j <= steps.len() ==> walk_node(from, steps, j) != from,
    ensures
        0 <= at <= steps.len(),
        walk_node(from, steps, at) == from,
        forall|j: int| at < j <= steps.len() ==> walk_node(from, steps, j) != from,
    decreases upto,
{
    if walk_node(from, steps, upto) == from {
        upto
    } else {
        lemma_last_return(from, steps, upto - 1)
    }
}

/// A walk from the one starting point holds a route to the same end that
/// costs no more: its part from the last return to the starting point on.
pub proof fn lemma_walk_holds_route<Node, C: Cost>(
    before: Visits<Node, C>,
    edges: Steps<Node, C>,
    start: Node,
    steps: Seq<(C, Node)>,
) -> (route: Seq<(C, Node)>)
    requires
        starts_at(before, start),
        is_walk(edges, start, steps),
        forall|i: int| 0 <= i < steps.len() ==> before.dom().contains((#[trigger] steps[i]).1),
    ensures
        is_route(before, edges, start, route),
        walk_end(start, route) == walk_end(start, steps),
        walk_cost(route) <= walk_cost(steps),
        route.len() <= steps.len(),
{
    let at = lemma_last_return(start, steps, steps.len() as int);
    let route = steps.skip(at);
    lemma_rest_is_walk(edges, start, steps, at);
    lemma_walk_cost_splits(steps, at);
    assert forall|i: int| 0 <= i < route.len() implies before.dom().contains(
        (#[trigger] route[i]).1,
    ) && before[route[i].1] is Unvisited by {
        assert(route[i] == steps[at + i]);
        assert(walk_node(start, steps, at + i + 1) == route[i].1);
    }
    route
}

/// A cost that no route to a goal undercuts is undercut by no walk from the
/// one starting point to a goal either.
pub proof fn lemma_cheapest_of_all_walks<Node, C: Cost>(
    before: Visits<Node, C>,
    edges: Steps<Node, C>,
    goals: spec_fn(Node) -> bool,
    cost: nat,
    start: Node,
    steps: Seq<(C, Node)>,
)
    requires
        cheapest(before, edges, goals, cost),
        starts_at(before, start),
        is_walk(edges, start, steps),
        forall|i: int| 0 <= i < steps.len() ==> before.dom().contains((#[trigger] steps[i]).1),
        goals(walk_end(start, steps)),
    ensures
        cost <= before[start].cost() + walk_cost(steps),
{
    let route = lemma_walk_holds_route(before, edges, start, steps);
    assert(is_route(before, edges, start, route));
}

/// Where no route leads to a goal, no walk from the one starting point does.
pub proof fn lemma_no_walk_to_goal<Node, C: Cost>(
    before: Visits<Node, C>,
    edges: Steps<Node, C>,
    goals: spec_fn(Node) -> bool,
    start: Node,
    steps: Seq<(C, Node)>,
)
    requires
        no_goal_in_reach(before, edges, goals),
        starts_at(before, start),
        is_walk(edges, start, steps),
        forall|i: int| 0 <= i < steps.len() ==> before.dom().contains((#[trigger] steps[i]).1),
    ensures
        !goals(walk_end(start, steps)),
{
    let route = lemma_walk_holds_route(before, edges, start, steps);
    assert(is_route(before, edges, start, route));
}

/// A goal returned by a search from seeded containers can be unwound: the
/// back-links lead from it to a starting point.
pub proof fn lemma_found_goal_has_trail<
    Node,
    C: Cost,
    F: Fn(&Node) -> bool,
    H: Fn(&Node) -> C,
    G: Fn(&Node) -> Vec<(C, Node)>,
>(
    before: Visits<Node, C>,
    queue: Multiset<OpenItem<Node, C>>,
    is_goal: F,
    heuristic: H,
    neighbours: G,
    after: Visits<Node, C>,
    rest: Multiset<OpenItem<Node, C>>,
    node: Node,
)
    requires
        outcome(before, queue, is_goal, heuristic, neighbours, after, rest, Ok(node)),
        seeded(before, queue, heuristic),
    ensures
        has_trail(after, node),
        rooted(after, node),
{
    lemma_seeded_forest(before, queue, heuristic);
    assert(rooted(after, node));
    let t = choose|t: Seq<Node>| #[trigger] is_trail(after, t, node) && after[t[0]] is StartingPoint;
    assert(is_trail(after, t, node));
}

/// The path that a successful search returns is the cheapest there is.
///
/// `path` is what unwinding the returned goal gives. The result holds the
/// edges along it: a route from the path's starting point to the goal whose
/// cost, with the starting cost, is the one recorded for the goal and is at
/// most that of every route to a goal. This holds of a search from seeded
/// containers with a heuristic that never overestimates.
pub proof fn lemma_found_path_is_cheapest<
    Node,
    C: Cost,
    F: Fn(&Node) -> bool,
    H: Fn(&Node) -> C,
    G: Fn(&Node) -> Vec<(C, Node)>,
>(
    before: Visits<Node, C>,
    queue: Multiset<OpenItem<Node, C>>,
    is_goal: F,
    heuristic: H,
    neighbours: G,
    edges: Steps<Node, C>,
    goals: spec_fn(Node) -> bool,
    after: Visits<Node, C>,
    rest: Multiset<OpenItem<Node, C>>,
    node: Node,
    path: Seq<Node>,
) -> (steps: Seq<(C, Node)>)
    requires
        outcome(before, queue, is_goal, heuristic, neighbours, after, rest, Ok(node)),
        seeded(before, queue, heuristic),
        implements(neighbours, edges),
        decides(is_goal, goals),
        admissible(heuristic, edges, goals),
        is_trail(after, path, node),
    ensures
        goals(node),
        is_route(before, edges, path[0], steps),
        walk_end(path[0], steps) == node,
        steps.len() + 1 == path.len(),
        forall|i: int| 0 <= i < steps.len() ==> (#[trigger] steps[i]).1 == path[i + 1],
        after[node].cost() == before[path[0]].cost() + walk_cost(steps),
        cheapest(before, edges, goals, before[path[0]].cost() + walk_cost(steps)),
{
    lemma_seeded_forest(before, queue, heuristic);
    lemma_trail_begins_at_start(after, path, node);
    assert(implements(neighbours, edges) && decides(is_goal, goals));
    lemma_trail_is_route(before, after, neighbours, edges, path, node)
}

/// A zero-valued heuristic yields the same path cost as any other heuristic
/// that never overestimates: two successful searches of one graph, from the
/// same closed list, record the same cost for the goals they return.
pub proof fn lemma_zero_heuristic_costs_the_same<
    Node,
    C: Cost,
    F: Fn(&Node) -> bool,
    Z: Fn(&Node) -> C,
    H: Fn(&Node) -> C,
    G: Fn(&Node) -> Vec<(C, Node)>,
>(
    before: Visits<Node, C>,
    is_goal: F,
    neighbours: G,
    edges: Steps<Node, C>,
    goals: spec_fn(Node) -> bool,
    zero: Z,
    zero_queue: Multiset<OpenItem<Node, C>>,
    zero_after: Visits<Node, C>,
    zero_rest: Multiset<OpenItem<Node, C>>,
    zero_node: Node,
    heuristic: H,
    queue: Multiset<OpenItem<Node, C>>,
    after: Visits<Node, C>,
    rest: Multiset<OpenItem<Node, C>>,
    node: Node,
)
    requires
        outcome(
            before,
            zero_queue,
            is_goal,
            zero,
            neighbours,
            zero_after,
            zero_rest,
            Ok(zero_node),
        ),
        outcome(before, queue, is_goal, heuristic, neighbours, after, rest, Ok(node)),
        seeded(before, zero_queue, zero),
        seeded(before, queue, heuristic),
        implements(neighbours, edges),
        decides(is_goal, goals),
        forall|n: Node, est: C| #[trigger] call_ensures(zero, (&n,), est) ==> est.value() == 0,
        admissible(heuristic, edges, goals),
    ensures
        zero_after[zero_node].cost() == after[node].cost(),
{
    assert(admissible(zero, edges, goals));
    lemma_found_goal_has_trail(
        before,
        zero_queue,
        is_goal,
        zero,
        neighbours,
        zero_after,
        zero_rest,
        zero_node,
    );
    lemma_found_goal_has_trail(before, queue, is_goal, heuristic, neighbours, after, rest, node);
    let zero_path = choose|t: Seq<Node>| is_trail(zero_after, t, zero_node);
    let path = choose|t: Seq<Node>| is_trail(after, t, node);
    let zero_steps = lemma_found_path_is_cheapest(
        before,
        zero_queue,
        is_goal,
        zero,
        neighbours,
        edges,
        goals,
        zero_after,
        zero_rest,
        zero_node,
        zero_path,
    );
    let steps = lemma_found_path_is_cheapest(
        before,
        queue,
        is_goal,
        heuristic,
        neighbours,
        edges,
        goals,
        after,
        rest,
        node,
        path,
    );
    assert(is_route(before, edges, zero_path[0], zero_steps));
    assert(is_route(before, edges, path[0], steps));
}

/// A goal with no connecting route gives `PathNotFound`, for a search from
/// seeded containers that cannot end in `FoundHigherCostPath`: one with a
/// consistent heuristic over order-preserving edges.
pub proof fn lemma_unreachable_goal_is_not_found<
    Node,
    C: Cost,
    F: Fn(&Node) -> bool,
    H: Fn(&Node) -> C,
    G: Fn(&Node) -> Vec<(C, Node)>,
>(
    before: Visits<Node, C>,
    queue: Multiset<OpenItem<Node, C>>,
    is_goal: F,
    heuristic: H,
    neighbours: G,
    edges: Steps<Node, C>,
    goals: spec_fn(Node) -> bool,
    after: Visits<Node, C>,
    rest: Multiset<OpenItem<Node, C>>,
    result: Result<Node, AStarError>,
)
    requires
        outcome(before, queue, is_goal, heuristic, neighbours, after, rest, result),
        seeded(before, queue, heuristic),
        implements(neighbours, edges),
        decides(is_goal, goals),
        consistent(heuristic, neighbours),
        order_preserving(heuristic, neighbours),
        no_goal_in_reach(before, edges, goals),
    ensures
        result == Err::<Node, AStarError>(AStarError::PathNotFound),
{
    if let Ok(node) = result {
        lemma_seeded_forest(before, queue, heuristic);
        assert(rooted(after, node));
        let t = choose|t: Seq<Node>| #[trigger]
            is_trail(after, t, node) && after[t[0]] is StartingPoint;
        let steps = lemma_trail_is_route(before, after, neighbours, edges, t, node);
        assert(is_route(before, edges, t[0], steps));
    }
}

/// A route to a goal excludes `PathNotFound`, for a search from seeded
/// containers.
pub proof fn lemma_reachable_goal_is_not_missed<
    Node,
    C: Cost,
    F: Fn(&Node) -> bool,
    H: Fn(&Node) -> C,
    G: Fn(&Node) -> Vec<(C, Node)>,
>(
    before: Visits<Node, C>,
    queue: Multiset<OpenItem<Node, C>>,
    is_goal: F,
    heuristic: H,
    neighbours: G,
    edges: Steps<Node, C>,
    goals: spec_fn(Node) -> bool,
    after: Visits<Node, C>,
    rest: Multiset<OpenItem<Node, C>>,
    result: Result<Node, AStarError>,
    start: Node,
    steps: Seq<(C, Node)>,
)
    requires
        outcome(before, queue, is_goal, heuristic, neighbours, after, rest, result),
        seeded(before, queue, heuristic),
        implements(neighbours, edges),
        decides(is_goal, goals),
        is_route(before, edges, start, steps),
        goals(walk_end(start, steps)),
    ensures
        result != Err::<Node, AStarError>(AStarError::PathNotFound),
{
    assert(implements(neighbours, edges) && decides(is_goal, goals));
}

/// A search from seeded containers finds a goal that a route leads to,
/// unless a run from them meets a cheaper way to a labelled node; and with a
/// heuristic that never overestimates it reaches the goal at the least cost
/// of any route to a goal.
pub proof fn lemma_reachable_goal_is_found<
    Node,
    C: Cost,
    F: Fn(&Node) -> bool,
    H: Fn(&Node) -> C,
    G: Fn(&Node) -> Vec<(C, Node)>,
>(
    before: Visits<Node, C>,
    queue: Multiset<OpenItem<Node, C>>,
    is_goal: F,
    heuristic: H,
    neighbours: G,
    edges: Steps<Node, C>,
    goals: spec_fn(Node) -> bool,
    trace: Seq<Round<Node, C>>,
    after: Visits<Node, C>,
    rest: Multiset<OpenItem<Node, C>>,
    result: Result<Node, AStarError>,
    start: Node,
    steps: Seq<(C, Node)>,
)
    requires
        outcome(before, queue, is_goal, heuristic, neighbours, after, rest, result),
        is_run(is_goal, heuristic, neighbours, before, queue, trace, after, rest, result),
        seeded(before, queue, heuristic),
        implements(neighbours, edges),
        decides(is_goal, goals),
        never_cheaper_way(is_goal, heuristic, neighbours, before, queue),
        is_route(before, edges, start, steps),
        goals(walk_end(start, steps)),
    ensures
        result matches Ok(node) && goals(node) && (admissible(heuristic, edges, goals)
            ==> after[node].cost() <= before[start].cost() + walk_cost(steps)),
{
    assert(implements(neighbours, edges) && decides(is_goal, goals));
}

/// A goal with no connecting route gives `PathNotFound`, for a search from
/// seeded containers, unless a run from them meets a cheaper way to a
/// labelled node.
pub proof fn lemma_unreachable_goal_gives_up<
    Node,
    C: Cost,
    F: Fn(&Node) -> bool,
    H: Fn(&Node) -> C,
    G: Fn(&Node) -> Vec<(C, Node)>,
>(
    before: Visits<Node, C>,
    queue: Multiset<OpenItem<Node, C>>,
    is_goal: F,
    heuristic: H,
    neighbours: G,
    edges: Steps<Node, C>,
    goals: spec_fn(Node) -> bool,
    trace: Seq<Round<Node, C>>,
    after: Visits<Node, C>,
    rest: Multiset<OpenItem<Node, C>>,
    result: Result<Node, AStarError>,
)
    requires
        outcome(before, queue, is_goal, heuristic, neighbours, after, rest, result),
        is_run(is_goal, heuristic, neighbours, before, queue, trace, after, rest, result),
        seeded(before, queue, heuristic),
        implements(neighbours, edges),
        decides(is_goal, goals),
        never_cheaper_way(is_goal, heuristic, neighbours, before, queue),
        no_goal_in_reach(before, edges, goals),
    ensures
        result == Err::<Node, AStarError>(AStarError::PathNotFound),
        rest.len() == 0,
{
    if let Ok(node) = result {
        lemma_seeded_forest(before, queue, heuristic);
        assert(rooted(after, node));
        let t = choose|t: Seq<Node>| #[trigger]
            is_trail(after, t, node) && after[t[0]] is StartingPoint;
        let steps = lemma_trail_is_route(before, after, neighbours, edges, t, node);
        assert(is_route(before, edges, t[0], steps));
    }
}

} // verus!
