//! What a search does, round by round.
//!
//! A search is fixed by its input but for two things: which of several least
//! items the open list hands out, and what the three functions answer where
//! their contracts leave that open. A trace holds these: one round per
//! popped item, with the answers the round got. Given the trace, `is_run`
//! says what the search ends in and what it leaves in the two containers.

use vstd::prelude::*;
use vstd::multiset::Multiset;
use crate::astar::{AStarError, ClosedListState, OpenItem, Visits};
use crate::cost::Cost;

verus! {

/// One round of a search: the item that was popped, what the goal test said
/// of its node, and, where the node was expanded, the list the neighbour
/// function gave and the estimate that was had for each step of it. An
/// estimate counts only where the step labels its node.
pub struct Round<Node, C> {
    pub item: OpenItem<Node, C>,
    pub goal: bool,
    pub steps: Seq<(C, Node)>,
    pub estimates: Seq<C>,
}

/// The two containers in the course of an expansion; whether a step found a
/// cheaper way to a labelled node, which stops the expansion; and whether
/// the estimates used so far are such as the heuristic may give.
#[verifier::reject_recursive_types(Node)]
#[verifier::reject_recursive_types(C)]
pub struct Expansion<Node, C> {
    pub visits: Visits<Node, C>,
    pub open: Multiset<OpenItem<Node, C>>,
    pub stopped: bool,
    pub estimated: bool,
}

/// The cost a state records; of no meaning for an unvisited node.
pub open spec fn cost_of<Node, C>(state: ClosedListState<Node, C>) -> C {
    match state {
        ClosedListState::StartingPoint(c) => c,
        ClosedListState::PathFrom(_, c) => c,
        ClosedListState::Unvisited => arbitrary(),
    }
}

/// What one step out of `current`, reached at `cost`, does. A node that
/// records a predecessor is left alone if its cost is no higher than the way
/// through `current`, and stops the expansion otherwise. A starting point is
/// left alone. An unvisited node is labelled with `current` and the cost of
/// the way through it, and queued under that cost plus the estimate.
pub open spec fn take_step<Node, C: Cost, H: Fn(&Node) -> C>(
    heuristic: H,
    so_far: Expansion<Node, C>,
    current: Node,
    cost: C,
    step: (C, Node),
    estimate: C,
) -> Expansion<Node, C> {
    let potential = step.0.sum(cost);
    match so_far.visits[step.1] {
        ClosedListState::PathFrom(_, existing) => Expansion {
            stopped: !(existing.value() <= potential.value()),
            ..so_far
        },
        ClosedListState::StartingPoint(_) => so_far,
        ClosedListState::Unvisited => Expansion {
            visits: so_far.visits.insert(step.1, ClosedListState::PathFrom(current, potential)),
            open: so_far.open.insert(
                OpenItem { heuristic: potential.sum(estimate), node: step.1 },
            ),
            stopped: false,
            estimated: so_far.estimated && call_ensures(heuristic, (&step.1,), estimate),
        },
    }
}

/// What the steps out of `current` do, taken in turn until one stops the
/// expansion.
pub open spec fn expansion<Node, C: Cost, H: Fn(&Node) -> C>(
    heuristic: H,
    visits: Visits<Node, C>,
    open: Multiset<OpenItem<Node, C>>,
    current: Node,
    cost: C,
    steps: Seq<(C, Node)>,
    estimates: Seq<C>,
) -> Expansion<Node, C>
    decreases steps.len(),
{
    if steps.len() == 0 {
        Expansion { visits, open, stopped: false, estimated: true }
    } else {
        let so_far = expansion(
            heuristic,
            visits,
            open,
            current,
            cost,
            steps.drop_last(),
            estimates.drop_last(),
        );
        if so_far.stopped {
            so_far
        } else {
            take_step(heuristic, so_far, current, cost, steps.last(), estimates.last())
        }
    }
}

/// What a round leaves in the two containers, and what it ends the search
/// in, if it ends it: success where the popped node is a goal,
/// `OpenItemNotInClosedList` where it has no record, `FoundHigherCostPath`
/// where its expansion stops.
pub open spec fn round_result<Node, C: Cost, H: Fn(&Node) -> C>(
    heuristic: H,
    visits: Visits<Node, C>,
    open: Multiset<OpenItem<Node, C>>,
    round: Round<Node, C>,
) -> (Visits<Node, C>, Multiset<OpenItem<Node, C>>, Option<Result<Node, AStarError>>) {
    let node = round.item.node;
    let rest = open.remove(round.item);
    if round.goal {
        (visits, rest, Some(Ok(node)))
    } else if visits[node] is Unvisited {
        (visits, rest, Some(Err(AStarError::OpenItemNotInClosedList)))
    } else {
        let done = expansion(
            heuristic,
            visits,
            rest,
            node,
            cost_of(visits[node]),
            round.steps,
            round.estimates,
        );
        (
            done.visits,
            done.open,
            if done.stopped {
                Some(Err(AStarError::FoundHigherCostPath))
            } else {
                None
            },
        )
    }
}

/// Whether a round is one the search can have: its item is a least item of
/// the open list, the goal test may give its answer, and where the node is
/// expanded, the neighbour function may give its list and the heuristic the
/// estimates that are used.
pub open spec fn round_can_be<
    Node,
    C: Cost,
    F: Fn(&Node) -> bool,
    H: Fn(&Node) -> C,
    G: Fn(&Node) -> Vec<(C, Node)>,
>(
    is_goal: F,
    heuristic: H,
    neighbours: G,
    visits: Visits<Node, C>,
    open: Multiset<OpenItem<Node, C>>,
    round: Round<Node, C>,
) -> bool {
    let node = round.item.node;
    &&& open.contains(round.item)
    &&& forall|x: OpenItem<Node, C>| #[trigger]
        open.contains(x) ==> round.item.heuristic.value() <= x.heuristic.value()
    &&& call_ensures(is_goal, (&node,), round.goal)
    &&& !round.goal && !(visits[node] is Unvisited) ==> {
        &&& exists|out: Vec<(C, Node)>| #[trigger]
            call_ensures(neighbours, (&node,), out) && out@ == round.steps
        &&& round.estimates.len() == round.steps.len()
        &&& expansion(
            heuristic,
            visits,
            open.remove(round.item),
            node,
            cost_of(visits[node]),
            round.steps,
            round.estimates,
        ).estimated
    }
}

/// Whether the search that begins with `visits` and `open`, and has the
/// rounds of `trace`, ends in `result` and leaves `after` and `rest`.
///
/// With no round left the open list must be empty, and the search gives up.
/// Otherwise the first round must be one the search can have; it ends the
/// search, and is then the last, or the search goes on from what it leaves.
pub open spec fn is_run<
    Node,
    C: Cost,
    F: Fn(&Node) -> bool,
    H: Fn(&Node) -> C,
    G: Fn(&Node) -> Vec<(C, Node)>,
>(
    is_goal: F,
    heuristic: H,
    neighbours: G,
    visits: Visits<Node, C>,
    open: Multiset<OpenItem<Node, C>>,
    trace: Seq<Round<Node, C>>,
    after: Visits<Node, C>,
    rest: Multiset<OpenItem<Node, C>>,
    result: Result<Node, AStarError>,
) -> bool
    decreases trace.len(),
{
    if trace.len() == 0 {
        &&& open.len() == 0
        &&& after == visits
        &&& rest == open
        &&& result == Err::<Node, AStarError>(AStarError::PathNotFound)
    } else {
        let next = round_result(heuristic, visits, open, trace[0]);
        &&& round_can_be(is_goal, heuristic, neighbours, visits, open, trace[0])
        &&& match next.2 {
            Some(end) => trace.len() == 1 && after == next.0 && rest == next.1 && result == end,
            None => is_run(
                is_goal,
                heuristic,
                neighbours,
                next.0,
                next.1,
                trace.skip(1),
                after,
                rest,
                result,
            ),
        }
    }
}

/// The two containers after the rounds of `trace`.
pub open spec fn state_after<Node, C: Cost, H: Fn(&Node) -> C>(
    heuristic: H,
    visits: Visits<Node, C>,
    open: Multiset<OpenItem<Node, C>>,
    trace: Seq<Round<Node, C>>,
) -> (Visits<Node, C>, Multiset<OpenItem<Node, C>>)
    decreases trace.len(),
{
    if trace.len() == 0 {
        (visits, open)
    } else {
        let earlier = state_after(heuristic, visits, open, trace.drop_last());
        let next = round_result(heuristic, earlier.0, earlier.1, trace.last());
        (next.0, next.1)
    }
}

/// Whether every round of `trace` is one the search can have, and none ends
/// the search.
pub open spec fn proceeds<
    Node,
    C: Cost,
    F: Fn(&Node) -> bool,
    H: Fn(&Node) -> C,
    G: Fn(&Node) -> Vec<(C, Node)>,
>(
    is_goal: F,
    heuristic: H,
    neighbours: G,
    visits: Visits<Node, C>,
    open: Multiset<OpenItem<Node, C>>,
    trace: Seq<Round<Node, C>>,
) -> bool
    decreases trace.len(),
{
    trace.len() == 0 || {
        let earlier = state_after(heuristic, visits, open, trace.drop_last());
        &&& proceeds(is_goal, heuristic, neighbours, visits, open, trace.drop_last())
        &&& round_can_be(is_goal, heuristic, neighbours, earlier.0, earlier.1, trace.last())
        &&& round_result(heuristic, earlier.0, earlier.1, trace.last()).2 is None
    }
}

/// Rounds that proceed, followed by a run from where they lead, are a run.
pub proof fn lemma_rounds_then_run<
    Node,
    C: Cost,
    F: Fn(&Node) -> bool,
    H: Fn(&Node) -> C,
    G: Fn(&Node) -> Vec<(C, Node)>,
>(
    is_goal: F,
    heuristic: H,
    neighbours: G,
    visits: Visits<Node, C>,
    open: Multiset<OpenItem<Node, C>>,
    trace: Seq<Round<Node, C>>,
    tail: Seq<Round<Node, C>>,
    after: Visits<Node, C>,
    rest: Multiset<OpenItem<Node, C>>,
    result: Result<Node, AStarError>,
)
    requires
        proceeds(is_goal, heuristic, neighbours, visits, open, trace),
        is_run(
            is_goal,
            heuristic,
            neighbours,
            state_after(heuristic, visits, open, trace).0,
            state_after(heuristic, visits, open, trace).1,
            tail,
            after,
            rest,
            result,
        ),
    ensures
        is_run(is_goal, heuristic, neighbours, visits, open, trace + tail, after, rest, result),
    decreases trace.len(),
{
    if trace.len() == 0 {
        assert(trace + tail =~= tail);
    } else {
        let earlier = state_after(heuristic, visits, open, trace.drop_last());
        let longer = seq![trace.last()] + tail;
        assert(longer[0] == trace.last());
        assert(longer.skip(1) =~= tail);
        assert(is_run(
            is_goal,
            heuristic,
            neighbours,
            earlier.0,
            earlier.1,
            longer,
            after,
            rest,
            result,
        ));
        lemma_rounds_then_run(
            is_goal,
            heuristic,
            neighbours,
            visits,
            open,
            trace.drop_last(),
            longer,
            after,
            rest,
            result,
        );
        assert(trace.drop_last() + longer =~= trace + tail);
    }
}

/// An expansion that has stopped stays as it is, whatever steps follow.
pub proof fn lemma_stopped_stays<Node, C: Cost, H: Fn(&Node) -> C>(
    heuristic: H,
    visits: Visits<Node, C>,
    open: Multiset<OpenItem<Node, C>>,
    current: Node,
    cost: C,
    steps: Seq<(C, Node)>,
    estimates: Seq<C>,
    n: int,
)
    requires
        0 <= n <= steps.len(),
        estimates.len() == steps.len(),
        expansion(heuristic, visits, open, current, cost, steps.take(n), estimates.take(n)).stopped,
    ensures
        expansion(heuristic, visits, open, current, cost, steps, estimates) == expansion(
            heuristic,
            visits,
            open,
            current,
            cost,
            steps.take(n),
            estimates.take(n),
        ),
    decreases steps.len(),
{
    if n == steps.len() {
        assert(steps.take(n) =~= steps);
        assert(estimates.take(n) =~= estimates);
    } else {
        assert(steps.drop_last().take(n) =~= steps.take(n));
        assert(estimates.drop_last().take(n) =~= estimates.take(n));
        lemma_stopped_stays(
            heuristic,
            visits,
            open,
            current,
            cost,
            steps.drop_last(),
            estimates.drop_last(),
            n,
        );
    }
}

/// Whether every item of least estimate in the open list stands for a node
/// of which `holds` is true.
pub open spec fn least_items<Node, C: Cost>(
    open: Multiset<OpenItem<Node, C>>,
    holds: spec_fn(Node) -> bool,
) -> bool {
    forall|item: OpenItem<Node, C>|
        #![trigger open.contains(item)]
        open.contains(item) && (forall|x: OpenItem<Node, C>| #[trigger]
            open.contains(x) ==> item.heuristic.value() <= x.heuristic.value()) ==> holds(
            item.node,
        )
}

/// A search whose least items all stand for nodes that the goal test cannot
/// but accept returns one of them at once: the item has left the open list,
/// and nothing else has changed.
pub proof fn lemma_goal_on_top_is_returned<
    Node,
    C: Cost,
    F: Fn(&Node) -> bool,
    H: Fn(&Node) -> C,
    G: Fn(&Node) -> Vec<(C, Node)>,
>(
    is_goal: F,
    heuristic: H,
    neighbours: G,
    visits: Visits<Node, C>,
    open: Multiset<OpenItem<Node, C>>,
    trace: Seq<Round<Node, C>>,
    after: Visits<Node, C>,
    rest: Multiset<OpenItem<Node, C>>,
    result: Result<Node, AStarError>,
)
    requires
        is_run(is_goal, heuristic, neighbours, visits, open, trace, after, rest, result),
        open.len() > 0,
        least_items(
            open,
            |n: Node| forall|answer: bool| #[trigger] call_ensures(is_goal, (&n,), answer) ==> answer,
        ),
    ensures
        trace.len() == 1,
        result == Ok::<Node, AStarError>(trace[0].item.node),
        open.contains(trace[0].item),
        rest == open.remove(trace[0].item),
        after == visits,
{
    assert(open.contains(trace[0].item));
    assert(call_ensures(is_goal, (&trace[0].item.node,), trace[0].goal));
}

/// A search whose least items all stand for nodes that have no record, and
/// that the goal test cannot accept, ends in `OpenItemNotInClosedList` at
/// once: the item has left the open list, and nothing else has changed.
pub proof fn lemma_unrecorded_node_faults<
    Node,
    C: Cost,
    F: Fn(&Node) -> bool,
    H: Fn(&Node) -> C,
    G: Fn(&Node) -> Vec<(C, Node)>,
>(
    is_goal: F,
    heuristic: H,
    neighbours: G,
    visits: Visits<Node, C>,
    open: Multiset<OpenItem<Node, C>>,
    trace: Seq<Round<Node, C>>,
    after: Visits<Node, C>,
    rest: Multiset<OpenItem<Node, C>>,
    result: Result<Node, AStarError>,
)
    requires
        is_run(is_goal, heuristic, neighbours, visits, open, trace, after, rest, result),
        open.len() > 0,
        least_items(
            open,
            |n: Node|
                visits[n] is Unvisited && forall|answer: bool| #[trigger]
                    call_ensures(is_goal, (&n,), answer) ==> !answer,
        ),
    ensures
        trace.len() == 1,
        result == Err::<Node, AStarError>(AStarError::OpenItemNotInClosedList),
        open.contains(trace[0].item),
        rest == open.remove(trace[0].item),
        after == visits,
{
    assert(open.contains(trace[0].item));
    assert(call_ensures(is_goal, (&trace[0].item.node,), trace[0].goal));
}

/// Whether no run from the two containers ends in `FoundHigherCostPath`,
/// whichever least items are popped.
pub open spec fn never_cheaper_way<
    Node,
    C: Cost,
    F: Fn(&Node) -> bool,
    H: Fn(&Node) -> C,
    G: Fn(&Node) -> Vec<(C, Node)>,
>(
    is_goal: F,
    heuristic: H,
    neighbours: G,
    visits: Visits<Node, C>,
    open: Multiset<OpenItem<Node, C>>,
) -> bool {
    forall|trace: Seq<Round<Node, C>>, after: Visits<Node, C>, rest: Multiset<OpenItem<Node, C>>|
        !#[trigger] is_run(
            is_goal,
            heuristic,
            neighbours,
            visits,
            open,
            trace,
            after,
            rest,
            Err(AStarError::FoundHigherCostPath),
        )
}

} // verus!
