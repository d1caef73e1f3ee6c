//! What a search keeps true from round to round, and why every run has the
//! outcome that is promised of a search.
//!
//! `sound` gathers what holds between two steps of a search. The lemmas show
//! that popping an item, taking a step of an expansion and finishing a node
//! keep it, first for one step, then for the steps of an expansion and the
//! rounds of a run.

use vstd::prelude::*;
use vstd::multiset::Multiset;
use crate::astar::{AStarError, ClosedListState, OpenItem, Visits};
use crate::cost::Cost;
use crate::frontier::{
    frontier, lemma_finish_keeps_frontier, lemma_label_keeps_forest, lemma_label_keeps_frontier,
    lemma_label_keeps_monotone, lemma_no_cheaper_way, lemma_pop_keeps_frontier,
    lemma_pop_keeps_monotone, lemma_seeded_frontier, monotone, processed, settled,
};
use crate::graph::{
    admissible, all_goals_queued, budget, cheaper_way_found, consistent, decides, extends,
    forest, implements, is_edge, is_route, labelled_by_edge, order_preserving, outcome, ranked,
    searchable, seeded, unvisited, walk_cost, walk_end, within_budget, Steps,
};
use crate::optimality::{lemma_exhausted_means_no_goal, lemma_popped_goal_is_cheapest};
use crate::run::{cost_of, expansion, is_run, never_cheaper_way, round_can_be, take_step, Round};

verus! {

/// What a search keeps true from step to step. The first part holds of
/// every search: the frame of what may change, and the bounds that keep the
/// sums within the cost type. The rest holds where the search began from a
/// forest (`modes.0`), from seeded containers (`modes.1`), and with a
/// consistent heuristic over order-preserving edges besides (`modes.2`).
#[verifier::opaque]
pub closed spec fn sound<
    Node,
    C: Cost,
    F: Fn(&Node) -> bool,
    H: Fn(&Node) -> C,
    G: Fn(&Node) -> Vec<(C, Node)>,
>(
    before: Visits<Node, C>,
    visits: Visits<Node, C>,
    open: Multiset<OpenItem<Node, C>>,
    is_goal: F,
    heuristic: H,
    neighbours: G,
    bounds: (nat, nat, nat),
    expanded: Set<Node>,
    current: Option<Node>,
    floor: nat,
    modes: (bool, bool, bool),
) -> bool {
    &&& visits.dom().finite()
    &&& extends(before, visits, neighbours)
    &&& forall|item: OpenItem<Node, C>| #[trigger]
        open.contains(item) ==> visits.dom().contains(item.node)
    &&& budget(visits, heuristic, neighbours, bounds.0, bounds.1, bounds.2)
    &&& modes.0 ==> forest(visits)
    &&& modes.1 ==> {
        &&& frontier(visits, open, is_goal, heuristic, neighbours, expanded, current)
        &&& forall|n: Node| before.dom().contains(n) ==> !(#[trigger] before[n] is PathFrom)
    }
    &&& modes.2 ==> {
        &&& modes.1
        &&& consistent(heuristic, neighbours)
        &&& order_preserving(heuristic, neighbours)
        &&& monotone(before, visits, open, heuristic, neighbours, floor)
    }
}

/// Whether every queued item was queued from the start or stands for a
/// reached node.
pub closed spec fn accounted<Node, C>(
    queue: Multiset<OpenItem<Node, C>>,
    visits: Visits<Node, C>,
    open: Multiset<OpenItem<Node, C>>,
) -> bool {
    forall|item: OpenItem<Node, C>| #[trigger]
        open.contains(item) ==> queue.contains(item) || !(visits[item.node] is Unvisited)
}

pub proof fn lemma_one_more_edge(u: nat, e: nat)
    by (nonlinear_arith)
    ensures
        (u + 1) * e == u * e + e,
{
}

/// Recording a state for an unvisited node takes exactly that node out of
/// the unvisited ones.
pub proof fn lemma_visit<Node, C>(visits: Visits<Node, C>, node: Node, state: ClosedListState<Node, C>)
    requires
        visits.dom().finite(),
        visits.dom().contains(node),
        visits[node] is Unvisited,
        !(state is Unvisited),
    ensures
        unvisited(visits).finite(),
        unvisited(visits).contains(node),
        unvisited(visits.insert(node, state)) == unvisited(visits).remove(node),
        unvisited(visits.insert(node, state)).len() + 1 == unvisited(visits).len(),
{
    visits.dom().lemma_len_filter(|n: Node| visits[n] is Unvisited);
    vstd::set_lib::lemma_set_subset_finite(visits.dom(), unvisited(visits));
    let after = visits.insert(node, state);
    assert(after.dom() =~= visits.dom());
    assert(unvisited(after) =~= unvisited(visits).remove(node));
}

/// Labelling an unvisited neighbour of a reached node keeps to the frame of
/// what a search may change.
pub proof fn lemma_label_extends<Node, C: Cost, G: Fn(&Node) -> Vec<(C, Node)>>(
    before: Visits<Node, C>,
    visits: Visits<Node, C>,
    neighbours: G,
    current: Node,
    step: (C, Node),
    cost: C,
)
    requires
        extends(before, visits, neighbours),
        visits.dom().contains(current),
        !(visits[current] is Unvisited),
        visits.dom().contains(step.1),
        visits[step.1] is Unvisited,
        is_edge(neighbours, current, step.0, step.1),
        cost.value() == step.0.value() + visits[current].cost(),
    ensures
        extends(
            before,
            visits.insert(step.1, ClosedListState::PathFrom(current, cost)),
            neighbours,
        ),
        before[step.1] is Unvisited,
{
    let after = visits.insert(step.1, ClosedListState::PathFrom(current, cost));
    assert(after.dom() =~= visits.dom());
    assert forall|n: Node| before.dom().contains(n) && !(before[n] is Unvisited) implies #[trigger] after[n]
        == before[n] by {
        assert(visits[n] == before[n]);
    }
    assert(labelled_by_edge(after, neighbours, step.1));
    assert forall|n: Node|
        before.dom().contains(n) && before[n] is Unvisited && !(#[trigger] after[n]
            is Unvisited) implies labelled_by_edge(after, neighbours, n) by {
        if n != step.1 {
            assert(labelled_by_edge(visits, neighbours, n));
        }
    }
}

/// What a sound state says about the closed list alone.
pub proof fn lemma_sound_frame<
    Node,
    C: Cost,
    F: Fn(&Node) -> bool,
    H: Fn(&Node) -> C,
    G: Fn(&Node) -> Vec<(C, Node)>,
>(
    before: Visits<Node, C>,
    visits: Visits<Node, C>,
    open: Multiset<OpenItem<Node, C>>,
    is_goal: F,
    heuristic: H,
    neighbours: G,
    bounds: (nat, nat, nat),
    expanded: Set<Node>,
    current: Option<Node>,
    floor: nat,
    modes: (bool, bool, bool),
)
    requires
        sound(
            before,
            visits,
            open,
            is_goal,
            heuristic,
            neighbours,
            bounds,
            expanded,
            current,
            floor,
            modes,
        ),
    ensures
        extends(before, visits, neighbours),
        visits.dom() == before.dom(),
        modes.0 ==> forest(visits),
        forall|item: OpenItem<Node, C>| #[trigger]
            open.contains(item) ==> visits.dom().contains(item.node),
        modes.1 ==> frontier(visits, open, is_goal, heuristic, neighbours, expanded, current),
{
    reveal(sound);
}

/// The sums formed for one step of the popped node fit the cost type.
pub proof fn lemma_step_fits<
    Node,
    C: Cost,
    F: Fn(&Node) -> bool,
    H: Fn(&Node) -> C,
    G: Fn(&Node) -> Vec<(C, Node)>,
>(
    before: Visits<Node, C>,
    visits: Visits<Node, C>,
    open: Multiset<OpenItem<Node, C>>,
    is_goal: F,
    heuristic: H,
    neighbours: G,
    bounds: (nat, nat, nat),
    expanded: Set<Node>,
    floor: nat,
    modes: (bool, bool, bool),
    current: Node,
    list: Vec<(C, Node)>,
    k: int,
)
    requires
        sound(
            before,
            visits,
            open,
            is_goal,
            heuristic,
            neighbours,
            bounds,
            expanded,
            Some(current),
            floor,
            modes,
        ),
        visits.dom().contains(current),
        call_ensures(neighbours, (&current,), list),
        0 <= k < list@.len(),
        visits.dom().contains(list@[k].1),
    ensures
        is_edge(neighbours, current, list@[k].0, list@[k].1),
        list@[k].0.value() + visits[current].cost() <= C::limit(),
        visits[list@[k].1] is Unvisited ==> forall|est: C| #[trigger]
            call_ensures(heuristic, (&list@[k].1,), est) ==> list@[k].0.value()
                + visits[current].cost() + est.value() <= C::limit(),
{
    reveal(sound);
    let step = list@[k];
    assert(list@.contains((step.0, step.1)));
    lemma_one_more_edge(unvisited(visits).len(), bounds.1);
    assert(unvisited(visits).len() * bounds.1 >= 0);
    if visits[step.1] is Unvisited {
        lemma_visit(visits, step.1, ClosedListState::<Node, C>::StartingPoint(step.0));
        lemma_one_more_edge((unvisited(visits).len() - 1) as nat, bounds.1);
        assert(((unvisited(visits).len() - 1) as nat) * bounds.1 >= 0);
    }
}

/// A neighbour that records a cost above what the way through the popped
/// node gives is a cheaper way found; a steady search never meets one.
pub proof fn lemma_cheaper_way<
    Node,
    C: Cost,
    F: Fn(&Node) -> bool,
    H: Fn(&Node) -> C,
    G: Fn(&Node) -> Vec<(C, Node)>,
>(
    before: Visits<Node, C>,
    visits: Visits<Node, C>,
    open: Multiset<OpenItem<Node, C>>,
    is_goal: F,
    heuristic: H,
    neighbours: G,
    bounds: (nat, nat, nat),
    expanded: Set<Node>,
    floor: nat,
    modes: (bool, bool, bool),
    current: Node,
    current_estimate: C,
    step: (C, Node),
)
    requires
        sound(
            before,
            visits,
            open,
            is_goal,
            heuristic,
            neighbours,
            bounds,
            expanded,
            Some(current),
            floor,
            modes,
        ),
        visits.dom().contains(current),
        !(visits[current] is Unvisited),
        visits.dom().contains(step.1),
        is_edge(neighbours, current, step.0, step.1),
        visits[step.1] is PathFrom,
        step.0.value() + visits[current].cost() < visits[step.1].cost(),
        modes.2 ==> call_ensures(heuristic, (&current,), current_estimate) && floor
            == visits[current].cost() + current_estimate.value(),
    ensures
        cheaper_way_found(visits, neighbours),
        !modes.2,
{
    reveal(sound);
    if modes.2 {
        assert(before[step.1] is Unvisited);
        lemma_no_cheaper_way(
            before,
            visits,
            open,
            heuristic,
            neighbours,
            floor,
            current,
            current_estimate,
            step,
        );
    }
}

/// Labelling an unvisited neighbour of the popped node, and queueing it
/// under its cost plus an estimate, keeps the state sound.
pub proof fn lemma_label_keeps_sound<
    Node,
    C: Cost,
    F: Fn(&Node) -> bool,
    H: Fn(&Node) -> C,
    G: Fn(&Node) -> Vec<(C, Node)>,
>(
    before: Visits<Node, C>,
    visits: Visits<Node, C>,
    open: Multiset<OpenItem<Node, C>>,
    is_goal: F,
    heuristic: H,
    neighbours: G,
    bounds: (nat, nat, nat),
    expanded: Set<Node>,
    floor: nat,
    modes: (bool, bool, bool),
    current: Node,
    current_estimate: C,
    step: (C, Node),
    cost: C,
    estimate: C,
    item: OpenItem<Node, C>,
)
    requires
        sound(
            before,
            visits,
            open,
            is_goal,
            heuristic,
            neighbours,
            bounds,
            expanded,
            Some(current),
            floor,
            modes,
        ),
        visits.dom().contains(current),
        !(visits[current] is Unvisited),
        visits.dom().contains(step.1),
        visits[step.1] is Unvisited,
        is_edge(neighbours, current, step.0, step.1),
        cost.value() == step.0.value() + visits[current].cost(),
        call_ensures(heuristic, (&step.1,), estimate),
        item.node == step.1,
        item.heuristic.value() == cost.value() + estimate.value(),
        modes.2 ==> call_ensures(heuristic, (&current,), current_estimate) && floor
            == visits[current].cost() + current_estimate.value(),
    ensures
        sound(
            before,
            visits.insert(step.1, ClosedListState::PathFrom(current, cost)),
            open.insert(item),
            is_goal,
            heuristic,
            neighbours,
            (bounds.0 + bounds.1, bounds.1, bounds.2),
            expanded,
            Some(current),
            floor,
            modes,
        ),
        unvisited(visits.insert(step.1, ClosedListState::PathFrom(current, cost))).len() + 1
            == unvisited(visits).len(),
        settled(visits.insert(step.1, ClosedListState::PathFrom(current, cost)), current, step),
{
    reveal(sound);
    let label = ClosedListState::PathFrom(current, cost);
    let after = visits.insert(step.1, label);
    let more = open.insert(item);
    lemma_visit(visits, step.1, label);
    lemma_one_more_edge(unvisited(after).len(), bounds.1);
    lemma_one_more_edge(unvisited(visits).len(), bounds.1);
    lemma_label_extends(before, visits, neighbours, current, step, cost);
    assert(after.dom() =~= visits.dom());
    assert forall|x: OpenItem<Node, C>| #[trigger] more.contains(x) implies after.dom().contains(
        x.node,
    ) by {
        if x != item {
            assert(open.contains(x));
        }
    }
    assert(budget(after, heuristic, neighbours, bounds.0 + bounds.1, bounds.1, bounds.2)) by {
        assert(list_bound(after, neighbours, bounds.1)) by {
            assert(list_bound(visits, neighbours, bounds.1));
        }
        assert forall|n: Node| #[trigger] after.dom().contains(n) implies after[n].cost()
            <= bounds.0 + bounds.1 by {
            if n == step.1 {
                assert(visits.dom().contains(current));
                assert((exists|out: Vec<(C, Node)>| #[trigger]
                    call_ensures(neighbours, (&current,), out) && out@.contains((step.0, step.1))));
                let out = choose|out: Vec<(C, Node)>| #[trigger]
                    call_ensures(neighbours, (&current,), out) && out@.contains((step.0, step.1));
                let i = choose|i: int| 0 <= i < out@.len() && out@[i] == (step.0, step.1);
                assert(out@[i].0.value() <= bounds.1);
            } else {
                assert(visits.dom().contains(n));
            }
        }
    }
    if modes.0 {
        lemma_label_keeps_forest(visits, current, step.1, cost);
    }
    if modes.1 {
        lemma_label_keeps_frontier(
            visits,
            open,
            is_goal,
            heuristic,
            neighbours,
            expanded,
            current,
            step.1,
            label,
            estimate,
            item,
        );
    }
    if modes.2 {
        lemma_label_keeps_monotone(
            before,
            visits,
            open,
            heuristic,
            neighbours,
            floor,
            current,
            current_estimate,
            step,
            label,
            estimate,
            item,
        );
    }
}

/// The bound on edge costs, which says nothing of what is recorded.
pub closed spec fn list_bound<Node, C: Cost, G: Fn(&Node) -> Vec<(C, Node)>>(
    visits: Visits<Node, C>,
    neighbours: G,
    edge_max: nat,
) -> bool {
    forall|n: Node, out: Vec<(C, Node)>, i: int|
        #![trigger call_ensures(neighbours, (&n,), out), out@[i]]
        visits.dom().contains(n) && call_ensures(neighbours, (&n,), out) && 0 <= i < out@.len()
            ==> out@[i].0.value() <= edge_max
}

/// Taking a least item out of the open list keeps the state sound, with the
/// item's node in hand; the result is the estimate the item was ranked by.
pub proof fn lemma_pop_keeps_sound<
    Node,
    C: Cost,
    F: Fn(&Node) -> bool,
    H: Fn(&Node) -> C,
    G: Fn(&Node) -> Vec<(C, Node)>,
>(
    before: Visits<Node, C>,
    visits: Visits<Node, C>,
    open: Multiset<OpenItem<Node, C>>,
    is_goal: F,
    heuristic: H,
    neighbours: G,
    bounds: (nat, nat, nat),
    expanded: Set<Node>,
    floor: nat,
    modes: (bool, bool, bool),
    item: OpenItem<Node, C>,
) -> (estimate: C)
    requires
        sound(
            before,
            visits,
            open,
            is_goal,
            heuristic,
            neighbours,
            bounds,
            expanded,
            None,
            floor,
            modes,
        ),
        open.contains(item),
        forall|x: OpenItem<Node, C>| #[trigger]
            open.contains(x) ==> item.heuristic.value() <= x.heuristic.value(),
    ensures
        sound(
            before,
            visits,
            open.remove(item),
            is_goal,
            heuristic,
            neighbours,
            bounds,
            expanded,
            Some(item.node),
            visits[item.node].cost() + estimate.value(),
            modes,
        ),
        modes.1 ==> !(visits[item.node] is Unvisited),
        modes.2 ==> call_ensures(heuristic, (&item.node,), estimate),
{
    reveal(sound);
    let rest = open.remove(item);
    assert forall|x: OpenItem<Node, C>| #[trigger] rest.contains(x) implies open.contains(x) by {}
    let estimate = choose|est: C| #[trigger]
        call_ensures(heuristic, (&item.node,), est) && item.heuristic.value()
            == visits[item.node].cost() + est.value();
    if modes.1 {
        assert(ranked(visits, heuristic, item));
        lemma_pop_keeps_frontier(visits, open, is_goal, heuristic, neighbours, expanded, item);
    }
    if modes.2 {
        lemma_pop_keeps_monotone(before, visits, open, heuristic, neighbours, floor, item);
    }
    estimate
}

/// Once every step of the node in hand is settled, and the node was no goal,
/// the state is sound with the node among the expanded ones.
pub proof fn lemma_finish_keeps_sound<
    Node,
    C: Cost,
    F: Fn(&Node) -> bool,
    H: Fn(&Node) -> C,
    G: Fn(&Node) -> Vec<(C, Node)>,
>(
    before: Visits<Node, C>,
    visits: Visits<Node, C>,
    open: Multiset<OpenItem<Node, C>>,
    is_goal: F,
    heuristic: H,
    neighbours: G,
    bounds: (nat, nat, nat),
    expanded: Set<Node>,
    floor: nat,
    modes: (bool, bool, bool),
    current: Node,
)
    requires
        sound(
            before,
            visits,
            open,
            is_goal,
            heuristic,
            neighbours,
            bounds,
            expanded,
            Some(current),
            floor,
            modes,
        ),
        visits.dom().contains(current),
        !(visits[current] is Unvisited),
        processed(visits, neighbours, current),
        call_ensures(is_goal, (&current,), false),
    ensures
        sound(
            before,
            visits,
            open,
            is_goal,
            heuristic,
            neighbours,
            bounds,
            expanded.insert(current),
            None,
            floor,
            modes,
        ),
{
    reveal(sound);
    if modes.1 {
        lemma_finish_keeps_frontier(
            visits,
            open,
            is_goal,
            heuristic,
            neighbours,
            expanded,
            current,
        );
    }
}

/// The steps of an expansion keep a sound state sound. The result is the
/// bound on recorded costs that holds after the first `n` steps of the list
/// that the neighbour function gave. Unless a step stopped the expansion,
/// these steps are settled; if one did, a cheaper way was found, which a
/// steady search never meets.
pub proof fn lemma_expansion_is_sound<
    Node,
    C: Cost,
    F: Fn(&Node) -> bool,
    H: Fn(&Node) -> C,
    G: Fn(&Node) -> Vec<(C, Node)>,
>(
    before: Visits<Node, C>,
    queue: Multiset<OpenItem<Node, C>>,
    visits: Visits<Node, C>,
    open: Multiset<OpenItem<Node, C>>,
    is_goal: F,
    heuristic: H,
    neighbours: G,
    bounds: (nat, nat, nat),
    expanded: Set<Node>,
    modes: (bool, bool, bool),
    current: Node,
    current_estimate: C,
    list: Vec<(C, Node)>,
    estimates: Seq<C>,
    n: int,
) -> (top: nat)
    requires
        sound(
            before,
            visits,
            open,
            is_goal,
            heuristic,
            neighbours,
            bounds,
            expanded,
            Some(current),
            visits[current].cost() + current_estimate.value(),
            modes,
        ),
        accounted(queue, visits, open),
        searchable(before.dom(), is_goal, heuristic, neighbours),
        visits.dom().contains(current),
        !(visits[current] is Unvisited),
        modes.2 ==> call_ensures(heuristic, (&current,), current_estimate),
        call_ensures(neighbours, (&current,), list),
        0 <= n <= list@.len(),
        estimates.len() == list@.len(),
        expansion(
            heuristic,
            visits,
            open,
            current,
            cost_of(visits[current]),
            list@.take(n),
            estimates.take(n),
        ).estimated,
    ensures
        ({
            let e = expansion(
                heuristic,
                visits,
                open,
                current,
                cost_of(visits[current]),
                list@.take(n),
                estimates.take(n),
            );
            &&& sound(
                before,
                e.visits,
                e.open,
                is_goal,
                heuristic,
                neighbours,
                (top, bounds.1, bounds.2),
                expanded,
                Some(current),
                visits[current].cost() + current_estimate.value(),
                modes,
            )
            &&& accounted(queue, e.visits, e.open)
            &&& e.visits.dom().contains(current)
            &&& e.visits[current] == visits[current]
            &&& !e.stopped ==> forall|i: int|
                0 <= i < n ==> settled(e.visits, current, #[trigger] list@[i])
            &&& e.stopped ==> cheaper_way_found(e.visits, neighbours) && !modes.2
        }),
    decreases n,
{
    let cost = cost_of(visits[current]);
    let floor = visits[current].cost() + current_estimate.value();
    if n == 0 {
        assert(list@.take(0) =~= Seq::<(C, Node)>::empty());
        bounds.0
    } else {
        let steps = list@.take(n);
        let used = estimates.take(n);
        assert(steps.drop_last() =~= list@.take(n - 1));
        assert(used.drop_last() =~= estimates.take(n - 1));
        assert(steps.last() == list@[n - 1]);
        assert(used.last() == estimates[n - 1]);
        let so_far = expansion(
            heuristic,
            visits,
            open,
            current,
            cost,
            list@.take(n - 1),
            estimates.take(n - 1),
        );
        let step = list@[n - 1];
        let estimate = estimates[n - 1];
        assert(expansion(heuristic, visits, open, current, cost, steps, used) == (if so_far.stopped {
            so_far
        } else {
            take_step(heuristic, so_far, current, cost, step, estimate)
        }));
        let top = lemma_expansion_is_sound(
            before,
            queue,
            visits,
            open,
            is_goal,
            heuristic,
            neighbours,
            bounds,
            expanded,
            modes,
            current,
            current_estimate,
            list,
            estimates,
            n - 1,
        );
        if so_far.stopped {
            top
        } else {
            lemma_sound_frame(
                before,
                so_far.visits,
                so_far.open,
                is_goal,
                heuristic,
                neighbours,
                (top, bounds.1, bounds.2),
                expanded,
                Some(current),
                floor,
                modes,
            );
            assert(before.dom().contains(current));
            assert(so_far.visits.dom().contains(step.1));
            lemma_step_fits(
                before,
                so_far.visits,
                so_far.open,
                is_goal,
                heuristic,
                neighbours,
                (top, bounds.1, bounds.2),
                expanded,
                floor,
                modes,
                current,
                list,
                n - 1,
            );
            assert(cost.value() == visits[current].cost());
            step.0.sum_adds(cost);
            let potential = step.0.sum(cost);
            match so_far.visits[step.1] {
                ClosedListState::PathFrom(_, existing) => {
                    if !(existing.value() <= potential.value()) {
                        lemma_cheaper_way(
                            before,
                            so_far.visits,
                            so_far.open,
                            is_goal,
                            heuristic,
                            neighbours,
                            (top, bounds.1, bounds.2),
                            expanded,
                            floor,
                            modes,
                            current,
                            current_estimate,
                            step,
                        );
                    }
                    top
                },
                ClosedListState::StartingPoint(_) => top,
                ClosedListState::Unvisited => {
                    assert(call_ensures(heuristic, (&step.1,), estimate));
                    potential.sum_adds(estimate);
                    let item = OpenItem { heuristic: potential.sum(estimate), node: step.1 };
                    lemma_label_keeps_sound(
                        before,
                        so_far.visits,
                        so_far.open,
                        is_goal,
                        heuristic,
                        neighbours,
                        (top, bounds.1, bounds.2),
                        expanded,
                        floor,
                        modes,
                        current,
                        current_estimate,
                        step,
                        potential,
                        estimate,
                        item,
                    );
                    let label = ClosedListState::PathFrom(current, potential);
                    let after = so_far.visits.insert(step.1, label);
                    let more = so_far.open.insert(item);
                    assert forall|i: int| 0 <= i < n implies settled(
                        after,
                        current,
                        #[trigger] list@[i],
                    ) by {
                        if i < n - 1 {
                            assert(settled(so_far.visits, current, list@[i]));
                        }
                    }
                    assert forall|x: OpenItem<Node, C>| #[trigger] more.contains(x) implies queue.contains(
                        x,
                    ) || !(after[x.node] is Unvisited) by {
                        if x != item {
                            assert(so_far.open.contains(x));
                        }
                    }
                    top + bounds.1
                },
            }
        }
    }
}

/// Every run from a sound state has the outcome that is promised of a
/// search.
pub proof fn lemma_run_from_sound<
    Node,
    C: Cost,
    F: Fn(&Node) -> bool,
    H: Fn(&Node) -> C,
    G: Fn(&Node) -> Vec<(C, Node)>,
>(
    before: Visits<Node, C>,
    queue: Multiset<OpenItem<Node, C>>,
    visits: Visits<Node, C>,
    open: Multiset<OpenItem<Node, C>>,
    is_goal: F,
    heuristic: H,
    neighbours: G,
    bounds: (nat, nat, nat),
    expanded: Set<Node>,
    floor: nat,
    modes: (bool, bool, bool),
    fresh: bool,
    trace: Seq<Round<Node, C>>,
    after: Visits<Node, C>,
    rest: Multiset<OpenItem<Node, C>>,
    result: Result<Node, AStarError>,
)
    requires
        searchable(before.dom(), is_goal, heuristic, neighbours),
        modes.0 == forest(before),
        modes.1 == seeded(before, queue, heuristic),
        modes.2 == (modes.1 && consistent(heuristic, neighbours) && order_preserving(
            heuristic,
            neighbours,
        )),
        sound(
            before,
            visits,
            open,
            is_goal,
            heuristic,
            neighbours,
            bounds,
            expanded,
            None,
            floor,
            modes,
        ),
        accounted(queue, visits, open),
        fresh ==> visits == before && open == queue,
        !fresh ==> !all_goals_queued(queue, is_goal),
        is_run(is_goal, heuristic, neighbours, visits, open, trace, after, rest, result),
    ensures
        outcome(before, queue, is_goal, heuristic, neighbours, after, rest, result),
    decreases trace.len(),
{
    lemma_sound_frame(
        before,
        visits,
        open,
        is_goal,
        heuristic,
        neighbours,
        bounds,
        expanded,
        None,
        floor,
        modes,
    );
    if trace.len() == 0 {
        if modes.1 {
            assert forall|
                edges: Steps<Node, C>,
                goals: spec_fn(Node) -> bool,
                start: Node,
                steps: Seq<(C, Node)>,
            |
                implements(neighbours, edges) && decides(is_goal, goals) && is_route(
                    before,
                    edges,
                    start,
                    steps,
                ) implies !goals(walk_end(start, steps)) by {
                lemma_exhausted_means_no_goal(
                    before,
                    visits,
                    open,
                    is_goal,
                    heuristic,
                    neighbours,
                    edges,
                    goals,
                    expanded,
                    start,
                    steps,
                );
            }
        }
    } else {
        let round = trace[0];
        let item = round.item;
        let node = item.node;
        let left = open.remove(item);
        assert(round_can_be(is_goal, heuristic, neighbours, visits, open, round));
        let estimate = lemma_pop_keeps_sound(
            before,
            visits,
            open,
            is_goal,
            heuristic,
            neighbours,
            bounds,
            expanded,
            floor,
            modes,
            item,
        );
        let raised = visits[node].cost() + estimate.value();
        lemma_sound_frame(
            before,
            visits,
            left,
            is_goal,
            heuristic,
            neighbours,
            bounds,
            expanded,
            Some(node),
            raised,
            modes,
        );
        assert forall|x: OpenItem<Node, C>| #[trigger] left.contains(x) implies queue.contains(x)
            || !(visits[x.node] is Unvisited) by {
            assert(open.contains(x));
        }
        assert(queue.contains(item) || !(visits[node] is Unvisited));
        if round.goal {
            if modes.1 {
                assert forall|
                    edges: Steps<Node, C>,
                    goals: spec_fn(Node) -> bool,
                    start: Node,
                    steps: Seq<(C, Node)>,
                |
                    implements(neighbours, edges) && decides(is_goal, goals) && admissible(
                        heuristic,
                        edges,
                        goals,
                    ) && is_route(before, edges, start, steps) && goals(
                        walk_end(start, steps),
                    ) implies visits[node].cost() <= before[start].cost() + walk_cost(steps) by {
                    lemma_popped_goal_is_cheapest(
                        before,
                        visits,
                        open,
                        is_goal,
                        heuristic,
                        neighbours,
                        edges,
                        goals,
                        expanded,
                        item,
                        start,
                        steps,
                    );
                }
            }
        } else if visits[node] is Unvisited {
        } else {
            let list = choose|out: Vec<(C, Node)>| #[trigger]
                call_ensures(neighbours, (&node,), out) && out@ == round.steps;
            assert(list@.take(list@.len() as int) =~= list@);
            assert(round.estimates.take(list@.len() as int) =~= round.estimates);
            let top = lemma_expansion_is_sound(
                before,
                queue,
                visits,
                left,
                is_goal,
                heuristic,
                neighbours,
                bounds,
                expanded,
                modes,
                node,
                estimate,
                list,
                round.estimates,
                list@.len() as int,
            );
            let done = expansion(
                heuristic,
                visits,
                left,
                node,
                cost_of(visits[node]),
                round.steps,
                round.estimates,
            );
            lemma_sound_frame(
                before,
                done.visits,
                done.open,
                is_goal,
                heuristic,
                neighbours,
                (top, bounds.1, bounds.2),
                expanded,
                Some(node),
                raised,
                modes,
            );
            if !done.stopped {
                assert(processed(done.visits, neighbours, node));
                lemma_finish_keeps_sound(
                    before,
                    done.visits,
                    done.open,
                    is_goal,
                    heuristic,
                    neighbours,
                    (top, bounds.1, bounds.2),
                    expanded,
                    raised,
                    modes,
                    node,
                );
                lemma_run_from_sound(
                    before,
                    queue,
                    done.visits,
                    done.open,
                    is_goal,
                    heuristic,
                    neighbours,
                    (top, bounds.1, bounds.2),
                    expanded.insert(node),
                    raised,
                    modes,
                    false,
                    trace.skip(1),
                    after,
                    rest,
                    result,
                );
            }
        }
    }
}

/// Every run has the outcome that is promised of a search: what `is_run`
/// says of one run, `outcome` says of all.
pub proof fn lemma_run_has_outcome<
    Node,
    C: Cost,
    F: Fn(&Node) -> bool,
    H: Fn(&Node) -> C,
    G: Fn(&Node) -> Vec<(C, Node)>,
>(
    visits: Visits<Node, C>,
    open: Multiset<OpenItem<Node, C>>,
    is_goal: F,
    heuristic: H,
    neighbours: G,
    trace: Seq<Round<Node, C>>,
    after: Visits<Node, C>,
    rest: Multiset<OpenItem<Node, C>>,
    result: Result<Node, AStarError>,
)
    requires
        visits.dom().finite(),
        searchable(visits.dom(), is_goal, heuristic, neighbours),
        forall|item: OpenItem<Node, C>| #[trigger]
            open.contains(item) ==> visits.dom().contains(item.node),
        within_budget(visits, heuristic, neighbours),
        is_run(is_goal, heuristic, neighbours, visits, open, trace, after, rest, result),
    ensures
        outcome(visits, open, is_goal, heuristic, neighbours, after, rest, result),
{
    let (seed_max, edge_max, estimate_max) = choose|
        seed_max: nat,
        edge_max: nat,
        estimate_max: nat,
    | budget(visits, heuristic, neighbours, seed_max, edge_max, estimate_max);
    let proper = seeded(visits, open, heuristic);
    let modes = (
        forest(visits),
        proper,
        proper && consistent(heuristic, neighbours) && order_preserving(heuristic, neighbours),
    );
    if proper {
        lemma_seeded_frontier(visits, open, is_goal, heuristic, neighbours);
    }
    assert(sound(
        visits,
        visits,
        open,
        is_goal,
        heuristic,
        neighbours,
        (seed_max, edge_max, estimate_max),
        Set::empty(),
        None,
        0,
        modes,
    )) by {
        reveal(sound);
    }
    lemma_run_from_sound(
        visits,
        open,
        visits,
        open,
        is_goal,
        heuristic,
        neighbours,
        (seed_max, edge_max, estimate_max),
        Set::empty(),
        0,
        modes,
        true,
        trace,
        after,
        rest,
        result,
    );
}

/// No run from seeded containers meets a cheaper way to a labelled node,
/// where the heuristic is consistent and the edges are order-preserving.
pub proof fn lemma_steady_search_never_meets_cheaper_way<
    Node,
    C: Cost,
    F: Fn(&Node) -> bool,
    H: Fn(&Node) -> C,
    G: Fn(&Node) -> Vec<(C, Node)>,
>(visits: Visits<Node, C>, open: Multiset<OpenItem<Node, C>>, is_goal: F, heuristic: H, neighbours: G)
    requires
        visits.dom().finite(),
        searchable(visits.dom(), is_goal, heuristic, neighbours),
        forall|item: OpenItem<Node, C>| #[trigger]
            open.contains(item) ==> visits.dom().contains(item.node),
        within_budget(visits, heuristic, neighbours),
        seeded(visits, open, heuristic),
        consistent(heuristic, neighbours),
        order_preserving(heuristic, neighbours),
    ensures
        never_cheaper_way(is_goal, heuristic, neighbours, visits, open),
{
    assert forall|
        trace: Seq<Round<Node, C>>,
        after: Visits<Node, C>,
        rest: Multiset<OpenItem<Node, C>>,
    | !#[trigger] is_run(
        is_goal,
        heuristic,
        neighbours,
        visits,
        open,
        trace,
        after,
        rest,
        Err(AStarError::FoundHigherCostPath),
    ) by {
        if is_run(
            is_goal,
            heuristic,
            neighbours,
            visits,
            open,
            trace,
            after,
            rest,
            Err(AStarError::FoundHigherCostPath),
        ) {
            lemma_run_has_outcome(
                visits,
                open,
                is_goal,
                heuristic,
                neighbours,
                trace,
                after,
                rest,
                Err(AStarError::FoundHigherCostPath),
            );
        }
    }
}

/// Containers whose sums fit the cost type are a sound state of a search
/// that makes no assumption of them.
pub proof fn lemma_budget_is_sound<
    Node,
    C: Cost,
    F: Fn(&Node) -> bool,
    H: Fn(&Node) -> C,
    G: Fn(&Node) -> Vec<(C, Node)>,
>(
    visits: Visits<Node, C>,
    open: Multiset<OpenItem<Node, C>>,
    is_goal: F,
    heuristic: H,
    neighbours: G,
    bounds: (nat, nat, nat),
)
    requires
        visits.dom().finite(),
        forall|item: OpenItem<Node, C>| #[trigger]
            open.contains(item) ==> visits.dom().contains(item.node),
        budget(visits, heuristic, neighbours, bounds.0, bounds.1, bounds.2),
    ensures
        sound(
            visits,
            visits,
            open,
            is_goal,
            heuristic,
            neighbours,
            bounds,
            Set::empty(),
            None,
            0,
            (false, false, false),
        ),
{
    reveal(sound);
}

} // verus!
