//! The search driver and the two containers it is generic over.
//!
//! A search keeps a frontier of discovered nodes (the open list, a priority
//! queue on estimated total cost) and a record of how each node was reached
//! (the closed list). The driver pops the most promising node, labels its
//! unvisited neighbours and pushes them, until a goal is popped or the
//! frontier is exhausted.

use vstd::prelude::*;
use vstd::multiset::Multiset;
use crate::cost::Cost;
use crate::frontier::{processed, settled};
use crate::graph::{
    budget, cheaper_way_found, forest, outcome, searchable, unvisited, within_budget,
};
use crate::soundness::{
    lemma_budget_is_sound, lemma_cheaper_way, lemma_finish_keeps_sound, lemma_label_keeps_sound, lemma_pop_keeps_sound,
    lemma_run_has_outcome, lemma_sound_frame, lemma_step_fits, sound,
};
use crate::run::{
    cost_of, expansion, is_run, lemma_rounds_then_run, lemma_stopped_stays, proceeds,
    round_can_be, round_result, state_after, take_step, Expansion, Round,
};
use crate::trail::{
    lemma_trail_begins_at_start, lemma_trail_has_no_repeats, lemma_trail_is_unique,
    lemma_trail_of_origin,
};

verus! {

/// An entry of the open list: a node and its estimated total cost, that is
/// the cost accumulated on the way to the node plus the heuristic estimate
/// of what remains.
#[derive(Debug, Clone, Copy)]
pub struct OpenItem<Node, C> {
    pub heuristic: C,
    pub node: Node,
}

/// How a node was reached, as the closed list records it.
#[derive(Debug, Clone, Copy)]
pub enum ClosedListState<Node, C> {
    /// The node has not been reached.
    Unvisited,
    /// The node is an origin of the search, with its baseline cost.
    StartingPoint(C),
    /// The node was reached from a predecessor, at this accumulated cost.
    PathFrom(Node, C),
}

impl<Node, C: Cost> ClosedListState<Node, C> {
    /// The accumulated cost recorded for a reached node; zero for an
    /// unvisited one.
    pub open spec fn cost(self) -> nat {
        match self {
            ClosedListState::Unvisited => 0,
            ClosedListState::StartingPoint(c) => c.value(),
            ClosedListState::PathFrom(_, c) => c.value(),
        }
    }
}

/// The ways a search ends without a goal.
#[derive(Debug, Clone, Copy, PartialEq, Eq)]
pub enum AStarError {
    /// A node came off the open list that the closed list has no record of.
    OpenItemNotInClosedList,
    /// A strictly cheaper way was found to a node that already has a
    /// predecessor.
    FoundHigherCostPath,
    /// The open list ran empty before a goal was popped.
    PathNotFound,
}

/// A min-first priority queue of open items. Its content is the multiset of
/// items pushed and not yet popped; items are ordered by `heuristic` alone.
pub trait OpenList<Node, C: Cost> {
    /// The items pushed and not yet popped.
    spec fn view(&self) -> Multiset<OpenItem<Node, C>>;

    fn is_empty(&self) -> (b: bool)
        ensures
            b == (self@.len() == 0),
    ;

    fn push_open(&mut self, e: OpenItem<Node, C>)
        ensures
            final(self)@ == old(self)@.insert(e),
    ;

    /// Takes out an item of least `heuristic`; `None` when there is no item.
    /// Which one of several least items leaves is not fixed.
    fn pop_min(&mut self) -> (popped: Option<OpenItem<Node, C>>)
        ensures
            match popped {
                None => old(self)@.len() == 0 && final(self)@ == old(self)@,
                Some(e) => {
                    &&& old(self)@.contains(e)
                    &&& final(self)@ == old(self)@.remove(e)
                    &&& forall|x: OpenItem<Node, C>| #[trigger]
                        old(self)@.contains(x) ==> e.heuristic.value()
                            <= x.heuristic.value()
                },
            },
    ;
}

/// What a closed list holds, seen as a map: the nodes it has room for, each
/// with its recorded state.
pub type Visits<Node, C> = Map<Node, ClosedListState<Node, C>>;

/// Whether `trail` is the way back-links lead to `node`: it ends in `node`,
/// every node but the first was reached from the one before it, and the first
/// has no predecessor.
pub open spec fn is_trail<Node, C>(visits: Visits<Node, C>, trail: Seq<Node>, node: Node) -> bool {
    &&& trail.len() >= 1
    &&& trail.last() == node
    &&& forall|i: int| 0 <= i < trail.len() ==> visits.dom().contains(#[trigger] trail[i])
    &&& !(visits[trail[0]] is PathFrom)
    &&& forall|i: int|
        1 <= i < trail.len() ==> (#[trigger] visits[trail[i]] matches ClosedListState::PathFrom(
            p,
            _,
        ) && p == trail[i - 1])
}

/// Whether the back-links from `node` lead, within the domain, to a node
/// without a predecessor.
pub open spec fn has_trail<Node, C>(visits: Visits<Node, C>, node: Node) -> bool {
    exists|t: Seq<Node>| is_trail(visits, t, node)
}

/// The record of how each node was reached: one state per node of a fixed,
/// finite domain, read and written in constant time.
///
/// The `PathFrom` entries are back-links. A search keeps them a forest rooted
/// at its starting points, which is what lets `unwind` walk from a node back
/// to its origin.
pub trait ClosedList<Node: Copy, C: Cost>: Sized {
    /// The nodes the store has room for, each with its recorded state.
    spec fn view(&self) -> Visits<Node, C>;

    proof fn domain_is_finite(&self)
        ensures
            self@.dom().finite(),
    ;

    fn get(&self, node: Node) -> (s: ClosedListState<Node, C>)
        requires
            self@.dom().contains(node),
        ensures
            s == self@[node],
    ;

    fn set(&mut self, node: Node, state: ClosedListState<Node, C>)
        requires
            old(self)@.dom().contains(node),
        ensures
            final(self)@ == old(self)@.insert(node, state),
    ;

    /// The nodes from the origin of `node` to `node` itself, in the order in
    /// which they were travelled: the one trail that ends in `node`.
    ///
    /// The path ends with `node` and holds no node twice. It is `node` alone
    /// where `node` has no predecessor, and in a forest it begins at a
    /// starting point.
    fn unwind(&self, node: Node) -> (path: Vec<Node>)
        requires
            has_trail(self@, node),
        ensures
            is_trail(self@, path@, node),
            path@.no_duplicates(),
            !(self@[node] is PathFrom) ==> path@ == seq![node],
            forest(self@) && !(self@[node] is Unvisited) ==> self@[path@[0]] is StartingPoint,
    {
        let ghost t = choose|t: Seq<Node>| is_trail(self@, t, node);
        let mut r = node;
        let mut back: Vec<Node> = Vec::new();
        back.push(r);
        let ghost mut i: int = 0;
        loop
            invariant
                is_trail(self@, t, node),
                0 <= i < t.len(),
                r == t[t.len() - 1 - i],
                back@.len() == i + 1,
                forall|j: int| 0 <= j <= i ==> back@[j] == t[t.len() - 1 - j],
            ensures
                i == t.len() - 1,
            decreases t.len() - i,
        {
            match self.get(r) {
                ClosedListState::PathFrom(last, _) => {
                    back.push(last);
                    r = last;
                    proof {
                        i = i + 1;
                    }
                },
                _ => {
                    break ;
                },
            }
        }
        let path = reversed(&back);
        assert(path@ =~= t);
        proof {
            lemma_trail_has_no_repeats(self@, t, node);
            if !(self@[node] is PathFrom) {
                lemma_trail_of_origin(self@, node);
                lemma_trail_is_unique(self@, t, seq![node], node);
            }
            if forest(self@) && !(self@[node] is Unvisited) {
                lemma_trail_begins_at_start(self@, t, node);
            }
        }
        path
    }
}

/// Labels the unvisited neighbours of `current`, which was reached at
/// `current_cost`, and pushes them; stops at a neighbour that records a
/// predecessor and a cost above what the way through `current` gives.
fn expand<
    Node: Copy,
    Open: OpenList<Node, C>,
    Closed: ClosedList<Node, C>,
    C: Cost,
    IsGoalFn: Fn(&Node) -> bool,
    HeuristicFn: Fn(&Node) -> C,
    GetNeighboursFn: Fn(&Node) -> Vec<(C, Node)>,
>(
    openlist: &mut Open,
    closed: &mut Closed,
    is_goal: &IsGoalFn,
    heuristic: &HeuristicFn,
    neighbours: &GetNeighboursFn,
    current: Node,
    current_cost: C,
    list: &Vec<(C, Node)>,
    Ghost(before): Ghost<Visits<Node, C>>,
    Ghost(bounds): Ghost<(nat, nat, nat)>,
    Ghost(expanded): Ghost<Set<Node>>,
    Ghost(current_estimate): Ghost<C>,
    Ghost(modes): Ghost<(bool, bool, bool)>,
) -> (result: (Result<(), AStarError>, Ghost<nat>, Ghost<Seq<C>>))
    requires
        sound(
            before,
            old(closed)@,
            old(openlist)@,
            *is_goal,
            *heuristic,
            *neighbours,
            bounds,
            expanded,
            Some(current),
            current_cost.value() + current_estimate.value(),
            modes,
        ),
        forall|n: Node| #[trigger]
            before.dom().contains(n) ==> call_requires(*heuristic, (&n,)),
        forall|i: int|
            0 <= i < list@.len() ==> before.dom().contains((#[trigger] list@[i]).1),
        call_ensures(*neighbours, (&current,), *list),
        old(closed)@.dom().contains(current),
        !(old(closed)@[current] is Unvisited),
        current_cost == cost_of(old(closed)@[current]),
        current_cost.value() == old(closed)@[current].cost(),
        modes.2 ==> call_ensures(*heuristic, (&current,), current_estimate),
    ensures
        sound(
            before,
            final(closed)@,
            final(openlist)@,
            *is_goal,
            *heuristic,
            *neighbours,
            (result.1@, bounds.1, bounds.2),
            expanded,
            Some(current),
            current_cost.value() + current_estimate.value(),
            modes,
        ),
        final(closed)@.dom().contains(current),
        final(closed)@[current] == old(closed)@[current],
        result.0 is Ok ==> processed(final(closed)@, *neighbours, current),
        final(openlist)@.len() + unvisited(final(closed)@).len() == old(openlist)@.len()
            + unvisited(old(closed)@).len(),
        result.0 matches Err(e) ==> e == AStarError::FoundHigherCostPath && cheaper_way_found(
            final(closed)@,
            *neighbours,
        ) && !modes.2,
        result.2@.len() == list@.len(),
        expansion(
            *heuristic,
            old(closed)@,
            old(openlist)@,
            current,
            current_cost,
            list@,
            result.2@,
        ) == (Expansion {
            visits: final(closed)@,
            open: final(openlist)@,
            stopped: result.0 is Err,
            estimated: true,
        }),
{
    let ghost mut top: nat = bounds.0;
    let ghost floor = current_cost.value() + current_estimate.value();
    proof {
        lemma_sound_frame(
            before,
            closed@,
            openlist@,
            *is_goal,
            *heuristic,
            *neighbours,
            bounds,
            expanded,
            Some(current),
            floor,
            modes,
        );
    }
    let ghost mut estimates: Seq<C> = Seq::empty();
    let mut k: usize = 0;
    assert(list@.take(0) =~= Seq::<(C, Node)>::empty());
    while k < list.len()
        invariant
            k <= list@.len(),
            estimates.len() == k,
            expansion(
                *heuristic,
                old(closed)@,
                old(openlist)@,
                current,
                current_cost,
                list@.take(k as int),
                estimates,
            ) == (Expansion {
                visits: closed@,
                open: openlist@,
                stopped: false,
                estimated: true,
            }),
            floor == current_cost.value() + current_estimate.value(),
            sound(
                before,
                closed@,
                openlist@,
                *is_goal,
                *heuristic,
                *neighbours,
                (top, bounds.1, bounds.2),
                expanded,
                Some(current),
                floor,
                modes,
            ),
            closed@.dom() == before.dom(),
            forall|n: Node| #[trigger]
                before.dom().contains(n) ==> call_requires(*heuristic, (&n,)),
            forall|i: int|
                0 <= i < list@.len() ==> before.dom().contains((#[trigger] list@[i]).1),
            call_ensures(*neighbours, (&current,), *list),
            closed@.dom().contains(current),
            closed@[current] == old(closed)@[current],
            !(closed@[current] is Unvisited),
            current_cost.value() == closed@[current].cost(),
            modes.2 ==> call_ensures(*heuristic, (&current,), current_estimate),
            forall|i: int| 0 <= i < k ==> settled(closed@, current, #[trigger] list@[i]),
            openlist@.len() + unvisited(closed@).len() == old(openlist)@.len() + unvisited(
                old(closed)@,
            ).len(),
        decreases list@.len() - k,
    {
        let step = list[k];
        let neighbour_cost = step.0;
        let neighbour = step.1;
        let ghost visits = closed@;
        let ghost waiting = openlist@;
        proof {
            lemma_step_fits(
                before,
                visits,
                waiting,
                *is_goal,
                *heuristic,
                *neighbours,
                (top, bounds.1, bounds.2),
                expanded,
                floor,
                modes,
                current,
                *list,
                k as int,
            );
        }
        let potential_path_cost = neighbour_cost.plus(current_cost);
        let ghost so_far = Expansion {
            visits: visits,
            open: waiting,
            stopped: false,
            estimated: true,
        };
        let ghost spare: C = current_cost;
        let ghost prior = estimates;
        proof {
            assert(list@.take(k + 1).drop_last() =~= list@.take(k as int));
            assert(list@.take(k + 1).last() == step);
            assert(estimates.push(spare).drop_last() =~= estimates);
        }
        let free = match closed.get(neighbour) {
            ClosedListState::PathFrom(_, existing_cost) => {
                if !existing_cost.at_most(potential_path_cost) {
                    proof {
                        let rest = Seq::new((list@.len() - k - 1) as nat, |i: int| spare);
                        let all = estimates.push(spare) + rest;
                        assert(all.take(k + 1) =~= estimates.push(spare));
                        assert(take_step(
                            *heuristic,
                            so_far,
                            current,
                            current_cost,
                            step,
                            spare,
                        ).stopped);
                        lemma_stopped_stays(
                            *heuristic,
                            old(closed)@,
                            old(openlist)@,
                            current,
                            current_cost,
                            list@,
                            all,
                            k + 1,
                        );
                        estimates = all;
                    }
                    proof {
                        lemma_cheaper_way(
                            before,
                            visits,
                            waiting,
                            *is_goal,
                            *heuristic,
                            *neighbours,
                            (top, bounds.1, bounds.2),
                            expanded,
                            floor,
                            modes,
                            current,
                            current_estimate,
                            step,
                        );
                    }
                    return (Err(AStarError::FoundHigherCostPath), Ghost(top), Ghost(estimates));
                }
                false
            },
            ClosedListState::StartingPoint(_) => false,
            ClosedListState::Unvisited => true,
        };
        if free {
            // Set the cost of the neighbour to the total cost, and the origin as the current node
            closed.set(neighbour, ClosedListState::PathFrom(current, potential_path_cost));
            let estimate = heuristic(&neighbour);
            let item = OpenItem { heuristic: potential_path_cost.plus(estimate), node: neighbour };
            // Add the neighbour to the open list, to be explored when its estimated total is the lowest
            openlist.push_open(item);
            proof {
                lemma_label_keeps_sound(
                    before,
                    visits,
                    waiting,
                    *is_goal,
                    *heuristic,
                    *neighbours,
                    (top, bounds.1, bounds.2),
                    expanded,
                    floor,
                    modes,
                    current,
                    current_estimate,
                    step,
                    potential_path_cost,
                    estimate,
                    item,
                );
                top = top + bounds.1;
                estimates = estimates.push(estimate);
                assert(estimates.drop_last() =~= estimates.take(k as int));
                assert(closed@.dom() =~= before.dom());
                assert forall|i: int| 0 <= i < k implies settled(
                    closed@,
                    current,
                    #[trigger] list@[i],
                ) by {
                    assert(settled(visits, current, list@[i]));
                }
            }
        }
        proof {
            if !free {
                estimates = estimates.push(spare);
            }
            assert(estimates.drop_last() =~= prior);
            assert(expansion(
                *heuristic,
                old(closed)@,
                old(openlist)@,
                current,
                current_cost,
                list@.take(k + 1),
                estimates,
            ) == take_step(*heuristic, so_far, current, current_cost, step, estimates.last()));
        }
        k = k + 1;
    }
    assert(list@.take(list@.len() as int) =~= list@);
    (Ok(()), Ghost(top), Ghost(estimates))
}

/// Searches from the seeded open list until a goal is popped.
///
/// Each round pops an item of least estimated total cost. If its node is a
/// goal the search ends with that node. Otherwise the node's neighbours are
/// taken in turn: an unvisited one is labelled with its predecessor and
/// accumulated cost and pushed; one that is a starting point, or records a
/// cost no higher than the way through the popped node, is left alone; one
/// that records a higher cost ends the search with `FoundHigherCostPath`.
/// An empty open list ends the search with `PathNotFound`, a popped node
/// without record with `OpenItemNotInClosedList`.
///
/// The containers are expected seeded: every starting point recorded as
/// such in the closed list, and queued under its cost plus its estimate.
/// The search needs the three functions callable on the nodes of the closed
/// list, neighbours and queued nodes within it, and room in the cost type
/// for the sums.
///
/// The result is that of a run: of the rounds that some choice among least
/// items, and some answers of the three functions, give (`is_run`). What
/// holds of every run is told by `outcome`. On success, `unwind` gives the
/// path.
pub fn astar<
    Node: Copy,
    Open: OpenList<Node, C>,
    Closed: ClosedList<Node, C>,
    C: Cost,
    IsGoalFn: Fn(&Node) -> bool,
    HeuristicFn: Fn(&Node) -> C,
    GetNeighboursFn: Fn(&Node) -> Vec<(C, Node)>,
>(
    openlist: &mut Open,
    closed: &mut Closed,
    is_goal: IsGoalFn,
    heuristic: HeuristicFn,
    neighbours: GetNeighboursFn,
) -> (result: Result<Node, AStarError>)
    requires
        searchable(old(closed)@.dom(), is_goal, heuristic, neighbours),
        forall|item: OpenItem<Node, C>| #[trigger]
            old(openlist)@.contains(item) ==> old(closed)@.dom().contains(item.node),
        within_budget(old(closed)@, heuristic, neighbours),
    ensures
        exists|trace: Seq<Round<Node, C>>| #[trigger]
            is_run(
                is_goal,
                heuristic,
                neighbours,
                old(closed)@,
                old(openlist)@,
                trace,
                final(closed)@,
                final(openlist)@,
                result,
            ),
        outcome(
            old(closed)@,
            old(openlist)@,
            is_goal,
            heuristic,
            neighbours,
            final(closed)@,
            final(openlist)@,
            result,
        ),
{
    let ghost before = closed@;
    let ghost queue = openlist@;
    let ghost (seed_max, edge_max, estimate_max) = choose|
        seed_max: nat,
        edge_max: nat,
        estimate_max: nat,
    | budget(before, heuristic, neighbours, seed_max, edge_max, estimate_max);
    let ghost plain = (false, false, false);
    let ghost mut ceiling: nat = seed_max;
    let ghost mut expanded: Set<Node> = Set::empty();
    let ghost mut floor: nat = 0;
    let ghost mut trace: Seq<Round<Node, C>> = Seq::empty();
    proof {
        closed.domain_is_finite();
        lemma_budget_is_sound(
            before,
            queue,
            is_goal,
            heuristic,
            neighbours,
            (seed_max, edge_max, estimate_max),
        );
    }
    loop
        invariant
            before == old(closed)@,
            queue == old(openlist)@,
            before.dom().finite(),
            searchable(before.dom(), is_goal, heuristic, neighbours),
            forall|item: OpenItem<Node, C>| #[trigger]
                queue.contains(item) ==> before.dom().contains(item.node),
            within_budget(before, heuristic, neighbours),
            sound(
                before,
                closed@,
                openlist@,
                is_goal,
                heuristic,
                neighbours,
                (ceiling, edge_max, estimate_max),
                expanded,
                None,
                floor,
                plain,
            ),
            proceeds(is_goal, heuristic, neighbours, before, queue, trace),
            state_after(heuristic, before, queue, trace) == (closed@, openlist@),
        decreases openlist@.len() + unvisited(closed@).len(),
    {
        let ghost waiting = openlist@;
        proof {
            lemma_sound_frame(
                before,
                closed@,
                waiting,
                is_goal,
                heuristic,
                neighbours,
                (ceiling, edge_max, estimate_max),
                expanded,
                None,
                floor,
                plain,
            );
        }
        let item = match openlist.pop_min() {
            Some(item) => item,
            None => {
                proof {
                    lemma_search_ends(
                        before,
                        queue,
                        is_goal,
                        heuristic,
                        neighbours,
                        trace,
                        Seq::empty(),
                        closed@,
                        openlist@,
                        Err(AStarError::PathNotFound),
                    );
                    assert(trace + Seq::<Round<Node, C>>::empty() =~= trace);
                }
                return Err(AStarError::PathNotFound);
            },
        };
        let current_node = item.node;
        let ghost current_estimate = lemma_pop_keeps_sound(
            before,
            closed@,
            waiting,
            is_goal,
            heuristic,
            neighbours,
            (ceiling, edge_max, estimate_max),
            expanded,
            floor,
            plain,
            item,
        );
        assert(waiting.contains(item));
        assert(openlist@.len() + 1 == waiting.len());

        if is_goal(&current_node) {
            proof {
                let round = Round {
                    item,
                    goal: true,
                    steps: Seq::<(C, Node)>::empty(),
                    estimates: Seq::<C>::empty(),
                };
                assert(round_can_be(is_goal, heuristic, neighbours, closed@, waiting, round));
                lemma_search_ends(
                    before,
                    queue,
                    is_goal,
                    heuristic,
                    neighbours,
                    trace,
                    seq![round],
                    closed@,
                    openlist@,
                    Ok(current_node),
                );
            }
            return Ok(current_node);
        }
        // A node that comes off the open list must have been reached

        let current_cost = match closed.get(current_node) {
            ClosedListState::PathFrom(_, c) => c,
            ClosedListState::StartingPoint(c) => c,
            ClosedListState::Unvisited => {
                proof {
                    let round = Round {
                        item,
                        goal: false,
                        steps: Seq::<(C, Node)>::empty(),
                        estimates: Seq::<C>::empty(),
                    };
                    assert(round_can_be(is_goal, heuristic, neighbours, closed@, waiting, round));
                    lemma_search_ends(
                        before,
                        queue,
                        is_goal,
                        heuristic,
                        neighbours,
                        trace,
                        seq![round],
                        closed@,
                        openlist@,
                        Err(AStarError::OpenItemNotInClosedList),
                    );
                }
                return Err(AStarError::OpenItemNotInClosedList);
            },
        };
        let ghost held = closed@;

        let list = neighbours(&current_node);
        let outcome = expand(
            openlist,
            closed,
            &is_goal,
            &heuristic,
            &neighbours,
            current_node,
            current_cost,
            &list,
            Ghost(before),
            Ghost((ceiling, edge_max, estimate_max)),
            Ghost(expanded),
            Ghost(current_estimate),
            Ghost(plain),
        );
        let ghost round = Round { item, goal: false, steps: list@, estimates: outcome.2@ };
        proof {
            assert(round_can_be(is_goal, heuristic, neighbours, held, waiting, round));
            assert(round_result(heuristic, held, waiting, round) == (
                closed@,
                openlist@,
                if outcome.0 is Err {
                    Some(Err::<Node, AStarError>(AStarError::FoundHigherCostPath))
                } else {
                    None
                },
            ));
        }
        match outcome.0 {
            Err(e) => {
                proof {
                    lemma_search_ends(
                        before,
                        queue,
                        is_goal,
                        heuristic,
                        neighbours,
                        trace,
                        seq![round],
                        closed@,
                        openlist@,
                        Err(e),
                    );
                }
                return Err(e);
            },
            Ok(_) => {},
        }
        proof {
            lemma_finish_keeps_sound(
                before,
                closed@,
                openlist@,
                is_goal,
                heuristic,
                neighbours,
                (outcome.1@, edge_max, estimate_max),
                expanded,
                current_cost.value() + current_estimate.value(),
                plain,
                current_node,
            );
            ceiling = outcome.1@;
            expanded = expanded.insert(current_node);
            floor = current_cost.value() + current_estimate.value();
            assert(trace.push(round).drop_last() =~= trace);
            trace = trace.push(round);
        }
    }
}

/// The rounds of a search so far, and the rounds that end it, make the run
/// that the search was, with the outcome of every run.
proof fn lemma_search_ends<
    Node,
    C: Cost,
    F: Fn(&Node) -> bool,
    H: Fn(&Node) -> C,
    G: Fn(&Node) -> Vec<(C, Node)>,
>(
    before: Visits<Node, C>,
    queue: Multiset<OpenItem<Node, C>>,
    is_goal: F,
    heuristic: H,
    neighbours: G,
    trace: Seq<Round<Node, C>>,
    tail: Seq<Round<Node, C>>,
    after: Visits<Node, C>,
    rest: Multiset<OpenItem<Node, C>>,
    result: Result<Node, AStarError>,
)
    requires
        before.dom().finite(),
        searchable(before.dom(), is_goal, heuristic, neighbours),
        forall|item: OpenItem<Node, C>| #[trigger]
            queue.contains(item) ==> before.dom().contains(item.node),
        within_budget(before, heuristic, neighbours),
        proceeds(is_goal, heuristic, neighbours, before, queue, trace),
        is_run(
            is_goal,
            heuristic,
            neighbours,
            state_after(heuristic, before, queue, trace).0,
            state_after(heuristic, before, queue, trace).1,
            tail,
            after,
            rest,
            result,
        ),
    ensures
        is_run(is_goal, heuristic, neighbours, before, queue, trace + tail, after, rest, result),
        outcome(before, queue, is_goal, heuristic, neighbours, after, rest, result),
{
    lemma_rounds_then_run(
        is_goal,
        heuristic,
        neighbours,
        before,
        queue,
        trace,
        tail,
        after,
        rest,
        result,
    );
    lemma_run_has_outcome(
        before,
        queue,
        is_goal,
        heuristic,
        neighbours,
        trace + tail,
        after,
        rest,
        result,
    );
}

/// The elements of `v` in the opposite order.
fn reversed<T: Copy>(v: &Vec<T>) -> (r: Vec<T>)
    ensures
        r@ == v@.reverse(),
{
    let mut r: Vec<T> = Vec::new();
    let mut k: usize = v.len();
    while k > 0
        invariant
            k <= v.len(),
            r@.len() == v.len() - k,
            forall|j: int| 0 <= j < r@.len() ==> r@[j] == v@[v.len() - 1 - j],
        decreases k,
    {
        k = k - 1;
        r.push(v[k]);
    }
    assert(r@ =~= v@.reverse());
    r
}

} // verus!
