//! The search as it is run on the jump graph: every jump costs one, and the
//! estimate is zero everywhere, so that the route found is one of fewest
//! jumps.

use vstd::prelude::*;
use crate::astar::{astar, AStarError, ClosedList, ClosedListState, OpenItem, OpenList};
use crate::cost::Cost;
use crate::evemap::{EveMap, SolarSystemIndex};
use crate::graph::{
    admissible, budget, conclusive, consistent, decides, implements, is_edge, is_step,
    is_walk, order_preserving, queued, ranked, searchable, seeded, seeded_outcome, starts_at, unvisited,
    walk_cost, walk_end, walk_node, Steps,
};
use crate::optimality::{
    lemma_cheapest_of_all_walks, lemma_found_goal_has_trail, lemma_found_path_is_cheapest,
    lemma_no_walk_to_goal,
};
use crate::simpleclosed::SimpleClosed;
use crate::simpleopen::SimpleOpenList;

verus! {

/// The jump graph of a map: out of every system one step per neighbour,
/// each at cost one.
pub open spec fn jump_graph(map: &EveMap) -> Steps<SolarSystemIndex, u32> {
    |n: SolarSystemIndex|
        map.items()[n.offset() as int].jumps().map_values(|m: SolarSystemIndex| (1u32, m))
}

/// Whether `path` can be travelled jump by jump: its systems are systems of
/// the map, and each is a neighbour of the one before it.
pub open spec fn is_jump_path(map: &EveMap, path: Seq<SolarSystemIndex>) -> bool {
    &&& path.len() >= 1
    &&& forall|i: int| 0 <= i < path.len() ==> (#[trigger] path[i]).offset() < map.items().len()
    &&& forall|i: int|
        0 <= i < path.len() - 1 ==> map.items()[path[i].offset() as int].jumps().contains(
            #[trigger] path[i + 1],
        )
}

/// Whether `path` leads from `start` to `goal` jump by jump.
pub open spec fn connects(
    map: &EveMap,
    path: Seq<SolarSystemIndex>,
    start: SolarSystemIndex,
    goal: SolarSystemIndex,
) -> bool {
    is_jump_path(map, path) && path[0] == start && path.last() == goal
}

/// The steps of cost one along a path.
pub open spec fn unit_walk(path: Seq<SolarSystemIndex>) -> Seq<(u32, SolarSystemIndex)> {
    Seq::new((path.len() - 1) as nat, |i: int| (1u32, path[i + 1]))
}

/// Steps of cost one cost as much as there are steps.
proof fn lemma_unit_cost(steps: Seq<(u32, SolarSystemIndex)>)
    requires
        forall|i: int| 0 <= i < steps.len() ==> (#[trigger] steps[i]).0 == 1,
    ensures
        walk_cost(steps) == steps.len(),
    decreases steps.len(),
{
    if steps.len() > 0 {
        assert(steps.drop_last().len() == steps.len() - 1);
        assert forall|i: int| 0 <= i < steps.drop_last().len() implies (
        #[trigger] steps.drop_last()[i]).0 == 1 by {
            assert(steps.drop_last()[i] == steps[i]);
        }
        lemma_unit_cost(steps.drop_last());
        assert(steps.last() == steps[steps.len() - 1]);
    }
}

/// A path that can be travelled jump by jump is a walk of the jump graph,
/// of as many steps of cost one as the path has jumps.
proof fn lemma_path_is_walk(map: &EveMap, path: Seq<SolarSystemIndex>)
    requires
        is_jump_path(map, path),
    ensures
        is_walk(jump_graph(map), path[0], unit_walk(path)),
        walk_end(path[0], unit_walk(path)) == path.last(),
        walk_cost(unit_walk(path)) == path.len() - 1,
        forall|i: int|
            0 <= i < unit_walk(path).len() ==> (#[trigger] unit_walk(path)[i]).1.offset()
                < map.items().len(),
{
    let steps = unit_walk(path);
    let edges = jump_graph(map);
    assert forall|i: int| 0 <= i < steps.len() implies #[trigger] is_step(
        edges,
        path[0],
        steps,
        i,
    ) by {
        assert(walk_node(path[0], steps, i) == path[i]);
        let jumps = map.items()[path[i].offset() as int].jumps();
        assert(jumps.contains(path[i + 1]));
        let k = choose|k: int| 0 <= k < jumps.len() && jumps[k] == path[i + 1];
        assert(edges(path[i])[k] == (1u32, path[i + 1]));
    }
    assert forall|i: int| 0 <= i < steps.len() implies (#[trigger] steps[i]).1.offset()
        < map.items().len() by {
        assert(steps[i].1 == path[i + 1]);
    }
    lemma_unit_cost(steps);
}

/// What the back-links of a search of the jump graph give: a path that can
/// be travelled jump by jump.
proof fn lemma_route_is_jump_path(
    map: &EveMap,
    path: Seq<SolarSystemIndex>,
    steps: Seq<(u32, SolarSystemIndex)>,
)
    requires
        is_walk(jump_graph(map), path[0], steps),
        steps.len() + 1 == path.len(),
        forall|i: int| 0 <= i < steps.len() ==> (#[trigger] steps[i]).1 == path[i + 1],
        forall|i: int| 0 <= i < path.len() ==> (#[trigger] path[i]).offset() < map.items().len(),
    ensures
        is_jump_path(map, path),
        walk_cost(steps) == steps.len(),
{
    let edges = jump_graph(map);
    assert forall|i: int| 0 <= i < steps.len() implies (#[trigger] steps[i]).0 == 1
        && map.items()[path[i].offset() as int].jumps().contains(path[i + 1]) by {
        assert(is_step(edges, path[0], steps, i));
        assert(walk_node(path[0], steps, i) == path[i]);
        let jumps = map.items()[path[i].offset() as int].jumps();
        let out = edges(path[i]);
        let k = choose|k: int| 0 <= k < out.len() && out[k] == steps[i];
        assert(jumps[k] == path[i + 1]);
    }
    lemma_unit_cost(steps);
    assert forall|i: int| 0 <= i < path.len() - 1 implies map.items()[path[i].offset() as int].jumps().contains(
        #[trigger] path[i + 1],
    ) by {
        assert(steps[i].1 == path[i + 1]);
    }
}

/// The steps out of a system: one per neighbour, each at cost one.
pub fn unit_steps(map: &EveMap, from: &SolarSystemIndex) -> (steps: Vec<(u32, SolarSystemIndex)>)
    requires
        map.wf(),
        from.offset() < map.items().len(),
    ensures
        steps@ == jump_graph(map)(*from),
        forall|j: int|
            0 <= j < steps@.len() ==> (#[trigger] steps@[j]).1.offset() < map.items().len(),
{
    let list = map.get_neighbours(from);
    let mut steps: Vec<(u32, SolarSystemIndex)> = Vec::new();
    let mut j: usize = 0;
    let ghost wanted = list@.map_values(|n: SolarSystemIndex| (1u32, n));
    while j < list.len()
        invariant
            j <= list@.len(),
            wanted == list@.map_values(|n: SolarSystemIndex| (1u32, n)),
            steps@ == wanted.take(j as int),
        decreases list@.len() - j,
    {
        steps.push((1u32, list[j]));
        assert(steps@ =~= wanted.take(j + 1));
        j = j + 1;
    }
    assert(steps@ =~= wanted);
    steps
}

/// Finds a route of fewest jumps from one system to another.
///
/// The result is a path from `start` to `goal` that passes through no
/// system twice and has no more jumps than any other; or `PathNotFound`,
/// where no path connects the two.
pub fn jump_route(map: &EveMap, start: SolarSystemIndex, goal: SolarSystemIndex) -> (found: Result<
    Vec<SolarSystemIndex>,
    AStarError,
>)
    requires
        map.wf(),
        start.offset() < map.items().len(),
        goal.offset() < map.items().len(),
    ensures
        match found {
            Ok(path) => {
                &&& connects(map, path@, start, goal)
                &&& path@.no_duplicates()
                &&& forall|other: Seq<SolarSystemIndex>| #[trigger]
                    connects(map, other, start, goal) ==> path@.len() <= other.len()
            },
            Err(e) => {
                &&& e == AStarError::PathNotFound
                &&& forall|other: Seq<SolarSystemIndex>| !#[trigger] connects(
                    map,
                    other,
                    start,
                    goal,
                )
            },
        },
{
    let mut open: SimpleOpenList<SolarSystemIndex, u32> = SimpleOpenList::new();
    let mut closed: SimpleClosed<u32> = SimpleClosed::new(map.len());
    let is_goal = |n: &SolarSystemIndex| -> (b: bool)
        ensures
            b == (*n == goal),
        { *n == goal };
    let heuristic = |n: &SolarSystemIndex| -> (c: u32)
        ensures
            c == 0,
        { <u32 as Cost>::zero() };
    let neighbours = |n: &SolarSystemIndex| -> (out: Vec<(u32, SolarSystemIndex)>)
        requires
            n.offset() < map.items().len(),
        ensures
            out@ == jump_graph(map)(*n),
            forall|j: int|
                0 <= j < out@.len() ==> (#[trigger] out@[j]).1.offset() < map.items().len(),
        { unit_steps(map, n) };
    // Start things off
    closed.set(start, ClosedListState::StartingPoint(<u32 as Cost>::zero()));
    let estimate = heuristic(&start);
    let first = OpenItem { heuristic: estimate, node: start };
    open.push_open(first);

    let ghost before = closed@;
    let ghost queue = open@;
    let ghost edges = jump_graph(map);
    let ghost goals = |n: SolarSystemIndex| n == goal;
    proof {
        let size = map.items().len();
        assert(before.dom() =~= Set::new(|n: SolarSystemIndex| n.offset() < size));
        assert(searchable(before.dom(), is_goal, heuristic, neighbours));
        closed.domain_is_finite();
        vstd::set_lib::lemma_len_subset(unvisited(before), before.dom());
        assert(budget(before, heuristic, neighbours, 0, 1, 0)) by {
            SolarSystemIndex::count_below(size);
        }
        assert(queue.contains(first));
        assert(call_ensures(heuristic, (&first.node,), estimate));
        assert(before[start] == ClosedListState::<SolarSystemIndex, u32>::StartingPoint(0));
        assert(ranked(before, heuristic, first));
        assert(queued(queue, start));
        assert(seeded(before, queue, heuristic));
        assert(starts_at(before, start));
        assert(implements(neighbours, edges));
        assert(decides(is_goal, goals));
        assert(admissible(heuristic, edges, goals));
        assert(consistent(heuristic, neighbours));
        assert(order_preserving(heuristic, neighbours)) by {
            assert forall|
                u: SolarSystemIndex,
                w: u32,
                u2: SolarSystemIndex,
                w2: u32,
                v: SolarSystemIndex,
                eu: u32,
                eu2: u32,
            |
                is_edge(neighbours, u, w, v) && is_edge(neighbours, u2, w2, v) && call_ensures(
                    heuristic,
                    (&u,),
                    eu,
                ) && call_ensures(heuristic, (&u2,), eu2) implies w.value() + eu2.value()
                == w2.value() + eu.value() by {
                let a = choose|a: Vec<(u32, SolarSystemIndex)>| #[trigger]
                    call_ensures(neighbours, (&u,), a) && a@.contains((w, v));
                let b = choose|b: Vec<(u32, SolarSystemIndex)>| #[trigger]
                    call_ensures(neighbours, (&u2,), b) && b@.contains((w2, v));
                assert(w == 1 && w2 == 1);
            }
        }
    }
    let result = astar(&mut open, &mut closed, is_goal, heuristic, neighbours);
    proof {
        assert(seeded_outcome(before, is_goal, heuristic, neighbours, closed@, open@, result));
        assert(implements(neighbours, edges) && decides(is_goal, goals));
        assert(conclusive(before, heuristic, edges, goals, closed@, result));
    }
    match result {
        Ok(node) => {
            proof {
                lemma_found_goal_has_trail(
                    before,
                    queue,
                    is_goal,
                    heuristic,
                    neighbours,
                    closed@,
                    open@,
                    node,
                );
            }
            let path = closed.unwind(node);
            proof {
                let steps = lemma_found_path_is_cheapest(
                    before,
                    queue,
                    is_goal,
                    heuristic,
                    neighbours,
                    edges,
                    goals,
                    closed@,
                    open@,
                    node,
                    path@,
                );
                lemma_route_is_jump_path(map, path@, steps);
                assert forall|other: Seq<SolarSystemIndex>| #[trigger]
                    connects(map, other, start, goal) implies path@.len() <= other.len() by {
                    lemma_path_is_walk(map, other);
                    lemma_cheapest_of_all_walks(
                        before,
                        edges,
                        goals,
                        closed@[node].cost(),
                        start,
                        unit_walk(other),
                    );
                }
            }
            Ok(path)
        },
        Err(e) => {
            proof {
                assert forall|other: Seq<SolarSystemIndex>| !#[trigger] connects(
                    map,
                    other,
                    start,
                    goal,
                ) by {
                    if connects(map, other, start, goal) {
                        lemma_path_is_walk(map, other);
                        lemma_no_walk_to_goal(before, edges, goals, start, unit_walk(other));
                    }
                }
            }
            Err(e)
        },
    }
}

} // verus!
