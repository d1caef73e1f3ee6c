use eve_astar::astar::{astar, AStarError, ClosedList, ClosedListState, OpenItem, OpenList};
use eve_astar::cost::Cost;
use eve_astar::evemap::{parse, EveMap, SolarSystemIndex, StellarRecord, UnionSystemData};
use eve_astar::simpleclosed::SimpleClosed;
use eve_astar::simpleopen::SimpleOpenList;

/// The id of system number `n` of a test map.
fn system_id(n: u64) -> u64 {
    30_000_000 + n
}

/// The id of the stargate in system `from` that leads to system `to`.
fn gate_id(from: u64, to: u64) -> u64 {
    50_000_000 + from * 1_000 + to
}

fn no_fields() -> UnionSystemData {
    UnionSystemData { solar_system_id: None, constellation_id: None, region_id: None, stargates: None }
}

/// A map of `count` systems, numbered from 0, with a stargate pair for every
/// edge. A system's stargates come in the order of the edges.
fn build_map(count: u64, edges: &[(u64, u64)]) -> EveMap {
    let mut records: Vec<StellarRecord> = Vec::new();
    let mut region = no_fields();
    region.region_id = Some(10_000_001);
    records.push(parse("sde/fsd/universe/eve/Forge/region.staticdata", region).unwrap());
    let mut constellation = no_fields();
    constellation.constellation_id = Some(20_000_001);
    records.push(
        parse("sde/fsd/universe/eve/Forge/Kimotoro/constellation.staticdata", constellation)
            .unwrap(),
    );
    for n in 0..count {
        let mut gates: Vec<(u64, u64)> = Vec::new();
        for (a, b) in edges {
            if *a == n {
                gates.push((gate_id(*a, *b), gate_id(*b, *a)));
            }
            if *b == n {
                gates.push((gate_id(*b, *a), gate_id(*a, *b)));
            }
        }
        let mut system = no_fields();
        system.solar_system_id = Some(system_id(n));
        system.stargates = Some(gates);
        let path = format!("sde/fsd/universe/eve/Forge/Kimotoro/System{}/solarsystem.staticdata", n);
        records.push(parse(&path, system).unwrap());
    }
    EveMap::new(records).unwrap()
}

fn index_of(map: &EveMap, n: u64) -> SolarSystemIndex {
    let id = map.get_solarsystem_id_by_name(&format!("System{}", n)).unwrap();
    assert!(map.has_solarsystem(&id));
    map.get_solarsystem_idx(&id)
}

fn number_of(map: &EveMap, index: SolarSystemIndex) -> u64 {
    map.get_extended_solarsystem_info(&index).solar_system_id.id() - 30_000_000
}

/// The cost of the edge between two systems, from a table of weights.
fn weight(weights: &[(u64, u64, u32)], a: u64, b: u64) -> u32 {
    for (x, y, w) in weights {
        if (*x == a && *y == b) || (*x == b && *y == a) {
            return *w;
        }
    }
    1
}

struct Found {
    result: Result<u64, AStarError>,
    path: Vec<u64>,
    cost: u32,
}

/// Runs a search from system `start` to system `goal` with the given
/// estimates per system, and unwinds the path where a goal was found.
fn search(
    map: &EveMap,
    weights: &[(u64, u64, u32)],
    start: u64,
    goal: u64,
    estimates: &[u32],
) -> Found {
    let mut open: SimpleOpenList<SolarSystemIndex, u32> = SimpleOpenList::new();
    let mut closed: SimpleClosed<u32> = SimpleClosed::new(map.len());
    let start_index = index_of(map, start);
    let goal_index = index_of(map, goal);
    let estimate = |n: &SolarSystemIndex| estimates[number_of(map, *n) as usize];
    closed.set(start_index, ClosedListState::StartingPoint(0));
    open.push_open(OpenItem { heuristic: estimate(&start_index), node: start_index });
    let result = astar(
        &mut open,
        &mut closed,
        |n: &SolarSystemIndex| *n == goal_index,
        estimate,
        |n: &SolarSystemIndex| {
            map.get_neighbours(n)
                .into_iter()
                .map(|p| (weight(weights, number_of(map, *n), number_of(map, p)), p))
                .collect()
        },
    );
    match result {
        Ok(node) => {
            let path: Vec<u64> = closed.unwind(node).iter().map(|n| number_of(map, *n)).collect();
            let cost = match closed.get(node) {
                ClosedListState::PathFrom(_, c) => c,
                ClosedListState::StartingPoint(c) => c,
                ClosedListState::Unvisited => panic!("a found goal has a record"),
            };
            Found { result: Ok(number_of(map, node)), path, cost }
        },
        Err(e) => Found { result: Err(e), path: Vec::new(), cost: 0 },
    }
}

#[test]
fn finds_the_path_over_two_unit_edges() {
    // 0 - 1 - 2, and the long way round 0 - 3 - 4 - 2
    let map = build_map(5, &[(0, 1), (1, 2), (0, 3), (3, 4), (4, 2)]);
    let found = search(&map, &[], 0, 2, &[0, 0, 0, 0, 0]);
    assert_eq!(found.result, Ok(2));
    assert_eq!(found.path, vec![0, 1, 2]);
    assert_eq!(found.cost, 2);
}

#[test]
fn expensive_direct_edge_ends_in_higher_cost_path() {
    // 0 - 1 (1), 1 - 2 (1), 0 - 2 (5): system 2 is labelled at cost 5 from
    // system 0 before the way through system 1 offers cost 2
    let map = build_map(3, &[(0, 1), (1, 2), (0, 2)]);
    let found = search(&map, &[(0, 1, 1), (1, 2, 1), (0, 2, 5)], 0, 2, &[0, 0, 0]);
    assert_eq!(found.result, Err(AStarError::FoundHigherCostPath));
}

#[test]
fn cheap_direct_edge_is_taken() {
    let map = build_map(3, &[(0, 1), (1, 2), (0, 2)]);
    let found = search(&map, &[(0, 1, 2), (1, 2, 2), (0, 2, 3)], 0, 2, &[0, 0, 0]);
    assert_eq!(found.result, Ok(2));
    assert_eq!(found.path, vec![0, 2]);
    assert_eq!(found.cost, 3);
}

#[test]
fn start_that_is_goal_returns_at_once() {
    let map = build_map(3, &[(0, 1), (1, 2)]);
    let found = search(&map, &[], 1, 1, &[0, 0, 0]);
    assert_eq!(found.result, Ok(1));
    assert_eq!(found.path, vec![1]);
    assert_eq!(found.cost, 0);
}

#[test]
fn goal_without_connection_is_not_found() {
    // 0 - 1 and, apart from them, 2 - 3
    let map = build_map(4, &[(0, 1), (2, 3)]);
    let found = search(&map, &[], 0, 3, &[0, 0, 0, 0]);
    assert_eq!(found.result, Err(AStarError::PathNotFound));
}

#[test]
fn empty_open_list_is_not_found() {
    let map = build_map(2, &[(0, 1)]);
    let goal = index_of(&map, 1);
    let mut open: SimpleOpenList<SolarSystemIndex, u32> = SimpleOpenList::new();
    let mut closed: SimpleClosed<u32> = SimpleClosed::new(map.len());
    let result = astar(
        &mut open,
        &mut closed,
        |n: &SolarSystemIndex| *n == goal,
        |_: &SolarSystemIndex| 0u32,
        |n: &SolarSystemIndex| map.get_neighbours(n).into_iter().map(|p| (1u32, p)).collect(),
    );
    assert_eq!(result, Err(AStarError::PathNotFound));
}

#[test]
fn queued_node_without_record_ends_the_search() {
    let map = build_map(2, &[(0, 1)]);
    let start = index_of(&map, 0);
    let goal = index_of(&map, 1);
    let mut open: SimpleOpenList<SolarSystemIndex, u32> = SimpleOpenList::new();
    let mut closed: SimpleClosed<u32> = SimpleClosed::new(map.len());
    // the starting point is queued but never recorded
    open.push_open(OpenItem { heuristic: 0, node: start });
    let result = astar(
        &mut open,
        &mut closed,
        |n: &SolarSystemIndex| *n == goal,
        |_: &SolarSystemIndex| 0u32,
        |n: &SolarSystemIndex| map.get_neighbours(n).into_iter().map(|p| (1u32, p)).collect(),
    );
    assert_eq!(result, Err(AStarError::OpenItemNotInClosedList));
}

#[test]
fn zero_heuristic_and_exact_heuristic_give_the_same_cost() {
    // a line 0 - 1 - 2 - 3 with edges of cost 2, 3 and 4
    let map = build_map(4, &[(0, 1), (1, 2), (2, 3)]);
    let weights = [(0, 1, 2), (1, 2, 3), (2, 3, 4)];
    let plain = search(&map, &weights, 0, 3, &[0, 0, 0, 0]);
    let guided = search(&map, &weights, 0, 3, &[9, 7, 4, 0]);
    assert_eq!(plain.result, Ok(3));
    assert_eq!(guided.result, Ok(3));
    assert_eq!(plain.cost, 9);
    assert_eq!(guided.cost, 9);
    assert_eq!(plain.path, vec![0, 1, 2, 3]);
    assert_eq!(guided.path, vec![0, 1, 2, 3]);
}

#[test]
fn constant_heuristic_on_unit_edges_never_finds_a_cheaper_way() {
    // a grid with many ways of equal length
    let edges = [
        (0, 1), (1, 2), (3, 4), (4, 5), (6, 7), (7, 8), (0, 3), (3, 6), (1, 4), (4, 7), (2, 5),
        (5, 8),
    ];
    let map = build_map(9, &edges);
    for goal in 0..9 {
        let found = search(&map, &[], 0, goal, &[1, 1, 1, 1, 1, 1, 1, 1, 1]);
        assert_eq!(found.result, Ok(goal));
        assert_eq!(found.cost as u64, goal / 3 + goal % 3);
        assert_eq!(found.path.len() as u64, goal / 3 + goal % 3 + 1);
    }
}

#[test]
fn self_loop_is_tolerated() {
    let map = build_map(2, &[(0, 0), (0, 1)]);
    let found = search(&map, &[], 0, 1, &[0, 0]);
    assert_eq!(found.result, Ok(1));
    assert_eq!(found.path, vec![0, 1]);
    assert_eq!(found.cost, 1);
}

#[test]
fn unwound_path_runs_from_start_to_node_without_repeats() {
    let edges = [(0, 1), (1, 2), (2, 3), (3, 4), (4, 5), (0, 5), (1, 4)];
    let map = build_map(6, &edges);
    let found = search(&map, &[], 0, 3, &[0, 0, 0, 0, 0, 0]);
    assert_eq!(found.result, Ok(3));
    assert_eq!(found.cost, 3);
    assert_eq!(found.path.first(), Some(&0));
    assert_eq!(found.path.last(), Some(&3));
    for i in 0..found.path.len() {
        for j in 0..i {
            assert_ne!(found.path[i], found.path[j]);
        }
    }
}

#[test]
fn unwinding_a_starting_point_gives_that_point() {
    let map = build_map(2, &[(0, 1)]);
    let start = index_of(&map, 0);
    let mut closed: SimpleClosed<u32> = SimpleClosed::new(map.len());
    closed.set(start, ClosedListState::StartingPoint(0));
    assert_eq!(closed.unwind(start), vec![start]);
}

#[test]
fn unwinding_follows_the_recorded_predecessors() {
    let map = build_map(3, &[(0, 1), (1, 2)]);
    let a = index_of(&map, 0);
    let b = index_of(&map, 1);
    let c = index_of(&map, 2);
    let mut closed: SimpleClosed<u32> = SimpleClosed::new(map.len());
    closed.set(a, ClosedListState::StartingPoint(0));
    closed.set(b, ClosedListState::PathFrom(a, 1));
    closed.set(c, ClosedListState::PathFrom(b, 2));
    assert_eq!(closed.unwind(c), vec![a, b, c]);
    assert_eq!(closed.unwind(b), vec![a, b]);
}

#[test]
fn closed_list_returns_what_was_set() {
    let map = build_map(3, &[(0, 1), (1, 2)]);
    let a = index_of(&map, 0);
    let b = index_of(&map, 1);
    let mut closed: SimpleClosed<u64> = SimpleClosed::new(map.len());
    assert!(matches!(closed.get(a), ClosedListState::Unvisited));
    closed.set(a, ClosedListState::StartingPoint(7));
    closed.set(b, ClosedListState::PathFrom(a, 12));
    assert!(matches!(closed.get(a), ClosedListState::StartingPoint(7)));
    match closed.get(b) {
        ClosedListState::PathFrom(from, cost) => {
            assert_eq!(from, a);
            assert_eq!(cost, 12);
        },
        _ => panic!("the node was set to a predecessor"),
    }
    assert!(matches!(closed.get(index_of(&map, 2)), ClosedListState::Unvisited));
}

#[test]
fn pop_min_returns_the_least_item_each_time() {
    let map = build_map(6, &[]);
    let mut open: SimpleOpenList<SolarSystemIndex, u32> = SimpleOpenList::new();
    assert!(open.is_empty());
    assert!(open.pop_min().is_none());
    let priorities = [5u32, 3, 9, 1, 4, 3];
    for (n, p) in priorities.iter().enumerate() {
        open.push_open(OpenItem { heuristic: *p, node: index_of(&map, n as u64) });
    }
    assert!(!open.is_empty());
    let mut popped: Vec<u32> = Vec::new();
    while let Some(item) = open.pop_min() {
        assert_eq!(priorities[number_of(&map, item.node) as usize], item.heuristic);
        popped.push(item.heuristic);
    }
    assert_eq!(popped, vec![1, 3, 3, 4, 5, 9]);
    assert!(open.is_empty());
}

#[test]
fn pop_min_keeps_several_items_of_one_node() {
    let map = build_map(1, &[]);
    let node = index_of(&map, 0);
    let mut open: SimpleOpenList<SolarSystemIndex, u64> = SimpleOpenList::new();
    open.push_open(OpenItem { heuristic: 8, node });
    open.push_open(OpenItem { heuristic: 2, node });
    open.push_open(OpenItem { heuristic: 5, node });
    assert_eq!(open.pop_min().map(|i| i.heuristic), Some(2));
    open.push_open(OpenItem { heuristic: 1, node });
    assert_eq!(open.pop_min().map(|i| i.heuristic), Some(1));
    assert_eq!(open.pop_min().map(|i| i.heuristic), Some(5));
    assert_eq!(open.pop_min().map(|i| i.heuristic), Some(8));
    assert_eq!(open.pop_min().map(|i| i.heuristic), None);
}

#[test]
fn costs_add_and_compare_as_numbers() {
    assert_eq!(<u32 as Cost>::zero(), 0);
    assert_eq!(<u64 as Cost>::zero(), 0);
    assert_eq!(Cost::plus(3u32, 4u32), 7);
    assert_eq!(Cost::plus(u64::MAX - 1, 1u64), u64::MAX);
    assert!(Cost::at_most(3u32, 3u32));
    assert!(Cost::at_most(3u64, 4u64));
    assert!(!Cost::at_most(5u32, 4u32));
    assert_eq!(Cost::plus(<u32 as Cost>::zero(), 9u32), 9);
}

/// A search over a table of directed steps between the systems of a map
/// without stargates. `records` holds what the closed list starts with, and
/// `queued` what the open list starts with, both by system number.
struct Table {
    map: EveMap,
    open: SimpleOpenList<SolarSystemIndex, u32>,
    closed: SimpleClosed<u32>,
}

impl Table {
    fn new(
        count: u64,
        records: &[(u64, ClosedListState<u64, u32>)],
        queued: &[(u32, u64)],
    ) -> Table {
        let map = build_map(count, &[]);
        let mut open: SimpleOpenList<SolarSystemIndex, u32> = SimpleOpenList::new();
        let mut closed: SimpleClosed<u32> = SimpleClosed::new(map.len());
        for (n, state) in records {
            let state = match state {
                ClosedListState::Unvisited => ClosedListState::Unvisited,
                ClosedListState::StartingPoint(c) => ClosedListState::StartingPoint(*c),
                ClosedListState::PathFrom(p, c) => {
                    ClosedListState::PathFrom(index_of(&map, *p), *c)
                },
            };
            closed.set(index_of(&map, *n), state);
        }
        for (estimate, n) in queued {
            open.push_open(OpenItem { heuristic: *estimate, node: index_of(&map, *n) });
        }
        Table { map, open, closed }
    }

    fn run(&mut self, steps: &[(u64, u32, u64)], goals: &[u64]) -> Result<u64, AStarError> {
        let map = &self.map;
        let result = astar(
            &mut self.open,
            &mut self.closed,
            |n: &SolarSystemIndex| goals.contains(&number_of(map, *n)),
            |_: &SolarSystemIndex| 0u32,
            |n: &SolarSystemIndex| {
                steps
                    .iter()
                    .filter(|(from, _, _)| *from == number_of(map, *n))
                    .map(|(_, cost, to)| (*cost, index_of(map, *to)))
                    .collect()
            },
        );
        result.map(|node| number_of(map, node))
    }

    /// The state of a system, with the predecessor by its number.
    fn state(&self, n: u64) -> (&'static str, Option<u64>, u32) {
        match self.closed.get(index_of(&self.map, n)) {
            ClosedListState::Unvisited => ("unvisited", None, 0),
            ClosedListState::StartingPoint(c) => ("start", None, c),
            ClosedListState::PathFrom(p, c) => ("from", Some(number_of(&self.map, p)), c),
        }
    }
}

#[test]
fn returned_start_leaves_both_containers_as_they_were_but_for_its_item() {
    let mut table = Table::new(3, &[(0, ClosedListState::StartingPoint(0))], &[(0, 0)]);
    let result = table.run(&[(0, 1, 1), (1, 1, 2)], &[0]);
    assert_eq!(result, Ok(0));
    assert!(table.open.is_empty());
    assert_eq!(table.state(0), ("start", None, 0));
    assert_eq!(table.state(1), ("unvisited", None, 0));
    assert_eq!(table.state(2), ("unvisited", None, 0));
    let start = index_of(&table.map, 0);
    assert_eq!(table.closed.unwind(start), vec![start]);
}

#[test]
fn exhausted_search_has_labelled_what_it_reached() {
    let mut table = Table::new(3, &[(0, ClosedListState::StartingPoint(0))], &[(0, 0)]);
    let result = table.run(&[(0, 1, 1), (1, 1, 0)], &[2]);
    assert_eq!(result, Err(AStarError::PathNotFound));
    assert!(table.open.is_empty());
    assert_eq!(table.state(0), ("start", None, 0));
    assert_eq!(table.state(1), ("from", Some(0), 1));
    assert_eq!(table.state(2), ("unvisited", None, 0));
}

#[test]
fn unseeded_store_gives_open_item_not_in_closed_list() {
    let mut table = Table::new(2, &[], &[(0, 0)]);
    let result = table.run(&[(0, 1, 1)], &[]);
    assert_eq!(result, Err(AStarError::OpenItemNotInClosedList));
    assert!(table.open.is_empty());
    assert_eq!(table.state(0), ("unvisited", None, 0));
    assert_eq!(table.state(1), ("unvisited", None, 0));
}

#[test]
fn node_labelled_above_the_way_through_the_start_gives_higher_cost_path() {
    let records =
        [(0, ClosedListState::StartingPoint(0)), (1, ClosedListState::PathFrom(0, 10))];
    let mut table = Table::new(2, &records, &[(0, 0)]);
    let result = table.run(&[(0, 1, 1)], &[]);
    assert_eq!(result, Err(AStarError::FoundHigherCostPath));
    assert!(table.open.is_empty());
    assert_eq!(table.state(0), ("start", None, 0));
    assert_eq!(table.state(1), ("from", Some(0), 10));
}

#[test]
fn node_labelled_at_the_cost_of_the_way_through_the_start_is_left_alone() {
    let records = [(0, ClosedListState::StartingPoint(0)), (1, ClosedListState::PathFrom(0, 1))];
    let mut table = Table::new(2, &records, &[(0, 0)]);
    let result = table.run(&[(0, 1, 1)], &[]);
    assert_eq!(result, Err(AStarError::PathNotFound));
    assert_eq!(table.state(1), ("from", Some(0), 1));
}

#[test]
fn dearer_second_way_into_a_node_is_passed_over() {
    // 0 -> 1 at 1, 0 -> 2 at 2, 1 -> 2 at 5
    let mut table = Table::new(3, &[(0, ClosedListState::StartingPoint(0))], &[(0, 0)]);
    let result = table.run(&[(0, 1, 1), (0, 2, 2), (1, 5, 2)], &[2]);
    assert_eq!(result, Ok(2));
    assert_eq!(table.state(2), ("from", Some(0), 2));
    assert_eq!(table.state(1), ("from", Some(0), 1));
    let goal = index_of(&table.map, 2);
    let path: Vec<u64> =
        table.closed.unwind(goal).iter().map(|n| number_of(&table.map, *n)).collect();
    assert_eq!(path, vec![0, 2]);
    // the same steps without a goal: every node is expanded and the search gives up
    let mut table = Table::new(3, &[(0, ClosedListState::StartingPoint(0))], &[(0, 0)]);
    assert_eq!(
        table.run(&[(0, 1, 1), (0, 2, 2), (1, 5, 2)], &[]),
        Err(AStarError::PathNotFound)
    );
    assert!(table.open.is_empty());
}

#[test]
fn goal_is_tested_before_the_record_is_looked_up() {
    let mut table = Table::new(2, &[], &[(0, 1)]);
    assert_eq!(table.run(&[], &[1]), Ok(1));
    assert_eq!(table.state(1), ("unvisited", None, 0));
}

#[test]
fn open_items_compare_by_estimate_in_reverse() {
    let map = build_map(2, &[]);
    let a = index_of(&map, 0);
    let b = index_of(&map, 1);
    let low = OpenItem { heuristic: 3u32, node: a };
    let high = OpenItem { heuristic: 8u32, node: a };
    let other = OpenItem { heuristic: 3u32, node: b };
    // the node plays no part
    assert!(low == other);
    assert!(low != high);
    assert_eq!(low.partial_cmp(&other), Some(std::cmp::Ordering::Equal));
    // the lower estimate is the greater item
    assert_eq!(low.partial_cmp(&high), Some(std::cmp::Ordering::Greater));
    assert_eq!(high.partial_cmp(&low), Some(std::cmp::Ordering::Less));
    assert!(low > high);
    assert!(high < low);
    assert!(low >= other && low <= other);
}
