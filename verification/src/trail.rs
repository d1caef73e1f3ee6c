//! What the back-links of a closed list say: the trail to a node is unique
//! and repeats no node, and after a search it is a route the graph offers,
//! at the recorded cost.

use vstd::prelude::*;
use crate::astar::{has_trail, is_trail, ClosedListState, Visits};
use crate::cost::Cost;
use crate::graph::{
    extends, forest, implements, is_edge, is_route, is_step, labelled_by_edge, rooted, walk_cost,
    walk_end, walk_node, Steps,
};

verus! {

/// A node without a predecessor is its own trail, so that unwinding a
/// starting point gives that point alone.
pub proof fn lemma_trail_of_origin<Node, C>(visits: Visits<Node, C>, node: Node)
    requires
        visits.dom().contains(node),
        !(visits[node] is PathFrom),
    ensures
        is_trail(visits, seq![node], node),
        has_trail(visits, node),
{
    assert(is_trail(visits, seq![node], node));
}

/// There is one trail to a node at most, so that `is_trail` says exactly
/// what unwinding returns.
pub proof fn lemma_trail_is_unique<Node, C>(
    visits: Visits<Node, C>,
    a: Seq<Node>,
    b: Seq<Node>,
    node: Node,
)
    requires
        is_trail(visits, a, node),
        is_trail(visits, b, node),
    ensures
        a == b,
    decreases a.len(),
{
    if visits[node] is PathFrom {
        assert(a.len() >= 2) by {
            if a.len() == 1 {
                assert(a[0] == node);
            }
        }
        assert(b.len() >= 2) by {
            if b.len() == 1 {
                assert(b[0] == node);
            }
        }
        let p = a[a.len() - 2];
        assert(visits[a[a.len() - 1]] is PathFrom);
        assert(visits[b[b.len() - 1]] is PathFrom);
        assert(b[b.len() - 2] == p);
        let shorter_a = a.drop_last();
        let shorter_b = b.drop_last();
        assert(is_trail(visits, shorter_a, p)) by {
            assert forall|i: int| 1 <= i < shorter_a.len() implies (
            #[trigger] visits[shorter_a[i]] matches ClosedListState::PathFrom(q, _) && q
                == shorter_a[i - 1]) by {
                assert(visits[a[i]] is PathFrom);
            }
        }
        assert(is_trail(visits, shorter_b, p)) by {
            assert forall|i: int| 1 <= i < shorter_b.len() implies (
            #[trigger] visits[shorter_b[i]] matches ClosedListState::PathFrom(q, _) && q
                == shorter_b[i - 1]) by {
                assert(visits[b[i]] is PathFrom);
            }
        }
        lemma_trail_is_unique(visits, shorter_a, shorter_b, p);
        assert(a =~= shorter_a.push(node));
        assert(b =~= shorter_b.push(node));
    } else {
        assert(a.len() == 1) by {
            if a.len() >= 2 {
                assert(visits[a[a.len() - 1]] is PathFrom);
            }
        }
        assert(b.len() == 1) by {
            if b.len() >= 2 {
                assert(visits[b[b.len() - 1]] is PathFrom);
            }
        }
        assert(a =~= b);
    }
}

/// Two positions of a trail hold different nodes: equal nodes would have
/// equal predecessors, down to the first node, which has none.
proof fn lemma_positions_differ<Node, C>(
    visits: Visits<Node, C>,
    t: Seq<Node>,
    node: Node,
    i: int,
    j: int,
)
    requires
        is_trail(visits, t, node),
        0 <= i < j < t.len(),
    ensures
        t[i] != t[j],
    decreases i,
{
    assert(visits[t[j]] is PathFrom);
    if i > 0 {
        assert(visits[t[i]] is PathFrom);
        lemma_positions_differ(visits, t, node, i - 1, j - 1);
    }
}

/// A trail passes through no node twice.
pub proof fn lemma_trail_has_no_repeats<Node, C>(visits: Visits<Node, C>, t: Seq<Node>, node: Node)
    requires
        is_trail(visits, t, node),
    ensures
        t.no_duplicates(),
{
    assert forall|i: int, j: int| 0 <= i < t.len() && 0 <= j < t.len() && i != j implies t[i]
        != t[j] by {
        if i < j {
            lemma_positions_differ(visits, t, node, i, j);
        } else {
            lemma_positions_differ(visits, t, node, j, i);
        }
    }
}

/// In a forest, the trail to a reached node begins at a starting point.
pub proof fn lemma_trail_begins_at_start<Node, C>(visits: Visits<Node, C>, t: Seq<Node>, node: Node)
    requires
        forest(visits),
        is_trail(visits, t, node),
        !(visits[node] is Unvisited),
    ensures
        visits[t[0]] is StartingPoint,
{
    assert(visits.dom().contains(t[t.len() - 1]));
    assert(rooted(visits, node));
    let r = choose|r: Seq<Node>| #[trigger] is_trail(visits, r, node) && visits[r[0]] is StartingPoint;
    lemma_trail_is_unique(visits, t, r, node);
}

/// A trail without its last node is the trail to that node's predecessor.
pub proof fn lemma_trail_shortens<Node, C>(visits: Visits<Node, C>, t: Seq<Node>, node: Node)
    requires
        is_trail(visits, t, node),
        t.len() >= 2,
    ensures
        is_trail(visits, t.drop_last(), t[t.len() - 2]),
        visits[node] matches ClosedListState::PathFrom(p, _) && p == t[t.len() - 2],
{
    let shorter = t.drop_last();
    assert(visits[t[t.len() - 1]] is PathFrom);
    assert forall|i: int| 1 <= i < shorter.len() implies (
    #[trigger] visits[shorter[i]] matches ClosedListState::PathFrom(q, _) && q == shorter[i
        - 1]) by {
        assert(visits[t[i]] is PathFrom);
    }
}

/// A route with one more edge, into an unvisited node, is a route.
pub proof fn lemma_route_grows<Node, C: Cost>(
    before: Visits<Node, C>,
    edges: Steps<Node, C>,
    start: Node,
    steps: Seq<(C, Node)>,
    step: (C, Node),
)
    requires
        is_route(before, edges, start, steps),
        edges(walk_end(start, steps)).contains(step),
        before.dom().contains(step.1),
        before[step.1] is Unvisited,
    ensures
        is_route(before, edges, start, steps.push(step)),
        walk_end(start, steps.push(step)) == step.1,
        walk_cost(steps.push(step)) == walk_cost(steps) + step.0.value(),
{
    let longer = steps.push(step);
    assert(longer.drop_last() =~= steps);
    assert forall|i: int| 0 <= i < longer.len() implies #[trigger] is_step(
        edges,
        start,
        longer,
        i,
    ) by {
        if i < steps.len() {
            assert(is_step(edges, start, steps, i));
            assert(longer[i] == steps[i]);
            assert(walk_node(start, longer, i) == walk_node(start, steps, i));
        } else {
            assert(walk_node(start, longer, i) == walk_end(start, steps));
        }
    }
    assert forall|i: int| 0 <= i < longer.len() implies before.dom().contains(
        (#[trigger] longer[i]).1,
    ) && before[longer[i].1] is Unvisited by {
        if i < steps.len() {
            assert(longer[i] == steps[i]);
        }
    }
}

/// After a search from a closed list without back-links, a trail that
/// begins at a starting point is a route of the graph: the result holds its
/// steps, and the cost recorded at its end is the starting cost plus theirs.
pub proof fn lemma_trail_is_route<Node, C: Cost, G: Fn(&Node) -> Vec<(C, Node)>>(
    before: Visits<Node, C>,
    visits: Visits<Node, C>,
    neighbours: G,
    edges: Steps<Node, C>,
    t: Seq<Node>,
    node: Node,
) -> (steps: Seq<(C, Node)>)
    requires
        extends(before, visits, neighbours),
        implements(neighbours, edges),
        forall|n: Node| before.dom().contains(n) ==> !(#[trigger] before[n] is PathFrom),
        is_trail(visits, t, node),
        visits[t[0]] is StartingPoint,
    ensures
        is_route(before, edges, t[0], steps),
        walk_end(t[0], steps) == node,
        steps.len() + 1 == t.len(),
        forall|i: int| 0 <= i < steps.len() ==> (#[trigger] steps[i]).1 == t[i + 1],
        visits[node].cost() == before[t[0]].cost() + walk_cost(steps),
    decreases t.len(),
{
    assert(visits.dom().contains(t[t.len() - 1]));
    assert(visits.dom().contains(t[0]));
    if t.len() == 1 {
        assert(before[node] == visits[node]) by {
            if before[node] is Unvisited {
                assert(labelled_by_edge(visits, neighbours, node));
            }
        }
        let steps = Seq::<(C, Node)>::empty();
        assert(is_route(before, edges, node, steps));
        steps
    } else {
        let p = t[t.len() - 2];
        lemma_trail_shortens(visits, t, node);
        let earlier = lemma_trail_is_route(before, visits, neighbours, edges, t.drop_last(), p);
        assert(before[node] is Unvisited) by {
            if !(before[node] is Unvisited) {
                assert(visits[node] == before[node]);
            }
        }
        assert(labelled_by_edge(visits, neighbours, node));
        let c = visits[node]->PathFrom_1;
        let w = choose|w: C| #[trigger]
            is_edge(neighbours, p, w, node) && c.value() == w.value() + visits[p].cost();
        let out = choose|out: Vec<(C, Node)>| #[trigger]
            call_ensures(neighbours, (&p,), out) && out@.contains((w, node));
        assert(out@ == edges(p));
        lemma_route_grows(before, edges, t[0], earlier, (w, node));
        earlier.push((w, node))
    }
}

} // verus!
