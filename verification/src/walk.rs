//! The mathematics of the graph: adjacency tables, walks, and distances.

use crate::graph::Edge;
use vstd::prelude::*;

verus! {

/// An adjacency table: for each node, the edges filed under it.
pub type Adjacency = Map<i32, Seq<Edge>>;

/// The cost that stands for "no path".
pub open spec fn unreachable_cost() -> int {
    i32::MAX as int
}

/// The edges filed under `u`; none when the table has no entry for `u`.
pub open spec fn out_edges(adj: Adjacency, u: i32) -> Seq<Edge> {
    if adj.contains_key(u) {
        adj[u]
    } else {
        Seq::empty()
    }
}

/// `e` is filed under its own source node.
pub open spec fn has_edge(adj: Adjacency, e: Edge) -> bool {
    out_edges(adj, e.node_a_id).contains(e)
}

/// The same connection walked the other way.
pub open spec fn mirror(e: Edge) -> Edge {
    Edge { node_a_id: e.node_b_id, node_b_id: e.node_a_id, weight: e.weight }
}

/// The table after `e` has been appended to the list of its source node.
pub open spec fn with_arc(adj: Adjacency, e: Edge) -> Adjacency {
    adj.insert(e.node_a_id, out_edges(adj, e.node_a_id).push(e))
}

/// The table after `e` and then its mirror image have been appended.
pub open spec fn with_edge(adj: Adjacency, e: Edge) -> Adjacency {
    with_arc(with_arc(adj, e), mirror(e))
}

/// The invariant of an adjacency table: every edge sits in the list of its own
/// source node, has a non-negative weight, and is accompanied by its mirror image.
pub open spec fn well_formed(adj: Adjacency) -> bool {
    forall|u: i32, i: int|
        #![trigger adj[u][i]]
        adj.contains_key(u) && 0 <= i < adj[u].len() ==> {
            &&& adj[u][i].node_a_id == u
            &&& adj[u][i].weight >= 0
            &&& has_edge(adj, mirror(adj[u][i]))
        }
}

/// `p` is a walk from `a` to `b`: a chain of edges of the table, each starting
/// where the one before it ends. The empty chain is a walk from a node to itself.
pub open spec fn is_walk(adj: Adjacency, p: Seq<Edge>, a: i32, b: i32) -> bool
    decreases p.len(),
{
    if p.len() == 0 {
        a == b
    } else {
        &&& has_edge(adj, p.last())
        &&& p.last().node_b_id == b
        &&& is_walk(adj, p.drop_last(), a, p.last().node_a_id)
    }
}

/// The sum of the weights along `p`, without any cap.
pub open spec fn total_weight(p: Seq<Edge>) -> int
    decreases p.len(),
{
    if p.len() == 0 {
        0
    } else {
        total_weight(p.drop_last()) + p.last().weight
    }
}

/// `d` is the capped distance from `a` to `b`: no walk from `a` to `b` weighs
/// less than `d`, and `d` is either the weight of such a walk or the cap.
pub open spec fn is_distance(adj: Adjacency, a: i32, b: i32, d: int) -> bool {
    &&& d <= unreachable_cost()
    &&& forall|p: Seq<Edge>| #[trigger] is_walk(adj, p, a, b) ==> d <= total_weight(p)
    &&& d < unreachable_cost() ==> exists|p: Seq<Edge>|
        #[trigger] is_walk(adj, p, a, b) && total_weight(p) == d
}

/// The capped distance from `a` to `b`: the least weight of a walk from `a` to
/// `b`, or `i32::MAX` when every walk weighs that much or more, or none exists.
pub open spec fn distance(adj: Adjacency, a: i32, b: i32) -> int {
    choose|d: int| is_distance(adj, a, b, d)
}

/// An edge of a well-formed table has the three properties of the invariant.
pub proof fn lemma_edge_properties(adj: Adjacency, e: Edge)
    requires
        well_formed(adj),
        has_edge(adj, e),
    ensures
        e.weight >= 0,
        has_edge(adj, mirror(e)),
{
    let u = e.node_a_id;
    let i = choose|i: int| 0 <= i < out_edges(adj, u).len() && out_edges(adj, u)[i] == e;
    assert(adj[u][i] == e);
}

/// In a well-formed table no walk has a negative weight.
pub proof fn lemma_weight_nonnegative(adj: Adjacency, p: Seq<Edge>, a: i32, b: i32)
    requires
        well_formed(adj),
        is_walk(adj, p, a, b),
    ensures
        total_weight(p) >= 0,
    decreases p.len(),
{
    if p.len() > 0 {
        lemma_edge_properties(adj, p.last());
        lemma_weight_nonnegative(adj, p.drop_last(), a, p.last().node_a_id);
    }
}

/// A single edge of the table is a walk from its source to its target.
pub proof fn lemma_single_edge_walk(adj: Adjacency, e: Edge)
    requires
        has_edge(adj, e),
    ensures
        is_walk(adj, seq![e], e.node_a_id, e.node_b_id),
        total_weight(seq![e]) == e.weight,
{
    let p = seq![e];
    assert(p.last() == e);
    assert(p.drop_last() =~= Seq::<Edge>::empty());
    assert(is_walk(adj, p.drop_last(), e.node_a_id, e.node_a_id));
    assert(total_weight(p.drop_last()) == 0);
}

/// Walks compose: one from `a` to `b` followed by one from `b` to `c` is a
/// walk from `a` to `c`, and the weights add up.
pub proof fn lemma_walk_concat(adj: Adjacency, p: Seq<Edge>, q: Seq<Edge>, a: i32, b: i32, c: i32)
    requires
        is_walk(adj, p, a, b),
        is_walk(adj, q, b, c),
    ensures
        is_walk(adj, p + q, a, c),
        total_weight(p + q) == total_weight(p) + total_weight(q),
    decreases q.len(),
{
    if q.len() == 0 {
        assert(p + q =~= p);
    } else {
        lemma_walk_concat(adj, p, q.drop_last(), a, b, q.last().node_a_id);
        assert((p + q).drop_last() =~= p + q.drop_last());
        assert((p + q).last() == q.last());
    }
}

/// The walk `p` taken backwards: the mirrored edges in reverse order.
pub open spec fn reversed(p: Seq<Edge>) -> Seq<Edge>
    decreases p.len(),
{
    if p.len() == 0 {
        Seq::empty()
    } else {
        seq![mirror(p.last())] + reversed(p.drop_last())
    }
}

/// In a well-formed table every walk can be taken backwards at the same weight.
pub proof fn lemma_walk_reversed(adj: Adjacency, p: Seq<Edge>, a: i32, b: i32)
    requires
        well_formed(adj),
        is_walk(adj, p, a, b),
    ensures
        is_walk(adj, reversed(p), b, a),
        total_weight(reversed(p)) == total_weight(p),
    decreases p.len(),
{
    if p.len() > 0 {
        let e = p.last();
        lemma_edge_properties(adj, e);
        lemma_single_edge_walk(adj, mirror(e));
        lemma_walk_reversed(adj, p.drop_last(), a, e.node_a_id);
        lemma_walk_concat(adj, seq![mirror(e)], reversed(p.drop_last()), b, e.node_a_id, a);
    }
}

/// At most one number is the distance between two nodes.
pub proof fn lemma_distance_unique(adj: Adjacency, a: i32, b: i32, d1: int, d2: int)
    requires
        is_distance(adj, a, b, d1),
        is_distance(adj, a, b, d2),
    ensures
        d1 == d2,
{
    if d1 < d2 {
        let p = choose|p: Seq<Edge>| #[trigger] is_walk(adj, p, a, b) && total_weight(p) == d1;
        assert(d2 <= total_weight(p));
    } else if d2 < d1 {
        let p = choose|p: Seq<Edge>| #[trigger] is_walk(adj, p, a, b) && total_weight(p) == d2;
        assert(d1 <= total_weight(p));
    }
}

/// A number that is the distance between two nodes is the value of [`distance`].
pub proof fn lemma_distance_is(adj: Adjacency, a: i32, b: i32, d: int)
    requires
        is_distance(adj, a, b, d),
    ensures
        distance(adj, a, b) == d,
{
    lemma_distance_unique(adj, a, b, d, distance(adj, a, b));
}

/// Some walk from `a` to `b` weighs `w` or less.
spec fn walk_within(adj: Adjacency, a: i32, b: i32, w: int) -> bool {
    exists|p: Seq<Edge>| #[trigger] is_walk(adj, p, a, b) && total_weight(p) <= w
}

/// Among the walks from `a` to `b` of weight `w` or less, if there are any,
/// one is lightest among all walks from `a` to `b`.
proof fn lemma_lightest_walk(adj: Adjacency, a: i32, b: i32, w: int) -> (best: Seq<Edge>)
    requires
        well_formed(adj),
        walk_within(adj, a, b, w),
    ensures
        is_walk(adj, best, a, b),
        total_weight(best) <= w,
        forall|p: Seq<Edge>| #[trigger] is_walk(adj, p, a, b) ==> total_weight(best) <= total_weight(p),
    decreases w,
{
    let p0 = choose|p: Seq<Edge>| #[trigger] is_walk(adj, p, a, b) && total_weight(p) <= w;
    lemma_weight_nonnegative(adj, p0, a, b);
    if walk_within(adj, a, b, w - 1) {
        let p1 = choose|p: Seq<Edge>| #[trigger] is_walk(adj, p, a, b) && total_weight(p) <= w - 1;
        lemma_weight_nonnegative(adj, p1, a, b);
        lemma_lightest_walk(adj, a, b, w - 1)
    } else {
        assert forall|p: Seq<Edge>| #[trigger] is_walk(adj, p, a, b) implies total_weight(p0)
            <= total_weight(p) by {
            if total_weight(p) <= w - 1 {
                assert(walk_within(adj, a, b, w - 1));
            }
        }
        p0
    }
}

/// In a well-formed table every pair of nodes has a distance, and it is
/// the value of [`distance`].
pub proof fn lemma_distance_exists(adj: Adjacency, a: i32, b: i32)
    requires
        well_formed(adj),
    ensures
        is_distance(adj, a, b, distance(adj, a, b)),
        0 <= distance(adj, a, b) <= unreachable_cost(),
{
    let cap = unreachable_cost();
    if walk_within(adj, a, b, cap - 1) {
        let best = lemma_lightest_walk(adj, a, b, cap - 1);
        assert(is_distance(adj, a, b, total_weight(best)));
    } else {
        assert forall|p: Seq<Edge>| #[trigger] is_walk(adj, p, a, b) implies cap <= total_weight(
            p,
        ) by {
            if total_weight(p) <= cap - 1 {
                assert(walk_within(adj, a, b, cap - 1));
            }
        }
        assert(is_distance(adj, a, b, cap));
    }
    let d = distance(adj, a, b);
    assert(is_distance(adj, a, b, d));
    if d < cap {
        let p = choose|p: Seq<Edge>| #[trigger] is_walk(adj, p, a, b) && total_weight(p) == d;
        lemma_weight_nonnegative(adj, p, a, b);
    }
}

/// Appending an edge and its mirror image keeps every edge that was there.
pub proof fn lemma_with_edge_keeps(adj: Adjacency, e: Edge, x: Edge)
    requires
        has_edge(adj, x),
    ensures
        has_edge(with_edge(adj, e), x),
{
    let mid = with_arc(adj, e);
    let u = x.node_a_id;
    let i = choose|i: int| 0 <= i < out_edges(adj, u).len() && out_edges(adj, u)[i] == x;
    assert(out_edges(mid, u)[i] == x);
    assert(has_edge(mid, x));
    assert(out_edges(with_edge(adj, e), u)[i] == x);
}

/// Appending an edge and its mirror image files both of them.
pub proof fn lemma_with_edge_adds(adj: Adjacency, e: Edge)
    ensures
        has_edge(with_edge(adj, e), e),
        has_edge(with_edge(adj, e), mirror(e)),
{
    let mid = with_arc(adj, e);
    let n = out_edges(adj, e.node_a_id).len() as int;
    assert(out_edges(mid, e.node_a_id)[n] == e);
    assert(has_edge(mid, e));
    let m = out_edges(mid, e.node_b_id).len() as int;
    assert(out_edges(with_edge(adj, e), e.node_b_id)[m] == mirror(e));
    assert(out_edges(with_edge(adj, e), e.node_a_id)[n] == e);
}

/// Every edge of the extended table is an old one, the new one, or its mirror image.
proof fn lemma_with_edge_origin(adj: Adjacency, e: Edge, u: i32, i: int)
    requires
        0 <= i < out_edges(with_edge(adj, e), u).len(),
    ensures
        ({
            let x = out_edges(with_edge(adj, e), u)[i];
            ||| x == e && u == e.node_a_id
            ||| x == mirror(e) && u == e.node_b_id
            ||| 0 <= i < out_edges(adj, u).len() && out_edges(adj, u)[i] == x
        }),
{
}

/// Appending a non-negative edge and its mirror image keeps a table well-formed.
pub proof fn lemma_with_edge_well_formed(adj: Adjacency, e: Edge)
    requires
        well_formed(adj),
        e.weight >= 0,
    ensures
        well_formed(with_edge(adj, e)),
{
    let next = with_edge(adj, e);
    lemma_with_edge_adds(adj, e);
    assert forall|u: i32, i: int|
        #![trigger next[u][i]]
        next.contains_key(u) && 0 <= i < next[u].len() implies {
        &&& next[u][i].node_a_id == u
        &&& next[u][i].weight >= 0
        &&& has_edge(next, mirror(next[u][i]))
    } by {
        let x = next[u][i];
        lemma_with_edge_origin(adj, e, u, i);
        if 0 <= i < out_edges(adj, u).len() && out_edges(adj, u)[i] == x {
            assert(adj[u][i] == x);
            lemma_with_edge_keeps(adj, e, mirror(x));
        }
    }
}

} // verus!
