//! What holds of distances in every well-formed graph.

use crate::graph::{Edge, Graph};
use crate::walk::{
    has_edge, is_distance, is_walk, lemma_distance_exists, lemma_distance_is,
    lemma_single_edge_walk, lemma_walk_concat, lemma_walk_reversed, lemma_weight_nonnegative,
    lemma_with_edge_adds, lemma_with_edge_keeps, mirror, total_weight, unreachable_cost, with_edge,
};
use vstd::prelude::*;

verus! {

impl Graph {
    /// `e` is in the list of its source node.
    pub open spec fn has_edge(&self, e: Edge) -> bool {
        has_edge(self@.adjacency, e)
    }

    /// `p` is a walk from `a` to `b` in this graph.
    pub open spec fn is_walk(&self, p: Seq<Edge>, a: i32, b: i32) -> bool {
        is_walk(self@.adjacency, p, a, b)
    }

    /// `id` is the id of a recorded node or an end of some edge.
    pub open spec fn knows(&self, id: i32) -> bool {
        ||| self@.nodes.contains_key(id)
        ||| exists|e: Edge| #[trigger] self.has_edge(e) && (e.node_a_id == id || e.node_b_id == id)
    }
}

/// Every distance lies between zero and the cap, and is the distance in the
/// sense of [`is_distance`].
pub proof fn law_distance_in_range(g: &Graph, a: i32, b: i32)
    requires
        g.wf(),
    ensures
        0 <= g.distance(a, b) <= i32::MAX,
        is_distance(g@.adjacency, a, b, g.distance(a, b)),
{
    lemma_distance_exists(g@.adjacency, a, b);
}

/// The distance from a node to itself is zero, whether the graph knows the
/// node or not.
pub proof fn law_distance_to_self(g: &Graph, n: i32)
    requires
        g.wf(),
    ensures
        g.distance(n, n) == 0,
{
    let adj = g@.adjacency;
    assert(is_walk(adj, Seq::<Edge>::empty(), n, n));
    assert(total_weight(Seq::<Edge>::empty()) == 0);
    assert forall|p: Seq<Edge>| #[trigger] is_walk(adj, p, n, n) implies 0 <= total_weight(p) by {
        lemma_weight_nonnegative(adj, p, n, n);
    }
    assert(is_distance(adj, n, n, 0));
    lemma_distance_is(adj, n, n, 0);
}

/// The two ends of an edge are no farther apart than its weight, in either direction.
pub proof fn law_edge_bounds_distance(g: &Graph, e: Edge)
    requires
        g.wf(),
        g.has_edge(e),
    ensures
        g.distance(e.node_a_id, e.node_b_id) <= e.weight,
        g.distance(e.node_b_id, e.node_a_id) <= e.weight,
{
    let adj = g@.adjacency;
    lemma_distance_exists(adj, e.node_a_id, e.node_b_id);
    lemma_distance_exists(adj, e.node_b_id, e.node_a_id);
    lemma_single_edge_walk(adj, e);
    crate::walk::lemma_edge_properties(adj, e);
    lemma_single_edge_walk(adj, mirror(e));
}

/// An added edge is in the graph in both directions, and every edge that was
/// there before it stays.
pub proof fn law_added_edge_stays(before: &Graph, after: &Graph, added: Edge, e: Edge)
    requires
        after@.adjacency == with_edge(before@.adjacency, added),
    ensures
        after.has_edge(added),
        after.has_edge(mirror(added)),
        before.has_edge(e) ==> after.has_edge(e),
{
    lemma_with_edge_adds(before@.adjacency, added);
    if before.has_edge(e) {
        lemma_with_edge_keeps(before@.adjacency, added, e);
    }
}

/// Right after an edge of non-negative weight is added, its two ends are no
/// farther apart than its weight, in either direction.
pub proof fn law_added_edge_bounds_distance(before: &Graph, after: &Graph, added: Edge)
    requires
        before.wf(),
        added.weight >= 0,
        after@.adjacency == with_edge(before@.adjacency, added),
    ensures
        after.wf(),
        after.distance(added.node_a_id, added.node_b_id) <= added.weight,
        after.distance(added.node_b_id, added.node_a_id) <= added.weight,
{
    crate::walk::lemma_with_edge_well_formed(before@.adjacency, added);
    lemma_with_edge_adds(before@.adjacency, added);
    law_edge_bounds_distance(after, added);
}

/// The triangle inequality: going by way of `b` is never shorter than going directly.
pub proof fn law_triangle_inequality(g: &Graph, a: i32, b: i32, c: i32)
    requires
        g.wf(),
    ensures
        g.distance(a, c) <= g.distance(a, b) + g.distance(b, c),
{
    let adj = g@.adjacency;
    lemma_distance_exists(adj, a, b);
    lemma_distance_exists(adj, b, c);
    lemma_distance_exists(adj, a, c);
    if g.distance(a, b) < unreachable_cost() && g.distance(b, c) < unreachable_cost() {
        let p = choose|p: Seq<Edge>| #[trigger]
            is_walk(adj, p, a, b) && total_weight(p) == g.distance(a, b);
        let q = choose|q: Seq<Edge>| #[trigger]
            is_walk(adj, q, b, c) && total_weight(q) == g.distance(b, c);
        lemma_walk_concat(adj, p, q, a, b, c);
        assert(is_walk(adj, p + q, a, c));
    }
}

/// Symmetry: the distance is the same in both directions.
pub proof fn law_symmetry(g: &Graph, a: i32, b: i32)
    requires
        g.wf(),
    ensures
        g.distance(a, b) == g.distance(b, a),
{
    lemma_one_way_bound(g, a, b);
    lemma_one_way_bound(g, b, a);
}

proof fn lemma_one_way_bound(g: &Graph, a: i32, b: i32)
    requires
        g.wf(),
    ensures
        g.distance(b, a) <= g.distance(a, b),
{
    let adj = g@.adjacency;
    lemma_distance_exists(adj, a, b);
    lemma_distance_exists(adj, b, a);
    if g.distance(a, b) < unreachable_cost() {
        let p = choose|p: Seq<Edge>| #[trigger]
            is_walk(adj, p, a, b) && total_weight(p) == g.distance(a, b);
        lemma_walk_reversed(adj, p, a, b);
        assert(is_walk(adj, crate::walk::reversed(p), b, a));
    }
}

/// A pair of nodes that no walk connects is at the capped distance `i32::MAX`.
pub proof fn law_unreachable(g: &Graph, a: i32, b: i32)
    requires
        forall|p: Seq<Edge>| !g.is_walk(p, a, b),
    ensures
        g.distance(a, b) == i32::MAX,
{
    let adj = g@.adjacency;
    assert forall|p: Seq<Edge>| #[trigger] is_walk(adj, p, a, b) implies unreachable_cost()
        <= total_weight(p) by {
        assert(!g.is_walk(p, a, b));
    }
    assert(is_distance(adj, a, b, unreachable_cost()));
    lemma_distance_is(adj, a, b, unreachable_cost());
}

/// A target that the graph does not know is at the capped distance `i32::MAX`
/// from every other node.
pub proof fn law_unknown_target(g: &Graph, a: i32, b: i32)
    requires
        !g.knows(b),
        a != b,
    ensures
        g.distance(a, b) == i32::MAX,
{
    assert forall|p: Seq<Edge>| !g.is_walk(p, a, b) by {
        if g.is_walk(p, a, b) {
            assert(g.has_edge(p.last()));
        }
    }
    law_unreachable(g, a, b);
}

/// The distance is the weight of a lightest walk, computed without wrapping
/// and then capped: where the lightest walk weighs `i32::MAX` or more, the
/// distance is `i32::MAX`, never a smaller number that a wrapped sum would give.
pub proof fn law_distance_is_capped_least_weight(g: &Graph, a: i32, b: i32, lightest: Seq<Edge>)
    requires
        g.wf(),
        g.is_walk(lightest, a, b),
        forall|p: Seq<Edge>| #[trigger] g.is_walk(p, a, b) ==> total_weight(lightest) <= total_weight(p),
    ensures
        g.distance(a, b) == if total_weight(lightest) < i32::MAX {
            total_weight(lightest)
        } else {
            i32::MAX as int
        },
{
    let adj = g@.adjacency;
    let d = if total_weight(lightest) < i32::MAX {
        total_weight(lightest)
    } else {
        i32::MAX as int
    };
    assert forall|p: Seq<Edge>| #[trigger] is_walk(adj, p, a, b) implies d <= total_weight(p) by {
        assert(g.is_walk(p, a, b));
    }
    assert(is_walk(adj, lightest, a, b));
    assert(is_distance(adj, a, b, d));
    lemma_distance_is(adj, a, b, d);
}

} // verus!
