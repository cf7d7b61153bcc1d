//! The shortest-path query: Dijkstra's algorithm with lazy deletion, and the
//! invariant that proves it.

use crate::frontier::{Frontier, State};
use crate::graph::{Edge, Graph};
use crate::walk::{
    is_distance, is_walk, lemma_distance_exists, lemma_distance_is, lemma_edge_properties,
    out_edges, total_weight, unreachable_cost, well_formed, Adjacency,
};
use std::collections::HashMap;
use vstd::multiset::Multiset;
use vstd::prelude::*;

verus! {

/// The tentative distance recorded for `v`; the cap when none is recorded.
spec fn tentative(dist: Map<i32, i32>, v: i32) -> int {
    if dist.contains_key(v) {
        dist[v] as int
    } else {
        unreachable_cost()
    }
}

/// A walk to `v` has been found.
spec fn found(dist: Map<i32, i32>, v: i32) -> bool {
    tentative(dist, v) < unreachable_cost()
}

/// The frontier entry that carries the recorded distance of `v`.
spec fn entry(dist: Map<i32, i32>, v: i32) -> State {
    State { cost: dist[v], position: v }
}

/// Some walk from `s` to `v` weighs exactly `d`.
spec fn reached(adj: Adjacency, s: i32, v: i32, d: int) -> bool {
    exists|p: Seq<Edge>| #[trigger] is_walk(adj, p, s, v) && total_weight(p) == d
}

/// Some queued entry costs `w` or less.
spec fn queue_reaches(queue: Multiset<State>, w: int) -> bool {
    exists|y: State| #[trigger] queue.count(y) > 0 && y.cost <= w
}

/// Following `e` out of `u` cannot improve on what is recorded for its target.
spec fn relaxed(dist: Map<i32, i32>, u: i32, e: Edge) -> bool {
    ||| tentative(dist, u) + e.weight >= unreachable_cost()
    ||| tentative(dist, e.node_b_id) <= tentative(dist, u) + e.weight
}

/// The first `k` edges out of `u` are relaxed.
spec fn closed_upto(adj: Adjacency, dist: Map<i32, i32>, u: i32, k: int) -> bool {
    forall|i: int|
        0 <= i < k && i < out_edges(adj, u).len() ==> relaxed(
            dist,
            u,
            #[trigger] out_edges(adj, u)[i],
        )
}

/// Every settled node has all its edges relaxed, except that of `cur` only the
/// first `k` need be.
spec fn closed_except(
    adj: Adjacency,
    dist: Map<i32, i32>,
    done: Set<i32>,
    cur: i32,
    k: int,
) -> bool {
    forall|u: i32| #[trigger]
        done.contains(u) ==> closed_upto(
            adj,
            dist,
            u,
            if u == cur {
                k
            } else {
                out_edges(adj, u).len() as int
            },
        )
}

/// Every settled node has all its edges relaxed.
spec fn closed(adj: Adjacency, dist: Map<i32, i32>, done: Set<i32>) -> bool {
    forall|u: i32| #[trigger]
        done.contains(u) ==> closed_upto(adj, dist, u, out_edges(adj, u).len() as int)
}

/// What holds of the bookkeeping whenever the search is between two edges:
/// recorded distances are weights of real walks, every found node is either
/// settled or queued exactly once at its recorded distance, queued entries are
/// never cheaper than what is recorded, and settled nodes are no farther than
/// anything still queued. The target is never settled.
spec fn bookkeeping(
    adj: Adjacency,
    s: i32,
    t: i32,
    dist: Map<i32, i32>,
    done: Set<i32>,
    queue: Multiset<State>,
) -> bool {
    &&& tentative(dist, s) == 0
    &&& !done.contains(t)
    &&& forall|v: i32| #[trigger] found(dist, v) ==> dist[v] >= 0 && reached(adj, s, v, dist[v] as int)
    &&& forall|v: i32| #[trigger]
        found(dist, v) ==> queue.count(entry(dist, v)) == (if done.contains(v) {
            0nat
        } else {
            1nat
        })
    &&& forall|v: i32| #[trigger] done.contains(v) ==> found(dist, v)
    &&& forall|x: State| #[trigger]
        queue.count(x) > 0 ==> found(dist, x.position) && dist[x.position] <= x.cost
    &&& forall|v: i32, x: State| #[trigger]
        done.contains(v) && #[trigger] queue.count(x) > 0 ==> dist[v] <= x.cost
}

/// The invariant between two pops.
spec fn between_pops(
    adj: Adjacency,
    s: i32,
    t: i32,
    dist: Map<i32, i32>,
    done: Set<i32>,
    queue: Multiset<State>,
) -> bool {
    &&& bookkeeping(adj, s, t, dist, done, queue)
    &&& closed(adj, dist, done)
}

/// The invariant while the edges of `cur`, popped at cost `c`, are relaxed
/// and the first `k` of them are through.
spec fn while_relaxing(
    adj: Adjacency,
    s: i32,
    t: i32,
    dist: Map<i32, i32>,
    done: Set<i32>,
    queue: Multiset<State>,
    cur: i32,
    c: i32,
    k: int,
) -> bool {
    &&& bookkeeping(adj, s, t, dist, done, queue)
    &&& closed_except(adj, dist, done, cur, k)
    &&& done.contains(cur)
    &&& tentative(dist, cur) == c
    &&& forall|v: i32| #[trigger] done.contains(v) ==> dist[v] <= c
}

/// The heart of Dijkstra's argument: between two pops, a walk from the source
/// that stays under the cap either ends in a settled node whose recorded
/// distance it cannot beat, or is no lighter than something still queued.
proof fn lemma_frontier_bound(
    adj: Adjacency,
    s: i32,
    t: i32,
    dist: Map<i32, i32>,
    done: Set<i32>,
    queue: Multiset<State>,
    p: Seq<Edge>,
    x: i32,
)
    requires
        well_formed(adj),
        between_pops(adj, s, t, dist, done, queue),
        is_walk(adj, p, s, x),
        total_weight(p) < unreachable_cost(),
    ensures
        (done.contains(x) && dist[x] <= total_weight(p)) || queue_reaches(queue, total_weight(p)),
    decreases p.len(),
{
    if p.len() == 0 {
        assert(found(dist, s));
        if !done.contains(s) {
            assert(queue.count(entry(dist, s)) > 0);
        }
    } else {
        let e = p.last();
        let u = e.node_a_id;
        let q = p.drop_last();
        lemma_edge_properties(adj, e);
        lemma_frontier_bound(adj, s, t, dist, done, queue, q, u);
        if done.contains(u) && dist[u] <= total_weight(q) {
            let i = choose|i: int| 0 <= i < out_edges(adj, u).len() && out_edges(adj, u)[i] == e;
            assert(closed_upto(adj, dist, u, out_edges(adj, u).len() as int));
            assert(relaxed(dist, u, out_edges(adj, u)[i]));
            assert(found(dist, u));
            assert(found(dist, x));
            if !done.contains(x) {
                assert(queue.count(entry(dist, x)) > 0);
            }
        } else {
            let y = choose|y: State| #[trigger] queue.count(y) > 0 && y.cost <= total_weight(q);
            assert(queue.count(y) > 0 && y.cost <= total_weight(p));
        }
    }
}

/// The search starts in a state that meets the invariant.
proof fn lemma_start(adj: Adjacency, s: i32, t: i32, base: Map<i32, i32>)
    requires
        forall|v: i32| !found(base, v),
    ensures
        between_pops(
            adj,
            s,
            t,
            base.insert(s, 0),
            Set::empty(),
            Multiset::empty().insert(State { cost: 0, position: s }),
        ),
{
    let dist = base.insert(s, 0);
    let queue = Multiset::<State>::empty().insert(State { cost: 0, position: s });
    assert(is_walk(adj, Seq::<Edge>::empty(), s, s));
    assert(total_weight(Seq::<Edge>::empty()) == 0);
    assert forall|v: i32| #[trigger] found(dist, v) implies v == s by {
        if v != s {
            assert(!found(base, v));
        }
    }
    assert(entry(dist, s) == State { cost: 0, position: s });
    assert(reached(adj, s, s, 0));
}

/// When the target comes off the queue, its cost is the distance.
proof fn lemma_target_popped(
    adj: Adjacency,
    s: i32,
    t: i32,
    dist: Map<i32, i32>,
    done: Set<i32>,
    queue: Multiset<State>,
    top: State,
)
    requires
        well_formed(adj),
        between_pops(adj, s, t, dist, done, queue),
        queue.count(top) > 0,
        forall|x: State| queue.count(x) > 0 ==> top.cost <= x.cost,
        top.position == t,
    ensures
        is_distance(adj, s, t, top.cost as int),
{
    assert(found(dist, t));
    assert(queue.count(entry(dist, t)) > 0);
    assert(top.cost == dist[t]);
    assert(reached(adj, s, t, dist[t] as int));
    assert forall|p: Seq<Edge>| #[trigger] is_walk(adj, p, s, t) implies top.cost <= total_weight(
        p,
    ) by {
        if total_weight(p) < unreachable_cost() {
            lemma_frontier_bound(adj, s, t, dist, done, queue, p, t);
            let y = choose|y: State| #[trigger] queue.count(y) > 0 && y.cost <= total_weight(p);
            assert(top.cost <= y.cost);
        }
    }
}

/// When the queue runs dry, the target is out of reach.
proof fn lemma_exhausted(
    adj: Adjacency,
    s: i32,
    t: i32,
    dist: Map<i32, i32>,
    done: Set<i32>,
    queue: Multiset<State>,
)
    requires
        well_formed(adj),
        between_pops(adj, s, t, dist, done, queue),
        queue.len() == 0,
    ensures
        tentative(dist, t) == unreachable_cost(),
        is_distance(adj, s, t, unreachable_cost()),
{
    assert forall|x: State| queue.count(x) == 0 by {
        if queue.count(x) > 0 {
            assert(queue.insert(x).len() == queue.len() + 1);
            assert(queue.remove(x).len() == queue.len() - 1);
        }
    }
    if found(dist, t) {
        assert(queue.count(entry(dist, t)) == 1);
    }
    assert forall|p: Seq<Edge>| #[trigger] is_walk(adj, p, s, t) implies unreachable_cost()
        <= total_weight(p) by {
        if total_weight(p) < unreachable_cost() {
            lemma_frontier_bound(adj, s, t, dist, done, queue, p, t);
            let y = choose|y: State| #[trigger] queue.count(y) > 0 && y.cost <= total_weight(p);
            assert(queue.count(y) > 0);
        }
    }
}

/// Dropping a popped entry that a cheaper one has superseded keeps the invariant.
proof fn lemma_drop_stale(
    adj: Adjacency,
    s: i32,
    t: i32,
    dist: Map<i32, i32>,
    done: Set<i32>,
    queue: Multiset<State>,
    top: State,
)
    requires
        between_pops(adj, s, t, dist, done, queue),
        queue.count(top) > 0,
        top.cost > tentative(dist, top.position),
    ensures
        between_pops(adj, s, t, dist, done, queue.remove(top)),
{
    let rest = queue.remove(top);
    assert forall|x: State| #[trigger] rest.count(x) > 0 implies queue.count(x) > 0 by {}
    assert forall|v: i32| #[trigger] found(dist, v) implies rest.count(entry(dist, v)) == (
    if done.contains(v) {
        0nat
    } else {
        1nat
    }) by {
        assert(entry(dist, v) != top);
    }
}

/// Settling the node of a popped entry that is up to date: the invariant for
/// relaxing its edges holds with none of them through yet, and the node was
/// not settled before.
proof fn lemma_settle(
    adj: Adjacency,
    s: i32,
    t: i32,
    dist: Map<i32, i32>,
    done: Set<i32>,
    queue: Multiset<State>,
    top: State,
)
    requires
        between_pops(adj, s, t, dist, done, queue),
        queue.count(top) > 0,
        forall|x: State| queue.count(x) > 0 ==> top.cost <= x.cost,
        top.cost <= tentative(dist, top.position),
        top.position != t,
    ensures
        !done.contains(top.position),
        while_relaxing(
            adj,
            s,
            t,
            dist,
            done.insert(top.position),
            queue.remove(top),
            top.position,
            top.cost,
            0,
        ),
{
    let cur = top.position;
    let rest = queue.remove(top);
    let done2 = done.insert(cur);
    assert(found(dist, cur));
    assert(entry(dist, cur) == top);
    assert forall|x: State| #[trigger] rest.count(x) > 0 implies queue.count(x) > 0 by {}
    assert forall|v: i32| #[trigger] found(dist, v) implies rest.count(entry(dist, v)) == (
    if done2.contains(v) {
        0nat
    } else {
        1nat
    }) by {
        if v != cur {
            assert(entry(dist, v) != top);
        }
    }
    assert forall|v: i32| #[trigger] done2.contains(v) implies found(dist, v) && dist[v]
        <= top.cost by {
        if v != cur {
            assert(done.contains(v));
        }
    }
    assert forall|v: i32, x: State| #[trigger]
        done2.contains(v) && #[trigger] rest.count(x) > 0 implies dist[v] <= x.cost by {
        assert(queue.count(x) > 0);
        if v != cur {
            assert(done.contains(v));
        }
    }
    assert forall|u: i32| #[trigger] done2.contains(u) implies closed_upto(
        adj,
        dist,
        u,
        if u == cur {
            0
        } else {
            out_edges(adj, u).len() as int
        },
    ) by {
        if u != cur {
            assert(done.contains(u));
        }
    }
}

/// Passing over an edge that offers no improvement keeps the invariant.
proof fn lemma_relax_skip(
    adj: Adjacency,
    s: i32,
    t: i32,
    dist: Map<i32, i32>,
    done: Set<i32>,
    queue: Multiset<State>,
    cur: i32,
    c: i32,
    k: int,
)
    requires
        while_relaxing(adj, s, t, dist, done, queue, cur, c, k),
        0 <= k < out_edges(adj, cur).len(),
        c + out_edges(adj, cur)[k].weight >= tentative(dist, out_edges(adj, cur)[k].node_b_id),
    ensures
        while_relaxing(adj, s, t, dist, done, queue, cur, c, k + 1),
{
    assert forall|u: i32| #[trigger] done.contains(u) implies closed_upto(
        adj,
        dist,
        u,
        if u == cur {
            k + 1
        } else {
            out_edges(adj, u).len() as int
        },
    ) by {
        assert(closed_upto(
            adj,
            dist,
            u,
            if u == cur {
                k
            } else {
                out_edges(adj, u).len() as int
            },
        ));
    }
}

/// Recording an improvement found along an edge, and queueing it, keeps the invariant.
proof fn lemma_relax_improve(
    adj: Adjacency,
    s: i32,
    t: i32,
    dist: Map<i32, i32>,
    done: Set<i32>,
    queue: Multiset<State>,
    cur: i32,
    c: i32,
    k: int,
)
    requires
        well_formed(adj),
        while_relaxing(adj, s, t, dist, done, queue, cur, c, k),
        0 <= k < out_edges(adj, cur).len(),
        c + out_edges(adj, cur)[k].weight < tentative(dist, out_edges(adj, cur)[k].node_b_id),
    ensures
        ({
            let e = out_edges(adj, cur)[k];
            let n = (c + e.weight) as i32;
            &&& 0 <= c + e.weight < unreachable_cost()
            &&& while_relaxing(
                adj,
                s,
                t,
                dist.insert(e.node_b_id, n),
                done,
                queue.insert(State { cost: n, position: e.node_b_id }),
                cur,
                c,
                k + 1,
            )
        }),
{
    let e = out_edges(adj, cur)[k];
    let b = e.node_b_id;
    let n = (c + e.weight) as i32;
    let fresh = State { cost: n, position: b };
    let dist2 = dist.insert(b, n);
    let queue2 = queue.insert(fresh);
    assert(adj[cur][k] == e);
    assert(out_edges(adj, e.node_a_id).contains(e));
    assert(found(dist, cur));
    assert(c >= 0 && e.weight >= 0);
    assert(!done.contains(b)) by {
        if done.contains(b) {
            assert(found(dist, b));
        }
    }
    assert(b != s);
    assert(entry(dist2, b) == fresh);
    // what is recorded is the weight of a real walk
    assert forall|v: i32| #[trigger] found(dist2, v) implies dist2[v] >= 0 && reached(
        adj,
        s,
        v,
        dist2[v] as int,
    ) by {
        if v == b {
            let p = choose|p: Seq<Edge>| #[trigger]
                is_walk(adj, p, s, cur) && total_weight(p) == c;
            let p2 = p.push(e);
            assert(p2.last() == e);
            assert(p2.drop_last() =~= p);
            assert(is_walk(adj, p2, s, b));
            assert(total_weight(p2) == n);
        } else {
            assert(found(dist, v));
        }
    }
    // nothing queued for the target is as cheap as the new entry
    assert(queue.count(fresh) == 0) by {
        if queue.count(fresh) > 0 {
            assert(found(dist, b) && dist[b] <= n);
        }
    }
    assert forall|v: i32| #[trigger] found(dist2, v) implies queue2.count(entry(dist2, v)) == (
    if done.contains(v) {
        0nat
    } else {
        1nat
    }) by {
        if v != b {
            assert(found(dist, v));
            assert(entry(dist2, v) == entry(dist, v));
            assert(entry(dist, v) != fresh);
        }
    }
    assert forall|v: i32| #[trigger] done.contains(v) implies found(dist2, v) && dist2[v] <= c by {
        assert(found(dist, v));
    }
    assert forall|x: State| #[trigger] queue2.count(x) > 0 implies found(dist2, x.position)
        && dist2[x.position] <= x.cost by {
        if x != fresh {
            assert(queue.count(x) > 0);
        }
    }
    assert forall|v: i32, x: State| #[trigger]
        done.contains(v) && #[trigger] queue2.count(x) > 0 implies dist2[v] <= x.cost by {
        if x != fresh {
            assert(queue.count(x) > 0);
        }
    }
    assert forall|u: i32| #[trigger] done.contains(u) implies closed_upto(
        adj,
        dist2,
        u,
        if u == cur {
            k + 1
        } else {
            out_edges(adj, u).len() as int
        },
    ) by {
        let bound = if u == cur {
            k
        } else {
            out_edges(adj, u).len() as int
        };
        assert(closed_upto(adj, dist, u, bound));
        assert(tentative(dist2, u) == tentative(dist, u));
        assert forall|i: int|
            0 <= i < (if u == cur {
                k + 1
            } else {
                out_edges(adj, u).len() as int
            }) && i < out_edges(adj, u).len() implies relaxed(
            dist2,
            u,
            #[trigger] out_edges(adj, u)[i],
        ) by {
            let f = out_edges(adj, u)[i];
            assert(tentative(dist2, f.node_b_id) <= tentative(dist, f.node_b_id));
            if i < bound {
                assert(relaxed(dist, u, f));
            }
        }
    }
}

/// Once all edges of the current node are through, the invariant between pops holds again.
proof fn lemma_relax_done(
    adj: Adjacency,
    s: i32,
    t: i32,
    dist: Map<i32, i32>,
    done: Set<i32>,
    queue: Multiset<State>,
    cur: i32,
    c: i32,
    k: int,
)
    requires
        while_relaxing(adj, s, t, dist, done, queue, cur, c, k),
        k >= out_edges(adj, cur).len(),
    ensures
        between_pops(adj, s, t, dist, done, queue),
{
    assert forall|u: i32| #[trigger] done.contains(u) implies closed_upto(
        adj,
        dist,
        u,
        out_edges(adj, u).len() as int,
    ) by {
        assert(closed_upto(
            adj,
            dist,
            u,
            if u == cur {
                k
            } else {
                out_edges(adj, u).len() as int
            },
        ));
    }
}

/// The tentative distance that the table holds for `v`.
fn recorded(distances: &HashMap<i32, i32>, v: i32) -> (d: i32)
    ensures
        d == tentative(distances@, v),
{
    match distances.get(&v) {
        Some(d) => *d,
        None => i32::MAX,
    }
}

impl Graph {
    /// The least total weight of a walk from `from_node_id` to `to_node_id`, or
    /// `i32::MAX` when there is no walk lighter than that.
    ///
    /// Dijkstra's algorithm over a binary min-heap with lazy deletion: entries
    /// that a cheaper one has superseded are dropped when they surface, and the
    /// search stops as soon as the target comes off the heap. A sum that does
    /// not fit in an `i32` counts as no improvement.
    pub fn shortest_path(&self, from_node_id: i32, to_node_id: i32) -> (cost: i32)
        requires
            self.wf(),
        ensures
            is_distance(self@.adjacency, from_node_id, to_node_id, cost as int),
            cost == self.distance(from_node_id, to_node_id),
            0 <= cost,
    {
        let ghost adj = self@.adjacency;
        let mut distances: HashMap<i32, i32> = HashMap::new();
        for id in self.nodes.keys()
            invariant
                forall|v: i32| !found(distances@, v),
        {
            let ghost before = distances@;
            distances.insert(*id, i32::MAX);
            assert forall|v: i32| !found(distances@, v) by {
                assert(!found(before, v));
            }
        }
        let mut heap = Frontier::new();
        proof {
            lemma_start(adj, from_node_id, to_node_id, distances@);
        }
        distances.insert(from_node_id, 0);
        heap.push(State { cost: 0, position: from_node_id });
        let ghost mut done: Set<i32> = Set::empty();
        loop
            invariant
                adj == self@.adjacency,
                well_formed(adj),
                heap.wf(),
                between_pops(adj, from_node_id, to_node_id, distances@, done, heap@),
            ensures
                heap@.len() == 0,
            decreases self.edges@.dom().difference(done).len(), heap@.len(),
        {
            let ghost queue = heap@;
            let top = match heap.pop() {
                Some(top) => top,
                None => {
                    break ;
                },
            };
            let cost = top.cost;
            let position = top.position;
            if position == to_node_id {
                proof {
                    lemma_target_popped(adj, from_node_id, to_node_id, distances@, done, queue, top);
                    lemma_distance_is(adj, from_node_id, to_node_id, cost as int);
                    lemma_distance_exists(adj, from_node_id, to_node_id);
                }
                return cost;
            }
            if cost > recorded(&distances, position) {
                proof {
                    lemma_drop_stale(adj, from_node_id, to_node_id, distances@, done, queue, top);
                }
            } else {
                proof {
                    lemma_settle(adj, from_node_id, to_node_id, distances@, done, queue, top);
                    lemma_settling_shrinks(self.edges@.dom(), done, position);
                    done = done.insert(position);
                }
                match self.edges.get(&position) {
                    Some(list) => {
                        let mut k: usize = 0;
                        while k < list.len()
                            invariant
                                k <= list@.len(),
                                list@ == out_edges(adj, position),
                                well_formed(adj),
                                heap.wf(),
                                while_relaxing(
                                    adj,
                                    from_node_id,
                                    to_node_id,
                                    distances@,
                                    done,
                                    heap@,
                                    position,
                                    cost,
                                    k as int,
                                ),
                            decreases list@.len() - k,
                        {
                            let edge = list[k];
                            let ghost before = distances@;
                            let ghost waiting = heap@;
                            match cost.checked_add(edge.weight) {
                                Some(next_cost) => {
                                    if next_cost < recorded(&distances, edge.node_b_id) {
                                        proof {
                                            lemma_relax_improve(
                                                adj,
                                                from_node_id,
                                                to_node_id,
                                                before,
                                                done,
                                                waiting,
                                                position,
                                                cost,
                                                k as int,
                                            );
                                        }
                                        heap.push(State { cost: next_cost, position: edge.node_b_id });
                                        distances.insert(edge.node_b_id, next_cost);
                                    } else {
                                        proof {
                                            lemma_relax_skip(
                                                adj,
                                                from_node_id,
                                                to_node_id,
                                                before,
                                                done,
                                                waiting,
                                                position,
                                                cost,
                                                k as int,
                                            );
                                        }
                                    }
                                },
                                None => {
                                    proof {
                                        lemma_relax_skip(
                                            adj,
                                            from_node_id,
                                            to_node_id,
                                            before,
                                            done,
                                            waiting,
                                            position,
                                            cost,
                                            k as int,
                                        );
                                    }
                                },
                            }
                            k += 1;
                        }
                        proof {
                            lemma_relax_done(
                                adj,
                                from_node_id,
                                to_node_id,
                                distances@,
                                done,
                                heap@,
                                position,
                                cost,
                                k as int,
                            );
                        }
                    },
                    None => {
                        proof {
                            lemma_relax_done(
                                adj,
                                from_node_id,
                                to_node_id,
                                distances@,
                                done,
                                heap@,
                                position,
                                cost,
                                0,
                            );
                        }
                    },
                }
            }
        }
        proof {
            lemma_exhausted(adj, from_node_id, to_node_id, distances@, done, heap@);
            lemma_distance_is(adj, from_node_id, to_node_id, unreachable_cost());
        }
        recorded(&distances, to_node_id)
    }
}

/// Settling a node that has a list of edges leaves fewer such nodes unsettled;
/// settling one that has none leaves as many.
proof fn lemma_settling_shrinks(keys: Set<i32>, done: Set<i32>, u: i32)
    requires
        keys.finite(),
        !done.contains(u),
    ensures
        keys.contains(u) ==> keys.difference(done.insert(u)).len() < keys.difference(done).len(),
        !keys.contains(u) ==> keys.difference(done.insert(u)) == keys.difference(done),
{
    if keys.contains(u) {
        assert(keys.difference(done.insert(u)) =~= keys.difference(done).remove(u));
    } else {
        assert(keys.difference(done.insert(u)) =~= keys.difference(done));
    }
}

} // verus!
