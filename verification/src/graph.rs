//! The graph itself: its records, its tables, and how it is built.

use crate::walk::{mirror, well_formed, with_arc, with_edge, Adjacency};
use std::collections::HashMap;
use vstd::prelude::*;

verus! {

/// A vertex: its identity and a position that the search never looks at.
#[derive(Clone, Copy, Debug)]
pub struct Node {
    pub id: i32,
    pub x: i32,
    pub y: i32,
}

/// A weighted connection from `node_a_id` to `node_b_id`.
#[derive(Clone, Copy, Debug)]
pub struct Edge {
    pub node_a_id: i32,
    pub node_b_id: i32,
    pub weight: i32,
}

/// A weighted undirected graph: a node table and, per node, a list of outgoing edges.
#[derive(Debug)]
pub struct Graph {
    pub nodes: HashMap<i32, Node>,
    pub edges: HashMap<i32, Vec<Edge>>,
}

/// What a [`Graph`] holds, as mathematical maps.
pub struct GraphView {
    pub nodes: Map<i32, Node>,
    pub adjacency: Adjacency,
}

impl View for Graph {
    type V = GraphView;

    open spec fn view(&self) -> GraphView {
        GraphView {
            nodes: self.nodes@,
            adjacency: Map::new(|u: i32| self.edges@.contains_key(u), |u: i32| self.edges@[u]@),
        }
    }
}

impl Graph {
    /// The invariant that building a graph through [`Graph::add_edge`] with
    /// non-negative weights maintains; see [`well_formed`].
    pub open spec fn wf(&self) -> bool {
        well_formed(self@.adjacency)
    }

    /// The capped distance between two nodes of this graph.
    pub open spec fn distance(&self, from_node_id: i32, to_node_id: i32) -> int {
        crate::walk::distance(self@.adjacency, from_node_id, to_node_id)
    }

    /// A graph without nodes or edges.
    pub fn new() -> (g: Graph)
        ensures
            g@.nodes == Map::<i32, Node>::empty(),
            g@.adjacency == Map::<i32, Seq<Edge>>::empty(),
            g.wf(),
    {
        let g = Graph { nodes: HashMap::new(), edges: HashMap::new() };
        assert(g@.adjacency =~= Map::<i32, Seq<Edge>>::empty());
        g
    }

    /// Records `node` under its id, replacing any node recorded there before.
    pub fn add_node(&mut self, node: Node)
        ensures
            final(self)@.nodes == old(self)@.nodes.insert(node.id, node),
            final(self)@.adjacency == old(self)@.adjacency,
            final(self).wf() == old(self).wf(),
    {
        self.nodes.insert(node.id, node);
    }

    fn append(&mut self, edge: Edge)
        ensures
            final(self)@.nodes == old(self)@.nodes,
            final(self)@.adjacency == with_arc(old(self)@.adjacency, edge),
    {
        let list = self.edges.entry(edge.node_a_id).or_insert(Vec::new());
        list.push(edge);
        assert(self@.adjacency =~= with_arc(old(self)@.adjacency, edge));
    }

    /// Appends `edge` to the list of `edge.node_a_id` and its mirror image to the
    /// list of `edge.node_b_id`. Parallel edges accumulate.
    pub fn add_edge(&mut self, edge: Edge)
        ensures
            final(self)@.nodes == old(self)@.nodes,
            final(self)@.adjacency == with_edge(old(self)@.adjacency, edge),
            final(self).has_edge(edge),
            final(self).has_edge(mirror(edge)),
            old(self).wf() && edge.weight >= 0 ==> final(self).wf(),
    {
        self.append(edge);
        let reverse_edge = Edge {
            node_a_id: edge.node_b_id,
            node_b_id: edge.node_a_id,
            weight: edge.weight,
        };
        self.append(reverse_edge);
        proof {
            crate::walk::lemma_with_edge_adds(old(self)@.adjacency, edge);
            if old(self).wf() && edge.weight >= 0 {
                crate::walk::lemma_with_edge_well_formed(old(self)@.adjacency, edge);
            }
        }
    }
}

} // verus!
