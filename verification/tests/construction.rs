use graph_engine::frontier::{Frontier, State};
use graph_engine::{Edge, Graph, Node};

#[test]
fn new_graph_is_empty() {
    let g = Graph::new();
    assert!(g.nodes.is_empty());
    assert!(g.edges.is_empty());
}

#[test]
fn add_node_records_the_node() {
    let mut g = Graph::new();
    g.add_node(Node { id: 7, x: 3, y: -4 });
    assert_eq!(g.nodes.len(), 1);
    let n = g.nodes.get(&7).unwrap();
    assert_eq!((n.id, n.x, n.y), (7, 3, -4));
    assert!(g.edges.is_empty());
}

#[test]
fn add_node_twice_keeps_the_last() {
    let mut g = Graph::new();
    g.add_node(Node { id: 7, x: 1, y: 1 });
    g.add_node(Node { id: 7, x: 2, y: 5 });
    assert_eq!(g.nodes.len(), 1);
    let n = g.nodes.get(&7).unwrap();
    assert_eq!((n.x, n.y), (2, 5));
}

#[test]
fn add_edge_files_the_edge_and_its_mirror() {
    let mut g = Graph::new();
    g.add_edge(Edge { node_a_id: 1, node_b_id: 2, weight: 9 });
    assert!(g.nodes.is_empty());
    assert_eq!(g.edges.len(), 2);
    let out = g.edges.get(&1).unwrap();
    assert_eq!(out.len(), 1);
    assert_eq!((out[0].node_a_id, out[0].node_b_id, out[0].weight), (1, 2, 9));
    let back = g.edges.get(&2).unwrap();
    assert_eq!(back.len(), 1);
    assert_eq!((back[0].node_a_id, back[0].node_b_id, back[0].weight), (2, 1, 9));
}

#[test]
fn add_edge_accumulates_parallel_edges() {
    let mut g = Graph::new();
    g.add_edge(Edge { node_a_id: 1, node_b_id: 2, weight: 5 });
    g.add_edge(Edge { node_a_id: 1, node_b_id: 2, weight: 3 });
    g.add_edge(Edge { node_a_id: 2, node_b_id: 1, weight: 8 });
    let out = g.edges.get(&1).unwrap();
    let weights: Vec<i32> = out.iter().map(|e| e.weight).collect();
    assert_eq!(weights, vec![5, 3, 8]);
    let targets: Vec<i32> = out.iter().map(|e| e.node_b_id).collect();
    assert_eq!(targets, vec![2, 2, 2]);
    assert_eq!(g.edges.get(&2).unwrap().len(), 3);
}

#[test]
fn add_edge_on_a_self_loop_files_it_twice() {
    let mut g = Graph::new();
    g.add_edge(Edge { node_a_id: 4, node_b_id: 4, weight: 1 });
    assert_eq!(g.edges.len(), 1);
    assert_eq!(g.edges.get(&4).unwrap().len(), 2);
}

#[test]
fn frontier_hands_out_entries_by_rising_cost() {
    let mut f = Frontier::new();
    let costs = [5, 1, 9, 3, 3, 7, 0, 8, 2, 6, 4];
    for (i, &c) in costs.iter().enumerate() {
        f.push(State { cost: c, position: i as i32 });
    }
    let mut out = Vec::new();
    while let Some(s) = f.pop() {
        assert_eq!(costs[s.position as usize], s.cost);
        out.push(s.cost);
    }
    assert_eq!(out, vec![0, 1, 2, 3, 3, 4, 5, 6, 7, 8, 9]);
}

#[test]
fn empty_frontier_has_nothing_to_pop() {
    let mut f = Frontier::new();
    assert!(f.pop().is_none());
    f.push(State { cost: 2, position: 1 });
    let s = f.pop().unwrap();
    assert_eq!((s.cost, s.position), (2, 1));
    assert!(f.pop().is_none());
}

#[test]
fn frontier_interleaves_pushes_and_pops() {
    let mut f = Frontier::new();
    f.push(State { cost: 4, position: 0 });
    f.push(State { cost: 2, position: 1 });
    assert_eq!(f.pop().unwrap().cost, 2);
    f.push(State { cost: 1, position: 2 });
    f.push(State { cost: 3, position: 3 });
    assert_eq!(f.pop().unwrap().cost, 1);
    assert_eq!(f.pop().unwrap().cost, 3);
    assert_eq!(f.pop().unwrap().cost, 4);
    assert!(f.pop().is_none());
}
