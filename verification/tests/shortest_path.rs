use graph_engine::{Edge, Graph, Node};

fn node(id: i32) -> Node {
    Node { id, x: 0, y: 0 }
}

fn edge(a: i32, b: i32, weight: i32) -> Edge {
    Edge { node_a_id: a, node_b_id: b, weight }
}

fn build(nodes: &[i32], edges: &[(i32, i32, i32)]) -> Graph {
    let mut g = Graph::new();
    for &id in nodes {
        g.add_node(node(id));
    }
    for &(a, b, w) in edges {
        g.add_edge(edge(a, b, w));
    }
    g
}

fn sample() -> Graph {
    build(
        &[1, 2, 3, 4, 5, 6, 7],
        &[
            (1, 2, 7),
            (1, 3, 9),
            (1, 6, 14),
            (2, 3, 10),
            (2, 4, 15),
            (3, 4, 11),
            (3, 6, 2),
            (4, 5, 6),
            (5, 6, 9),
        ],
    )
}

#[test]
fn distance_to_self_is_zero() {
    let g = sample();
    for n in 1..=7 {
        assert_eq!(g.shortest_path(n, n), 0);
    }
}

#[test]
fn distance_to_self_is_zero_for_an_unknown_node() {
    let g = sample();
    assert_eq!(g.shortest_path(99, 99), 0);
    assert_eq!(Graph::new().shortest_path(-3, -3), 0);
}

#[test]
fn an_edge_bounds_the_distance_both_ways() {
    let edges = [(1, 2, 7), (1, 3, 9), (1, 6, 14), (2, 3, 10), (3, 6, 2), (5, 6, 9)];
    let g = sample();
    for &(a, b, w) in edges.iter() {
        assert!(g.shortest_path(a, b) <= w);
        assert!(g.shortest_path(b, a) <= w);
    }
    assert_eq!(g.shortest_path(1, 6), 11);
    assert_eq!(g.shortest_path(6, 1), 11);
}

#[test]
fn triangle_inequality_holds_on_a_sample() {
    let g = sample();
    for a in 0..=8 {
        for b in 0..=8 {
            for c in 0..=8 {
                let direct = g.shortest_path(a, c) as i64;
                let detour = g.shortest_path(a, b) as i64 + g.shortest_path(b, c) as i64;
                assert!(direct <= detour);
            }
        }
    }
}

#[test]
fn distance_is_symmetric_on_a_sample() {
    let g = sample();
    for a in 0..=8 {
        for b in 0..=8 {
            assert_eq!(g.shortest_path(a, b), g.shortest_path(b, a));
        }
    }
}

#[test]
fn classic_sample_distances() {
    let g = sample();
    assert_eq!(g.shortest_path(1, 2), 7);
    assert_eq!(g.shortest_path(1, 3), 9);
    assert_eq!(g.shortest_path(1, 4), 20);
    assert_eq!(g.shortest_path(1, 5), 20);
    assert_eq!(g.shortest_path(1, 6), 11);
    assert_eq!(g.shortest_path(2, 5), 21);
    assert_eq!(g.shortest_path(4, 6), 13);
}

#[test]
fn unreachable_pair_gives_the_sentinel() {
    let g = build(&[1, 2, 3, 4], &[(1, 2, 1), (3, 4, 1)]);
    assert_eq!(g.shortest_path(1, 3), i32::MAX);
    assert_eq!(g.shortest_path(4, 2), i32::MAX);
    assert_eq!(g.shortest_path(1, 2), 1);
    assert_eq!(g.shortest_path(3, 4), 1);
}

#[test]
fn isolated_node_is_unreachable() {
    let g = sample();
    assert_eq!(g.shortest_path(1, 7), i32::MAX);
    assert_eq!(g.shortest_path(7, 1), i32::MAX);
}

#[test]
fn unknown_target_gives_the_sentinel() {
    let g = sample();
    assert_eq!(g.shortest_path(1, 42), i32::MAX);
}

#[test]
fn unknown_source_gives_the_sentinel() {
    let g = sample();
    assert_eq!(g.shortest_path(42, 1), i32::MAX);
}

#[test]
fn parallel_edges_pick_the_lighter() {
    let mut g = Graph::new();
    g.add_edge(edge(1, 2, 5));
    g.add_edge(edge(1, 2, 3));
    assert_eq!(g.shortest_path(1, 2), 3);
    assert_eq!(g.shortest_path(2, 1), 3);
}

#[test]
fn parallel_edges_pick_the_lighter_in_either_order() {
    let mut g = Graph::new();
    g.add_edge(edge(1, 2, 3));
    g.add_edge(edge(1, 2, 5));
    assert_eq!(g.shortest_path(1, 2), 3);
}

#[test]
fn detour_beats_the_direct_edge() {
    let g = build(&[1, 2, 3], &[(1, 2, 4), (2, 3, 1), (1, 3, 10)]);
    assert_eq!(g.shortest_path(1, 3), 5);
    assert_eq!(g.shortest_path(3, 1), 5);
}

#[test]
fn empty_graph_gives_the_sentinel() {
    let g = Graph::new();
    assert_eq!(g.shortest_path(1, 2), i32::MAX);
    assert_eq!(g.shortest_path(0, -1), i32::MAX);
}

#[test]
fn sums_beyond_the_range_do_not_wrap() {
    let g = build(&[1, 2, 3], &[(1, 2, i32::MAX - 1), (2, 3, 5)]);
    assert_eq!(g.shortest_path(1, 2), i32::MAX - 1);
    assert_eq!(g.shortest_path(1, 3), i32::MAX);
    assert_eq!(g.shortest_path(3, 1), i32::MAX);
}

#[test]
fn a_sum_of_exactly_the_cap_counts_as_no_path() {
    let g = build(&[], &[(1, 2, i32::MAX - 1), (2, 3, 1)]);
    assert_eq!(g.shortest_path(1, 3), i32::MAX);
}

#[test]
fn a_sum_just_under_the_cap_is_returned() {
    let g = build(&[], &[(1, 2, i32::MAX - 2), (2, 3, 1)]);
    assert_eq!(g.shortest_path(1, 3), i32::MAX - 1);
}

#[test]
fn an_edge_of_maximal_weight_counts_as_no_path() {
    let g = build(&[1, 2], &[(1, 2, i32::MAX)]);
    assert_eq!(g.shortest_path(1, 2), i32::MAX);
}

#[test]
fn heavy_edges_do_not_hide_a_light_route() {
    let g = build(
        &[1, 2, 3, 4],
        &[(1, 2, i32::MAX), (2, 4, i32::MAX), (1, 3, 1_000_000_000), (3, 4, 1_000_000_000)],
    );
    assert_eq!(g.shortest_path(1, 4), 2_000_000_000);
}

#[test]
fn zero_weight_edges_cost_nothing() {
    let g = build(&[1, 2, 3], &[(1, 2, 0), (2, 3, 0)]);
    assert_eq!(g.shortest_path(1, 3), 0);
}

#[test]
fn self_loop_changes_nothing() {
    let g = build(&[1, 2], &[(1, 1, 4), (1, 2, 6)]);
    assert_eq!(g.shortest_path(1, 1), 0);
    assert_eq!(g.shortest_path(1, 2), 6);
}

#[test]
fn edges_between_unrecorded_nodes_are_walked() {
    let g = build(&[], &[(10, 20, 2), (20, 30, 3)]);
    assert_eq!(g.shortest_path(10, 30), 5);
    assert_eq!(g.shortest_path(30, 10), 5);
}

#[test]
fn superseded_entries_are_passed_over() {
    // Node 4 is queued at 100, then at 12, then at 3 before it is settled.
    let g = build(
        &[1, 2, 3, 4, 5],
        &[(1, 4, 100), (1, 2, 1), (2, 4, 11), (2, 3, 1), (3, 4, 1), (4, 5, 1), (1, 5, 50)],
    );
    assert_eq!(g.shortest_path(1, 4), 3);
    assert_eq!(g.shortest_path(1, 5), 4);
}

#[test]
fn a_long_chain_adds_up() {
    let mut g = Graph::new();
    for i in 0..200 {
        g.add_edge(edge(i, i + 1, i + 1));
    }
    assert_eq!(g.shortest_path(0, 200), 200 * 201 / 2);
    assert_eq!(g.shortest_path(200, 0), 200 * 201 / 2);
    assert_eq!(g.shortest_path(10, 12), 11 + 12);
}

#[test]
fn adding_an_edge_never_lengthens_a_route() {
    let mut g = build(&[1, 2, 3], &[(1, 2, 4), (2, 3, 4)]);
    assert_eq!(g.shortest_path(1, 3), 8);
    g.add_edge(edge(1, 3, 9));
    assert_eq!(g.shortest_path(1, 3), 8);
    g.add_edge(edge(3, 1, 2));
    assert_eq!(g.shortest_path(1, 3), 2);
    assert_eq!(g.shortest_path(1, 2), 4);
}
