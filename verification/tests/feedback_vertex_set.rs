use randomized_fpt::feedback_vertex_set::{find_feedback_vertex_set, reduce_graph};
use randomized_fpt::graph::Graph;

#[test]
fn reduce_loops() {
    let edges: Vec<(usize, usize)> = vec![
        (1, 1),
        (2, 2),
        (3, 4),
        (3, 5),
        (3, 6),
        (4, 5),
        (4, 6),
        (5, 6),
    ];
    let mut g = Graph::from_edges(&edges);

    let k = reduce_graph(&mut g, 2);
    assert_eq!(k, 0);
    assert_eq!(g.node_count(), 4);
    assert_eq!(g.edge_count(), 6);
}

#[test]
fn reduce_multiplicity() {
    let edges: Vec<(usize, usize)> = vec![
        (3, 4),
        (3, 5),
        (3, 6),
        (3, 6),
        (3, 6),
        (4, 5),
        (4, 5),
        (4, 5),
        (4, 6),
        (5, 6),
    ];
    let mut g = Graph::from_edges(&edges);

    let k = reduce_graph(&mut g, 2);
    assert_eq!(k, 2);
    assert_eq!(g.node_count(), 4);
    assert_eq!(g.edge_count(), 8);
}

#[test]
fn reduce_degree_one_nodes() {
    let edges: Vec<(usize, usize)> = vec![
        (3, 4),
        (3, 5),
        (3, 6),
        (4, 5),
        (4, 6),
        (5, 6),
        (1, 2),
        (2, 3),
    ];
    let mut g = Graph::from_edges(&edges);

    let k = reduce_graph(&mut g, 2);
    assert_eq!(k, 2);
    assert_eq!(g.node_count(), 4);
    assert_eq!(g.edge_count(), 6);
}

#[test]
fn reduce_degree_two_nodes() {
    let edges: Vec<(usize, usize)> = vec![
        (1, 3),
        (1, 2),
        (2, 4),
        (3, 4),
        (3, 5),
        (3, 6),
        (4, 5),
        (4, 6),
        (5, 6),
    ];
    let mut g = Graph::from_edges(&edges);

    let k = reduce_graph(&mut g, 2);
    assert_eq!(k, 2);
    assert_eq!(g.node_count(), 4);
    assert_eq!(g.edge_count(), 7);
}

#[test]
fn reduce_graph_to_empty() {
    let edges: Vec<(usize, usize)> = vec![
        (1, 2),
        (1, 3),
        (2, 3),
        (2, 4),
        (4, 5),
        (5, 6),
        (6, 7),
        (6, 8),
        (4, 9),
        (7, 9),
        (8, 9),
    ];
    let mut g = Graph::from_edges(&edges);

    let k = reduce_graph(&mut g, 2);
    assert_eq!(k, 0);
    assert_eq!(g.node_count(), 0);
    assert_eq!(g.edge_count(), 0);
}

#[test]
fn kernelization_is_idempotent_at_fixed_point() {
    // a reduced graph reduces again to itself, at no cost
    let edges: Vec<(usize, usize)> = vec![
        (3, 4),
        (3, 5),
        (3, 6),
        (4, 5),
        (4, 6),
        (5, 6),
        (1, 2),
        (2, 3),
    ];
    let mut g = Graph::from_edges(&edges);
    let k = reduce_graph(&mut g, 2);
    let nodes = g.node_count();
    let fixed_edges = g.edge_count();
    let k2 = reduce_graph(&mut g, k);
    assert_eq!(k2, k);
    assert_eq!(g.node_count(), nodes);
    assert_eq!(g.edge_count(), fixed_edges);
}

#[test]
fn loop_charges_can_exhaust_budget() {
    // three self-loops cost three units; a budget of two signals failure
    let edges: Vec<(usize, usize)> = vec![(1, 1), (2, 2), (3, 3)];
    let mut g = Graph::from_edges(&edges);
    let k = reduce_graph(&mut g, 2);
    assert!(k < 0);
}

#[test]
fn chordless_cycle_reduces_to_empty_with_budget_one() {
    let square: Vec<(usize, usize)> = vec![(0, 1), (1, 2), (2, 3), (3, 0)];
    let mut g = Graph::from_edges(&square);
    let k = reduce_graph(&mut g, 1);
    assert_eq!(k, 0);
    assert_eq!(g.node_count(), 0);
    assert_eq!(g.edge_count(), 0);

    let pentagon: Vec<(usize, usize)> = vec![(0, 1), (1, 2), (2, 3), (3, 4), (4, 0)];
    let mut g5 = Graph::from_edges(&pentagon);
    let k5 = reduce_graph(&mut g5, 1);
    assert_eq!(k5, 0);
    assert_eq!(g5.node_count(), 0);
    assert_eq!(g5.edge_count(), 0);
}

#[test]
fn chordless_cycle_fails_with_no_budget() {
    let triangle: Vec<(usize, usize)> = vec![(0, 1), (1, 2), (2, 0)];
    let mut g = Graph::from_edges(&triangle);
    let k = reduce_graph(&mut g, 0);
    assert!(k < 0);
}

#[test]
fn fvs_engine_zero_repeats_returns_false() {
    let edges: Vec<(usize, usize)> = vec![(0, 1), (1, 2), (2, 0)];
    let g = Graph::from_edges(&edges);
    assert!(!find_feedback_vertex_set(&g, 3, 0));
}

#[test]
fn fvs_engine_accepts_triangle_with_budget_one() {
    // deleting any vertex of a triangle leaves a path: the one random
    // branch always certifies the set
    let edges: Vec<(usize, usize)> = vec![(0, 1), (1, 2), (2, 0)];
    let g = Graph::from_edges(&edges);
    assert!(find_feedback_vertex_set(&g, 1, 20));
}

#[test]
fn fvs_engine_accepts_empty_graph() {
    let edges: Vec<(usize, usize)> = vec![];
    let g = Graph::from_edges(&edges);
    assert!(find_feedback_vertex_set(&g, 0, 1));
}

#[test]
fn fvs_engine_certifies_kernelized_deletions() {
    // kernelization alone empties this graph, charging exactly two nodes;
    // the engine re-checks that deleting them leaves the graph acyclic
    let edges: Vec<(usize, usize)> = vec![
        (1, 2),
        (1, 3),
        (2, 3),
        (2, 4),
        (4, 5),
        (5, 6),
        (6, 7),
        (6, 8),
        (4, 9),
        (7, 9),
        (8, 9),
    ];
    let g = Graph::from_edges(&edges);
    assert!(find_feedback_vertex_set(&g, 2, 1));
}
