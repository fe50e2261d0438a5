use randomized_fpt::color_coding::{find_colorful_path, find_simple_path};
use randomized_fpt::digraph::DiGraph;

#[test]
fn empty_graph() {
    let g = DiGraph::new();
    let res = find_colorful_path(&g, 1);
    assert!(!res);
}

#[test]
fn simple_has_path() {
    let mut g = DiGraph::new();
    let n1 = g.add_node(1);
    let n2 = g.add_node(2);
    let n3 = g.add_node(1);
    g.add_edge(n1, n2);
    g.add_edge(n1, n3);
    let res = find_colorful_path(&g, 2);
    assert!(res);
}

#[test]
fn simple_no_path() {
    let mut g = DiGraph::new();
    let n1 = g.add_node(1);
    let n2 = g.add_node(1);
    let n3 = g.add_node(1);
    g.add_edge(n1, n2);
    g.add_edge(n1, n3);
    let res = find_colorful_path(&g, 2);
    assert!(!res);
}

fn large_graph() -> DiGraph {
    let mut g = DiGraph::new();
    let n1 = g.add_node(1);
    let n2 = g.add_node(2);
    let n3 = g.add_node(4);
    let n4 = g.add_node(3);
    let n5 = g.add_node(4);
    let n6 = g.add_node(2);
    let n7 = g.add_node(1);
    let n8 = g.add_node(4);
    let n9 = g.add_node(2);
    let n10 = g.add_node(3);
    let n11 = g.add_node(1);
    let n12 = g.add_node(2);
    let n13 = g.add_node(3);
    let n14 = g.add_node(3);
    let n15 = g.add_node(4);
    let edges = [
        (n1, n4),
        (n1, n12),
        (n4, n2),
        (n4, n6),
        (n2, n8),
        (n2, n3),
        (n6, n5),
        (n6, n7),
        (n12, n10),
        (n12, n14),
        (n10, n9),
        (n10, n11),
        (n14, n13),
        (n14, n15),
    ];
    for (a, b) in edges {
        g.add_edge(a, b);
    }
    g
}

#[test]
fn large_has_path() {
    let g = large_graph();
    let res = find_colorful_path(&g, 4);
    assert!(res);
}

#[test]
fn large_no_path() {
    let g = large_graph();
    let res = find_colorful_path(&g, 5);
    assert!(!res);
}

#[test]
fn single_vertex_engine_is_deterministic() {
    let mut g = DiGraph::new();
    g.add_node(7);
    assert!(find_simple_path(g, 1, 1));
    let empty = DiGraph::new();
    assert!(!find_simple_path(empty, 1, 5));
}

#[test]
fn engine_zero_repeats_returns_false() {
    let mut g = DiGraph::new();
    let a = g.add_node(1);
    let b = g.add_node(2);
    g.add_edge(a, b);
    assert!(!find_simple_path(g, 2, 0));
}

#[test]
fn tree_engine_finds_depth_four_path() {
    // a binary-tree-like DAG of depth four: paths of four vertices exist,
    // none of five
    let mut g = DiGraph::new();
    for _ in 0..16 {
        g.add_node(1);
    }
    let edges = [
        (1, 4),
        (1, 12),
        (4, 2),
        (4, 6),
        (2, 8),
        (2, 3),
        (6, 5),
        (6, 7),
        (12, 10),
        (12, 14),
        (10, 9),
        (10, 11),
        (14, 13),
        (14, 15),
    ];
    for (a, b) in edges {
        g.add_edge(a, b);
    }
    assert!(find_simple_path(g, 4, 400));
}

#[test]
fn tree_engine_never_finds_depth_five_path() {
    let mut g = DiGraph::new();
    for _ in 0..16 {
        g.add_node(1);
    }
    let edges = [
        (1, 4),
        (1, 12),
        (4, 2),
        (4, 6),
        (2, 8),
        (2, 3),
        (6, 5),
        (6, 7),
        (12, 10),
        (12, 14),
        (10, 9),
        (10, 11),
        (14, 13),
        (14, 15),
    ];
    for (a, b) in edges {
        g.add_edge(a, b);
    }
    assert!(!find_simple_path(g, 5, 60));
}
