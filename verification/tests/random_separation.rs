use randomized_fpt::random_separation::{
    find_subgraph, has_isomorphic_subgraph, Color, ColoredGraph,
};
use randomized_fpt::ungraph::UGraph;

fn host_with(colors: [Color; 10]) -> ColoredGraph {
    let mut g = ColoredGraph::new();
    let mut nodes = [0usize; 10];
    for slot in nodes.iter_mut() {
        *slot = g.add_node();
    }
    let ends = [
        (0, 1),
        (1, 2),
        (2, 3),
        (3, 4),
        (3, 5),
        (5, 6),
        (5, 7),
        (6, 7),
        (7, 8),
        (7, 9),
    ];
    for (i, (a, b)) in ends.iter().enumerate() {
        g.add_edge(nodes[*a], nodes[*b], colors[i]);
    }
    g
}

#[test]
fn has_subgraph_single_component() {
    let g = host_with([
        Color::Red,
        Color::Red,
        Color::Blue,
        Color::Blue,
        Color::Red,
        Color::Red,
        Color::Red,
        Color::Red,
        Color::Blue,
        Color::Blue,
    ]);
    let pattern: Vec<(usize, usize)> = vec![(0, 1), (0, 2), (0, 3), (2, 3)];
    let h = UGraph::from_edges(&pattern);
    let res = has_isomorphic_subgraph(&g, &h);
    assert!(res);
}

#[test]
fn no_subgraph_single_component() {
    let g = host_with([
        Color::Red,
        Color::Red,
        Color::Blue,
        Color::Blue,
        Color::Blue,
        Color::Red,
        Color::Red,
        Color::Red,
        Color::Blue,
        Color::Blue,
    ]);
    let pattern: Vec<(usize, usize)> = vec![(0, 1), (0, 2), (0, 3), (2, 3)];
    let h = UGraph::from_edges(&pattern);
    let res = has_isomorphic_subgraph(&g, &h);
    assert!(!res);
}

#[test]
fn has_subgraph_multiple_components() {
    let g = host_with([
        Color::Red,
        Color::Red,
        Color::Blue,
        Color::Blue,
        Color::Blue,
        Color::Red,
        Color::Red,
        Color::Red,
        Color::Blue,
        Color::Blue,
    ]);
    let pattern: Vec<(usize, usize)> = vec![(0, 1), (0, 2), (0, 3), (2, 3), (4, 5), (5, 6)];
    let h = UGraph::from_edges(&pattern);
    let res = has_isomorphic_subgraph(&g, &h);
    assert!(!res);
}

#[test]
fn no_subgraph_multiple_components() {
    let g = host_with([
        Color::Red,
        Color::Red,
        Color::Blue,
        Color::Blue,
        Color::Blue,
        Color::Red,
        Color::Red,
        Color::Red,
        Color::Blue,
        Color::Blue,
    ]);
    let pattern: Vec<(usize, usize)> = vec![
        (0, 1),
        (0, 2),
        (0, 3),
        (2, 3),
        (4, 5),
        (4, 6),
        (4, 7),
        (6, 7),
    ];
    let h = UGraph::from_edges(&pattern);
    let res = has_isomorphic_subgraph(&g, &h);
    assert!(!res);
}

#[test]
fn separation_finds_planted_triangle() {
    // host: a triangle plus a far-away edge; the pattern triangle is found
    // once a trial colors all three triangle edges red
    let mut g = ColoredGraph::new();
    for _ in 0..5 {
        g.add_node();
    }
    g.add_edge(0, 1, Color::Blue);
    g.add_edge(1, 2, Color::Blue);
    g.add_edge(2, 0, Color::Blue);
    g.add_edge(3, 4, Color::Blue);
    let pattern: Vec<(usize, usize)> = vec![(0, 1), (1, 2), (2, 0)];
    let h = UGraph::from_edges(&pattern);
    assert!(find_subgraph(g, &h, 400));
}

#[test]
fn separation_rejects_absent_pattern() {
    // a path host holds no triangle, so no number of trials finds one
    let mut g = ColoredGraph::new();
    for _ in 0..3 {
        g.add_node();
    }
    g.add_edge(0, 1, Color::Red);
    g.add_edge(1, 2, Color::Red);
    let pattern: Vec<(usize, usize)> = vec![(0, 1), (1, 2), (2, 0)];
    let h = UGraph::from_edges(&pattern);
    assert!(!find_subgraph(g, &h, 60));
}

#[test]
fn separation_zero_repeats_returns_false() {
    let mut g = ColoredGraph::new();
    for _ in 0..3 {
        g.add_node();
    }
    g.add_edge(0, 1, Color::Red);
    g.add_edge(1, 2, Color::Red);
    g.add_edge(2, 0, Color::Red);
    let pattern: Vec<(usize, usize)> = vec![(0, 1), (1, 2), (2, 0)];
    let h = UGraph::from_edges(&pattern);
    assert!(!find_subgraph(g, &h, 0));
}

#[test]
fn colors_compare_by_variant() {
    assert_eq!(Color::Red, Color::Red);
    assert_ne!(Color::Red, Color::Blue);
}

#[test]
fn empty_pattern_always_matches() {
    let mut g = ColoredGraph::new();
    for _ in 0..3 {
        g.add_node();
    }
    g.add_edge(0, 1, Color::Red);
    g.add_edge(1, 2, Color::Blue);
    let pattern: Vec<(usize, usize)> = vec![];
    let h = UGraph::from_edges(&pattern);
    assert!(find_subgraph(g, &h, 1));
}
