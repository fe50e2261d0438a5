use vstd::prelude::*;

verus! {

/// Abstract value of a [`DiGraph`]: one color per node, and the directed
/// edges in insertion order.
#[verifier::ext_equal]
pub struct DiGraphView {
    pub colors: Seq<u32>,
    pub edges: Seq<(usize, usize)>,
}

/// A directed graph whose nodes `0 .. colors.len()` each carry a color.
pub struct DiGraph {
    colors: Vec<u32>,
    edges: Vec<(usize, usize)>,
}

impl View for DiGraph {
    type V = DiGraphView;

    closed spec fn view(&self) -> DiGraphView {
        DiGraphView { colors: self.colors@, edges: self.edges@ }
    }
}

/// Every edge endpoint names a node.
pub open spec fn dg_wf(g: DiGraphView) -> bool {
    forall|i: int| 0 <= i < g.edges.len() ==> {
        &&& (#[trigger] g.edges[i]).0 < g.colors.len()
        &&& g.edges[i].1 < g.colors.len()
    }
}

/// A walk along directed edges; a single node is a walk of one vertex.
pub open spec fn is_path(g: DiGraphView, p: Seq<usize>) -> bool {
    &&& p.len() >= 1
    &&& forall|i: int| 0 <= i < p.len() ==> (#[trigger] p[i]) < g.colors.len()
    &&& forall|i: int|
        0 <= i < p.len() - 1 ==> #[trigger] g.edges.contains((p[i], p[i + 1]))
}

/// All vertices of the walk wear pairwise distinct colors. Because a vertex
/// wears one color, such a walk never revisits a vertex: it is a simple path.
pub open spec fn rainbow(colors: Seq<u32>, p: Seq<usize>) -> bool {
    forall|i: int, j: int|
        #![trigger p[i], p[j]]
        0 <= i < j < p.len() ==> colors[p[i] as int] != colors[p[j] as int]
}

pub open spec fn distinct_nodes(p: Seq<usize>) -> bool {
    forall|i: int, j: int| #![trigger p[i], p[j]] 0 <= i < j < p.len() ==> p[i] != p[j]
}

/// A colorful (rainbow) path of exactly `k` vertices starting at `s`.
pub open spec fn colorful_path_from(g: DiGraphView, k: nat, s: usize, p: Seq<usize>) -> bool {
    is_path(g, p) && p.len() == k && p[0] == s && rainbow(g.colors, p)
}

pub open spec fn has_colorful_path_from(g: DiGraphView, k: nat, s: usize) -> bool {
    exists|p: Seq<usize>| #[trigger] colorful_path_from(g, k, s, p)
}

/// Some colorful path of exactly `k` vertices exists under the current
/// coloring.
pub open spec fn has_colorful_path(g: DiGraphView, k: nat) -> bool {
    exists|p: Seq<usize>| #[trigger] is_path(g, p) && p.len() == k && rainbow(g.colors, p)
}

/// A simple path of exactly `k` distinct vertices, a property of the graph's
/// structure alone.
pub open spec fn has_simple_path(g: DiGraphView, k: nat) -> bool {
    exists|p: Seq<usize>| #[trigger] is_path(g, p) && p.len() == k && distinct_nodes(p)
}

/// Distinct colors force distinct vertices: a colorful walk is simple.
pub proof fn lemma_rainbow_distinct(colors: Seq<u32>, p: Seq<usize>)
    requires
        rainbow(colors, p),
    ensures
        distinct_nodes(p),
{
    assert forall|i: int, j: int|
        #![trigger p[i], p[j]]
        0 <= i < j < p.len() implies p[i] != p[j] by {
        assert(colors[p[i] as int] != colors[p[j] as int]);
    }
}

impl DiGraph {
    pub fn new() -> (g: DiGraph)
        ensures
            g@.colors.len() == 0,
            g@.edges.len() == 0,
            dg_wf(g@),
    {
        DiGraph { colors: Vec::new(), edges: Vec::new() }
    }

    /// Adds a node wearing `color` and returns its identifier.
    pub fn add_node(&mut self, color: u32) -> (v: usize)
        ensures
            final(self)@.colors == old(self)@.colors.push(color),
            final(self)@.edges == old(self)@.edges,
            v == old(self)@.colors.len(),
            dg_wf(old(self)@) ==> dg_wf(final(self)@),
    {
        let v = self.colors.len();
        self.colors.push(color);
        v
    }

    pub fn add_edge(&mut self, a: usize, b: usize)
        requires
            a < old(self)@.colors.len(),
            b < old(self)@.colors.len(),
        ensures
            final(self)@.colors == old(self)@.colors,
            final(self)@.edges == old(self)@.edges.push((a, b)),
            dg_wf(old(self)@) ==> dg_wf(final(self)@),
    {
        self.edges.push((a, b));
        proof {
            if dg_wf(old(self)@) {
                assert forall|i: int| 0 <= i < self@.edges.len() implies {
                    &&& (#[trigger] self@.edges[i]).0 < self@.colors.len()
                    &&& self@.edges[i].1 < self@.colors.len()
                } by {
                    if i < self@.edges.len() - 1 {
                        assert(self@.edges[i] == old(self)@.edges[i]);
                    }
                }
            }
        }
    }

    pub fn node_count(&self) -> (n: usize)
        ensures
            n == self@.colors.len(),
    {
        self.colors.len()
    }

    pub fn edge_count(&self) -> (m: usize)
        ensures
            m == self@.edges.len(),
    {
        self.edges.len()
    }

    pub fn color_at(&self, v: usize) -> (c: u32)
        requires
            v < self@.colors.len(),
        ensures
            c == self@.colors[v as int],
    {
        self.colors[v]
    }

    pub fn edge_at(&self, i: usize) -> (e: (usize, usize))
        requires
            i < self@.edges.len(),
        ensures
            e == self@.edges[i as int],
    {
        self.edges[i]
    }

    pub fn set_color(&mut self, v: usize, c: u32)
        requires
            v < old(self)@.colors.len(),
        ensures
            final(self)@.colors == old(self)@.colors.update(v as int, c),
            final(self)@.edges == old(self)@.edges,
    {
        self.colors.set(v, c);
    }
}

} // verus!
