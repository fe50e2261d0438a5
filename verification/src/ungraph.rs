use vstd::prelude::*;

verus! {

/// Abstract value of a [`UGraph`]: a node count and the undirected edges in
/// insertion order.
#[verifier::ext_equal]
pub struct UGraphView {
    pub n: nat,
    pub edges: Seq<(usize, usize)>,
}

/// A plain undirected graph over nodes `0 .. n`, as the separation engine
/// uses for pattern graphs, red subgraphs and induced subgraphs.
pub struct UGraph {
    n: usize,
    edges: Vec<(usize, usize)>,
}

impl View for UGraph {
    type V = UGraphView;

    closed spec fn view(&self) -> UGraphView {
        UGraphView { n: self.n as nat, edges: self.edges@ }
    }
}

pub open spec fn ug_wf(g: UGraphView) -> bool {
    forall|i: int|
        0 <= i < g.edges.len() ==> (#[trigger] g.edges[i]).0 < g.n && g.edges[i].1 < g.n
}

/// Node slots needed for every endpoint of `es`: one past the largest.
pub open spec fn ug_needed(es: Seq<(usize, usize)>) -> nat
    decreases es.len(),
{
    if es.len() == 0 {
        0
    } else {
        let rest = ug_needed(es.drop_last());
        let m = if es.last().0 >= es.last().1 {
            es.last().0 as nat + 1
        } else {
            es.last().1 as nat + 1
        };
        if rest >= m {
            rest
        } else {
            m
        }
    }
}

/// A bound on every endpoint bounds the node count a graph built from the
/// edge list will have.
pub proof fn lemma_ug_needed_le(es: Seq<(usize, usize)>, bound: usize)
    requires
        forall|i: int| 0 <= i < es.len() ==> (#[trigger] es[i]).0 < bound && es[i].1 < bound,
    ensures
        ug_needed(es) <= bound,
    decreases es.len(),
{
    if es.len() > 0 {
        assert(es[es.len() - 1] == es.last());
        lemma_ug_needed_le(es.drop_last(), bound);
    }
}

proof fn lemma_ug_needed_bounds(es: Seq<(usize, usize)>)
    ensures
        forall|i: int|
            0 <= i < es.len() ==> (#[trigger] es[i]).0 < ug_needed(es) && es[i].1 < ug_needed(es),
    decreases es.len(),
{
    if es.len() > 0 {
        lemma_ug_needed_bounds(es.drop_last());
        assert forall|i: int|
            0 <= i < es.len() implies (#[trigger] es[i]).0 < ug_needed(es) && es[i].1 < ug_needed(
            es,
        ) by {
            if i < es.len() - 1 {
                assert(es.drop_last()[i] == es[i]);
            }
        }
    }
}

impl UGraph {
    /// A graph with nodes `0 ..= max endpoint` and exactly the given edges.
    pub fn from_edges(list: &Vec<(usize, usize)>) -> (g: UGraph)
        requires
            forall|i: int|
                0 <= i < list@.len() ==> (#[trigger] list@[i]).0 < usize::MAX && list@[i].1
                    < usize::MAX,
        ensures
            ug_wf(g@),
            g@.edges == list@,
            g@.n == ug_needed(list@),
    {
        let mut slots: usize = 0;
        let mut i: usize = 0;
        while i < list.len()
            invariant
                i <= list.len(),
                slots == ug_needed(list@.take(i as int)),
                forall|j: int|
                    0 <= j < list@.len() ==> (#[trigger] list@[j]).0 < usize::MAX && list@[j].1
                        < usize::MAX,
            decreases list.len() - i,
        {
            let (a, b) = list[i];
            proof {
                assert(list@.take(i + 1).drop_last() =~= list@.take(i as int));
            }
            if a >= b {
                if a + 1 > slots {
                    slots = a + 1;
                }
            } else {
                if b + 1 > slots {
                    slots = b + 1;
                }
            }
            i = i + 1;
        }
        proof {
            assert(list@.take(list@.len() as int) =~= list@);
        }
        let mut edges: Vec<(usize, usize)> = Vec::new();
        let mut t: usize = 0;
        while t < list.len()
            invariant
                t <= list.len(),
                edges@ == list@.take(t as int),
            decreases list.len() - t,
        {
            proof {
                assert(list@.take(t + 1) =~= list@.take(t as int).push(list@[t as int]));
            }
            edges.push(list[t]);
            t = t + 1;
        }
        proof {
            assert(list@.take(list@.len() as int) =~= list@);
            lemma_ug_needed_bounds(list@);
        }
        UGraph { n: slots, edges }
    }

    /// Builds a graph directly from already checked parts.
    pub fn from_parts(n: usize, edges: Vec<(usize, usize)>) -> (g: UGraph)
        requires
            forall|i: int|
                0 <= i < edges@.len() ==> (#[trigger] edges@[i]).0 < n && edges@[i].1 < n,
        ensures
            g@.n == n,
            g@.edges == edges@,
            ug_wf(g@),
    {
        UGraph { n, edges }
    }

    pub fn node_count(&self) -> (n: usize)
        ensures
            n == self@.n,
    {
        self.n
    }

    pub fn edge_count(&self) -> (m: usize)
        ensures
            m == self@.edges.len(),
    {
        self.edges.len()
    }

    pub fn edge_at(&self, i: usize) -> (e: (usize, usize))
        requires
            i < self@.edges.len(),
        ensures
            e == self@.edges[i as int],
    {
        self.edges[i]
    }
}

/// The connected components that the component search returns for the graph
/// `(n, edges)`, in the order it reports them. Named only: the exact value
/// comes from the outside component search.
pub uninterp spec fn components_of(n: nat, edges: Seq<(usize, usize)>) -> Seq<Seq<usize>>;

/// Whether the outside isomorphism test accepts the two graphs. Named only:
/// it is a deterministic function of the two graphs.
pub uninterp spec fn isomorphic(
    n1: nat,
    e1: Seq<(usize, usize)>,
    n2: nat,
    e2: Seq<(usize, usize)>,
) -> bool;

/// Relies on petgraph::algo::tarjan_scc: on an undirected graph the strongly
/// connected components are exactly the connected components, each node of
/// the graph lying in exactly one of them (so no component outgrows the node
/// count, and a graph of no nodes yields no components), and the result
/// depends on the graph alone.
#[verifier::external_body]
pub(crate) fn connected_components(g: &UGraph) -> (r: Vec<Vec<usize>>)
    requires
        ug_wf(g@),
        g@.n < 0xFFFF_FFFFusize,
        g@.edges.len() < 0xFFFF_FFFFusize,
    ensures
        r@.map_values(|c: Vec<usize>| c@) == components_of(g@.n, g@.edges),
        forall|a: int| 0 <= a < r@.len() ==> (#[trigger] r@[a])@.len() <= g@.n,
        g@.n == 0 ==> r@.len() == 0,
{
    let mut pg = petgraph::graph::UnGraph::<(), ()>::default();
    for _ in 0..g.n {
        pg.add_node(());
    }
    pg.extend_with_edges(g.edges.iter().map(|e| (e.0 as u32, e.1 as u32)));
    let sccs = petgraph::algo::tarjan_scc(&pg);
    sccs.into_iter().map(|c| c.into_iter().map(|x| x.index()).collect()).collect()
}

/// Relies on petgraph::algo::is_isomorphic: the VF2 structural isomorphism
/// test; its verdict is a deterministic function of the two graphs alone.
/// Its source advises against multigraphs, which red subgraphs here can be;
/// nothing beyond the named verdict itself is therefore claimed of it.
#[verifier::external_body]
pub(crate) fn graphs_isomorphic(a: &UGraph, b: &UGraph) -> (r: bool)
    requires
        ug_wf(a@),
        ug_wf(b@),
        a@.n < 0xFFFF_FFFFusize,
        a@.edges.len() < 0xFFFF_FFFFusize,
        b@.n < 0xFFFF_FFFFusize,
        b@.edges.len() < 0xFFFF_FFFFusize,
    ensures
        r == isomorphic(a@.n, a@.edges, b@.n, b@.edges),
{
    let mut pa = petgraph::graph::UnGraph::<(), ()>::default();
    for _ in 0..a.n {
        pa.add_node(());
    }
    pa.extend_with_edges(a.edges.iter().map(|e| (e.0 as u32, e.1 as u32)));
    let mut pb = petgraph::graph::UnGraph::<(), ()>::default();
    for _ in 0..b.n {
        pb.add_node(());
    }
    pb.extend_with_edges(b.edges.iter().map(|e| (e.0 as u32, e.1 as u32)));
    petgraph::algo::is_isomorphic(&pa, &pb)
}

} // verus!
