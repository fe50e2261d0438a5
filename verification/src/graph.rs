use vstd::prelude::*;

verus! {

/// Abstract value of a [`Graph`]: which node slots are occupied, and the
/// sequence of undirected edges in insertion order.
#[verifier::ext_equal]
pub struct GraphView {
    pub present: Seq<bool>,
    pub edges: Seq<(usize, usize)>,
}

/// An undirected multigraph over node slots `0 .. present.len()`.
/// A removed node keeps its slot (the flag turns false) so that the other
/// identifiers stay stable; removing a node drops every incident edge.
/// Parallel edges and self-loops are allowed.
pub struct Graph {
    present: Vec<bool>,
    edges: Vec<(usize, usize)>,
}

impl View for Graph {
    type V = GraphView;

    closed spec fn view(&self) -> GraphView {
        GraphView { present: self.present@, edges: self.edges@ }
    }
}

/// Every edge endpoint names an occupied node slot.
pub open spec fn wf(g: GraphView) -> bool {
    forall|i: int| 0 <= i < g.edges.len() ==> {
        &&& (#[trigger] g.edges[i]).0 < g.present.len()
        &&& g.edges[i].1 < g.present.len()
        &&& g.present[g.edges[i].0 as int]
        &&& g.present[g.edges[i].1 as int]
    }
}

pub open spec fn count_trues(s: Seq<bool>) -> nat
    decreases s.len(),
{
    if s.len() == 0 {
        0
    } else {
        count_trues(s.drop_last()) + (if s.last() {
            1nat
        } else {
            0nat
        })
    }
}

pub open spec fn node_count(g: GraphView) -> nat {
    count_trues(g.present)
}

/// Number of edges with an endpoint at `v`; a self-loop counts once,
/// as when the neighbours of `v` are listed one per incident edge.
pub open spec fn deg_edges(es: Seq<(usize, usize)>, v: usize) -> nat {
    es.filter(|e: (usize, usize)| e.0 == v || e.1 == v).len()
}

pub open spec fn deg(g: GraphView, v: usize) -> nat {
    deg_edges(g.edges, v)
}

pub open spec fn has_loop_edges(es: Seq<(usize, usize)>, v: usize) -> bool {
    es.contains((v, v))
}

pub open spec fn has_loop_at(g: GraphView, v: usize) -> bool {
    has_loop_edges(g.edges, v)
}

/// Number of parallel edges between `a` and `b`, in either orientation.
pub open spec fn pair_mult(es: Seq<(usize, usize)>, a: usize, b: usize) -> nat {
    es.filter(|e: (usize, usize)| e == (a, b) || e == (b, a)).len()
}

/// One flag per node slot: an occupied slot that carries a self-loop.
pub open spec fn loop_flags(g: GraphView) -> Seq<bool> {
    Seq::new(g.present.len(), |i: int| g.present[i] && has_loop_at(g, i as usize))
}

pub open spec fn loop_node_count(g: GraphView) -> nat {
    count_trues(loop_flags(g))
}

pub open spec fn no_loop_nodes(g: GraphView) -> bool {
    forall|v: usize| v < g.present.len() && g.present[v as int] ==> !(#[trigger] has_loop_at(g, v))
}

pub open spec fn multiplicity_capped(g: GraphView) -> bool {
    forall|a: usize, b: usize| #[trigger] pair_mult(g.edges, a, b) <= 2
}

pub open spec fn no_low_degree(g: GraphView) -> bool {
    forall|v: usize| v < g.present.len() && g.present[v as int] ==> #[trigger] deg(g, v) >= 2
}

/// A node can be bypassed when it has exactly two incident edges,
/// neither of them a self-loop.
pub open spec fn no_bypassable(g: GraphView) -> bool {
    forall|v: usize|
        v < g.present.len() && g.present[v as int] ==> !(#[trigger] deg(g, v) == 2
            && !has_loop_at(g, v))
}

/// A fixed point of the kernelization rules: no self-loops, no pair of nodes
/// joined more than twice, no node of degree below two, and no degree-two
/// node that the bypass rule could still remove.
pub open spec fn is_reduced(g: GraphView) -> bool {
    no_loop_nodes(g) && multiplicity_capped(g) && no_low_degree(g) && no_bypassable(g)
}

pub open spec fn drop_incident(es: Seq<(usize, usize)>, v: usize) -> Seq<(usize, usize)> {
    es.filter(|e: (usize, usize)| e.0 != v && e.1 != v)
}

pub open spec fn remove_node_spec(g: GraphView, v: usize) -> GraphView {
    GraphView { present: g.present.update(v as int, false), edges: drop_incident(g.edges, v) }
}

/// Node slots needed to hold every endpoint of `es`: one past the largest.
pub open spec fn needed_slots(es: Seq<(usize, usize)>) -> nat
    decreases es.len(),
{
    if es.len() == 0 {
        0
    } else {
        let rest = needed_slots(es.drop_last());
        let m = if es.last().0 >= es.last().1 {
            es.last().0 as nat + 1
        } else {
            es.last().1 as nat + 1
        };
        if rest >= m {
            rest
        } else {
            m
        }
    }
}

pub proof fn lemma_deg_edges_push(es: Seq<(usize, usize)>, v: usize, x: (usize, usize))
    ensures
        deg_edges(es.push(x), v) == deg_edges(es, v) + (if x.0 == v || x.1 == v {
            1nat
        } else {
            0nat
        }),
{
    reveal(Seq::filter);
    assert(es.push(x).drop_last() =~= es);
}

pub proof fn lemma_drop_incident_push(es: Seq<(usize, usize)>, v: usize, x: (usize, usize))
    ensures
        drop_incident(es.push(x), v) == if x.0 != v && x.1 != v {
            drop_incident(es, v).push(x)
        } else {
            drop_incident(es, v)
        },
{
    reveal(Seq::filter);
    assert(es.push(x).drop_last() =~= es);
}

pub proof fn lemma_pair_mult_push(es: Seq<(usize, usize)>, a: usize, b: usize, x: (usize, usize))
    ensures
        pair_mult(es.push(x), a, b) == pair_mult(es, a, b) + (if x == (a, b) || x == (b, a) {
            1nat
        } else {
            0nat
        }),
{
    reveal(Seq::filter);
    assert(es.push(x).drop_last() =~= es);
}

/// Every edge that survives `drop_incident` was an edge before, and avoids `v`.
pub proof fn lemma_drop_incident_elems(es: Seq<(usize, usize)>, v: usize)
    ensures
        forall|j: int|
            0 <= j < drop_incident(es, v).len() ==> es.contains(#[trigger] drop_incident(es, v)[j])
                && drop_incident(es, v)[j].0 != v && drop_incident(es, v)[j].1 != v,
    decreases es.len(),
{
    reveal(Seq::filter);
    if es.len() > 0 {
        lemma_drop_incident_elems(es.drop_last(), v);
        let d = drop_incident(es, v);
        let dd = drop_incident(es.drop_last(), v);
        assert forall|j: int|
            0 <= j < d.len() implies es.contains(#[trigger] d[j]) && d[j].0 != v && d[j].1
            != v by {
            if j < dd.len() {
                assert(es.contains(d[j])) by {
                    let t = choose|t: int|
                        0 <= t < es.drop_last().len() && es.drop_last()[t] == dd[j];
                    assert(es[t] == d[j]);
                }
            } else {
                assert(d[j] == es.last());
                assert(es[es.len() - 1] == es.last());
            }
        }
    }
}

pub proof fn lemma_take_push<A>(s: Seq<A>, i: int)
    requires
        0 <= i < s.len(),
    ensures
        s.take(i + 1) == s.take(i).push(s[i]),
{
    assert(s.take(i + 1) =~= s.take(i).push(s[i]));
}

pub proof fn lemma_count_trues_take_step(s: Seq<bool>, i: int)
    requires
        0 <= i < s.len(),
    ensures
        count_trues(s.take(i + 1)) == count_trues(s.take(i)) + (if s[i] {
            1nat
        } else {
            0nat
        }),
{
    assert(s.take(i + 1).drop_last() =~= s.take(i));
}

pub proof fn lemma_count_trues_update_false(s: Seq<bool>, i: int)
    requires
        0 <= i < s.len(),
    ensures
        count_trues(s) == count_trues(s.update(i, false)) + (if s[i] {
            1nat
        } else {
            0nat
        }),
    decreases s.len(),
{
    if i == s.len() - 1 {
        assert(s.update(i, false).drop_last() =~= s.drop_last());
    } else {
        assert(s.update(i, false).drop_last() =~= s.drop_last().update(i, false));
        lemma_count_trues_update_false(s.drop_last(), i);
    }
}

/// Splitting a flag sequence into two disjoint ones splits the count.
pub proof fn lemma_count_trues_split(a: Seq<bool>, b: Seq<bool>, c: Seq<bool>)
    requires
        a.len() == b.len() && a.len() == c.len(),
        forall|i: int| 0 <= i < a.len() ==> a[i] == (b[i] || c[i]),
        forall|i: int| 0 <= i < a.len() ==> !(b[i] && #[trigger] c[i]),
    ensures
        count_trues(a) == count_trues(b) + count_trues(c),
    decreases a.len(),
{
    if a.len() > 0 {
        lemma_count_trues_split(a.drop_last(), b.drop_last(), c.drop_last());
    }
}

pub proof fn lemma_count_trues_zero(s: Seq<bool>)
    requires
        count_trues(s) == 0,
    ensures
        forall|i: int| 0 <= i < s.len() ==> !s[i],
    decreases s.len(),
{
    if s.len() > 0 {
        lemma_count_trues_zero(s.drop_last());
        assert forall|i: int| 0 <= i < s.len() implies !s[i] by {
            if i < s.len() - 1 {
                assert(!s.drop_last()[i]);
            } else {
                assert(s[i] == s.last());
            }
        }
    }
}

impl Graph {
    /// A graph with node slots `0 ..= max endpoint` all occupied and exactly
    /// the given edges, the way a graph is usually built from an edge list.
    pub fn from_edges(list: &Vec<(usize, usize)>) -> (g: Graph)
        requires
            forall|i: int|
                0 <= i < list@.len() ==> (#[trigger] list@[i]).0 < usize::MAX && list@[i].1
                    < usize::MAX,
        ensures
            wf(g@),
            g@.edges == list@,
            g@.present.len() == needed_slots(list@),
            forall|i: int| 0 <= i < g@.present.len() ==> g@.present[i],
    {
        let mut slots: usize = 0;
        let mut i: usize = 0;
        while i < list.len()
            invariant
                i <= list.len(),
                slots == needed_slots(list@.take(i as int)),
                forall|j: int|
                    0 <= j < list@.len() ==> (#[trigger] list@[j]).0 < usize::MAX && list@[j].1
                        < usize::MAX,
            decreases list.len() - i,
        {
            let (a, b) = list[i];
            proof {
                assert(list@.take(i + 1).drop_last() =~= list@.take(i as int));
            }
            if a >= b {
                if a + 1 > slots {
                    slots = a + 1;
                }
            } else {
                if b + 1 > slots {
                    slots = b + 1;
                }
            }
            i = i + 1;
        }
        proof {
            assert(list@.take(list@.len() as int) =~= list@);
        }
        let mut present: Vec<bool> = Vec::new();
        let mut j: usize = 0;
        while j < slots
            invariant
                j <= slots,
                present@.len() == j,
                forall|t: int| 0 <= t < j ==> present@[t],
            decreases slots - j,
        {
            present.push(true);
            j = j + 1;
        }
        let mut edges: Vec<(usize, usize)> = Vec::new();
        let mut t: usize = 0;
        while t < list.len()
            invariant
                t <= list.len(),
                edges@ == list@.take(t as int),
            decreases list.len() - t,
        {
            proof {
                assert(list@.take(t + 1) =~= list@.take(t as int).push(list@[t as int]));
            }
            edges.push(list[t]);
            t = t + 1;
        }
        proof {
            assert(list@.take(list@.len() as int) =~= list@);
        }
        let g = Graph { present, edges };
        proof {
            lemma_needed_slots_bounds(list@);
        }
        g
    }

    pub fn node_count(&self) -> (n: usize)
        ensures
            n == node_count(self@),
    {
        let mut n: usize = 0;
        let mut i: usize = 0;
        while i < self.present.len()
            invariant
                i <= self.present.len(),
                n == count_trues(self@.present.take(i as int)),
                n <= i,
            decreases self.present.len() - i,
        {
            proof {
                lemma_count_trues_take_step(self@.present, i as int);
            }
            if self.present[i] {
                n = n + 1;
            }
            i = i + 1;
        }
        proof {
            assert(self@.present.take(self@.present.len() as int) =~= self@.present);
        }
        n
    }

    pub fn edge_count(&self) -> (m: usize)
        ensures
            m == self@.edges.len(),
    {
        self.edges.len()
    }

    pub fn edge_at(&self, i: usize) -> (e: (usize, usize))
        requires
            i < self@.edges.len(),
        ensures
            e == self@.edges[i as int],
    {
        self.edges[i]
    }

    /// Number of node slots, occupied or not.
    pub fn slot_count(&self) -> (n: usize)
        ensures
            n == self@.present.len(),
    {
        self.present.len()
    }

    pub fn is_present(&self, v: usize) -> (p: bool)
        requires
            v < self@.present.len(),
        ensures
            p == self@.present[v as int],
    {
        self.present[v]
    }

    /// Number of edges incident to `v`, a self-loop counted once.
    pub fn degree(&self, v: usize) -> (d: usize)
        ensures
            d == deg(self@, v),
    {
        let mut d: usize = 0;
        let mut i: usize = 0;
        while i < self.edges.len()
            invariant
                i <= self.edges.len(),
                d == deg_edges(self@.edges.take(i as int), v),
                d <= i,
            decreases self.edges.len() - i,
        {
            proof {
                lemma_take_push(self@.edges, i as int);
                lemma_deg_edges_push(self@.edges.take(i as int), v, self@.edges[i as int]);
            }
            let e = self.edges[i];
            if e.0 == v || e.1 == v {
                d = d + 1;
            }
            i = i + 1;
        }
        proof {
            assert(self@.edges.take(self@.edges.len() as int) =~= self@.edges);
        }
        d
    }

    pub fn has_loop(&self, v: usize) -> (r: bool)
        ensures
            r == has_loop_at(self@, v),
    {
        let mut i: usize = 0;
        while i < self.edges.len()
            invariant
                i <= self.edges.len(),
                forall|j: int| 0 <= j < i ==> self@.edges[j] != (v, v),
            decreases self.edges.len() - i,
        {
            let e = self.edges[i];
            if e.0 == v && e.1 == v {
                assert(has_loop_at(self@, v));
                return true;
            }
            i = i + 1;
        }
        assert(!has_loop_at(self@, v)) by {
            if self@.edges.contains((v, v)) {
                let j = choose|j: int| 0 <= j < self@.edges.len() && self@.edges[j] == (v, v);
            }
        }
        false
    }

    /// An exact copy, so that one trial can work on scratch state.
    pub fn duplicate(&self) -> (g: Graph)
        ensures
            g@ == self@,
    {
        let mut present: Vec<bool> = Vec::new();
        let mut i: usize = 0;
        while i < self.present.len()
            invariant
                i <= self.present.len(),
                present@ == self@.present.take(i as int),
            decreases self.present.len() - i,
        {
            proof {
                lemma_take_push(self@.present, i as int);
            }
            present.push(self.present[i]);
            i = i + 1;
        }
        let mut edges: Vec<(usize, usize)> = Vec::new();
        let mut t: usize = 0;
        while t < self.edges.len()
            invariant
                t <= self.edges.len(),
                edges@ == self@.edges.take(t as int),
            decreases self.edges.len() - t,
        {
            proof {
                lemma_take_push(self@.edges, t as int);
            }
            edges.push(self.edges[t]);
            t = t + 1;
        }
        proof {
            assert(self@.present.take(self@.present.len() as int) =~= self@.present);
            assert(self@.edges.take(self@.edges.len() as int) =~= self@.edges);
            assert(Graph { present, edges }@ =~= self@);
        }
        Graph { present, edges }
    }

    /// Clears the slot of `v` and drops every incident edge.
    pub fn remove_node(&mut self, v: usize)
        requires
            wf(old(self)@),
            v < old(self)@.present.len(),
        ensures
            final(self)@ == remove_node_spec(old(self)@, v),
            wf(final(self)@),
            node_count(final(self)@) == node_count(old(self)@) - (if old(self)@.present[v as int] {
                1nat
            } else {
                0nat
            }),
    {
        let mut edges: Vec<(usize, usize)> = Vec::new();
        let mut i: usize = 0;
        while i < self.edges.len()
            invariant
                i <= self.edges.len(),
                edges@ == drop_incident(self@.edges.take(i as int), v),
            decreases self.edges.len() - i,
        {
            proof {
                lemma_take_push(self@.edges, i as int);
                lemma_drop_incident_push(self@.edges.take(i as int), v, self@.edges[i as int]);
            }
            let e = self.edges[i];
            if e.0 != v && e.1 != v {
                edges.push(e);
            }
            i = i + 1;
        }
        proof {
            assert(self@.edges.take(self@.edges.len() as int) =~= self@.edges);
        }
        self.edges = edges;
        self.present.set(v, false);
        proof {
            lemma_count_trues_update_false(old(self)@.present, v as int);
            assert(self@ =~= remove_node_spec(old(self)@, v));
            lemma_drop_incident_elems(old(self)@.edges, v);
            assert forall|j: int| 0 <= j < self@.edges.len() implies {
                &&& (#[trigger] self@.edges[j]).0 < self@.present.len()
                &&& self@.edges[j].1 < self@.present.len()
                &&& self@.present[self@.edges[j].0 as int]
                &&& self@.present[self@.edges[j].1 as int]
            } by {
                let e = self@.edges[j];
                assert(old(self)@.edges.contains(e));
                let t = choose|t: int|
                    0 <= t < old(self)@.edges.len() && old(self)@.edges[t] == e;
            }
        }
    }
}

/// Position that the edge at index `i` takes in `drop_incident(es, v)`,
/// when it survives: the number of surviving edges before it.
pub open spec fn kept_pos(es: Seq<(usize, usize)>, v: usize, i: int) -> int {
    drop_incident(es.take(i), v).len() as int
}

pub proof fn lemma_drop_incident_take_mono(es: Seq<(usize, usize)>, v: usize, t1: int, t2: int)
    requires
        0 <= t1 <= t2 <= es.len(),
    ensures
        drop_incident(es.take(t1), v).len() <= drop_incident(es.take(t2), v).len(),
    decreases t2 - t1,
{
    if t1 < t2 {
        lemma_drop_incident_take_mono(es, v, t1, t2 - 1);
        assert(es.take(t2) =~= es.take(t2 - 1).push(es[t2 - 1]));
        lemma_drop_incident_push(es.take(t2 - 1), v, es[t2 - 1]);
    }
}

/// A surviving edge keeps its value at its new position.
pub proof fn lemma_kept_pos_valid(es: Seq<(usize, usize)>, v: usize, i: int)
    requires
        0 <= i < es.len(),
        es[i].0 != v && es[i].1 != v,
    ensures
        0 <= kept_pos(es, v, i) < drop_incident(es, v).len(),
        drop_incident(es, v)[kept_pos(es, v, i)] == es[i],
    decreases es.len(),
{
    let dl = es.drop_last();
    assert(dl.push(es.last()) =~= es);
    lemma_drop_incident_push(dl, v, es.last());
    if i == es.len() - 1 {
        assert(es.take(i) =~= dl);
    } else {
        assert(es.take(i) =~= dl.take(i));
        lemma_kept_pos_valid(dl, v, i);
    }
}

/// Distinct surviving edges take distinct new positions, in order.
pub proof fn lemma_kept_pos_strict(es: Seq<(usize, usize)>, v: usize, i: int, j: int)
    requires
        0 <= i < j < es.len(),
        es[i].0 != v && es[i].1 != v,
    ensures
        kept_pos(es, v, i) < kept_pos(es, v, j),
{
    lemma_drop_incident_take_mono(es, v, i + 1, j);
    assert(es.take(i + 1) =~= es.take(i).push(es[i]));
    lemma_drop_incident_push(es.take(i), v, es[i]);
}

pub proof fn lemma_incident_deg_one(es: Seq<(usize, usize)>, v: usize, i: int)
    requires
        0 <= i < es.len(),
        es[i].0 == v || es[i].1 == v,
    ensures
        deg_edges(es, v) >= 1,
    decreases es.len(),
{
    let dl = es.drop_last();
    assert(dl.push(es.last()) =~= es);
    lemma_deg_edges_push(dl, v, es.last());
    if i < es.len() - 1 {
        lemma_incident_deg_one(dl, v, i);
    }
}

/// Two distinct incident edges force degree at least two.
pub proof fn lemma_incident_deg_two(es: Seq<(usize, usize)>, v: usize, i: int, j: int)
    requires
        0 <= i < j < es.len(),
        es[i].0 == v || es[i].1 == v,
        es[j].0 == v || es[j].1 == v,
    ensures
        deg_edges(es, v) >= 2,
    decreases es.len(),
{
    let dl = es.drop_last();
    assert(dl.push(es.last()) =~= es);
    lemma_deg_edges_push(dl, v, es.last());
    if j < es.len() - 1 {
        lemma_incident_deg_two(dl, v, i, j);
    } else {
        lemma_incident_deg_one(dl, v, i);
    }
}

/// Edges neither endpoint of which lies on a self-loop of `g`.
pub open spec fn filter_non_loop(es: Seq<(usize, usize)>, g: GraphView) -> Seq<(usize, usize)> {
    es.filter(|e: (usize, usize)| !has_loop_at(g, e.0) && !has_loop_at(g, e.1))
}

pub proof fn lemma_filter_non_loop_push(es: Seq<(usize, usize)>, g: GraphView, x: (usize, usize))
    ensures
        filter_non_loop(es.push(x), g) == if !has_loop_at(g, x.0) && !has_loop_at(g, x.1) {
            filter_non_loop(es, g).push(x)
        } else {
            filter_non_loop(es, g)
        },
{
    reveal(Seq::filter);
    assert(es.push(x).drop_last() =~= es);
}

pub proof fn lemma_filter_non_loop_elems(es: Seq<(usize, usize)>, g: GraphView)
    ensures
        filter_non_loop(es, g).len() <= es.len(),
        forall|j: int|
            0 <= j < filter_non_loop(es, g).len() ==> es.contains(
                #[trigger] filter_non_loop(es, g)[j],
            ) && !has_loop_at(g, filter_non_loop(es, g)[j].0) && !has_loop_at(
                g,
                filter_non_loop(es, g)[j].1,
            ),
    decreases es.len(),
{
    reveal(Seq::filter);
    if es.len() > 0 {
        lemma_filter_non_loop_elems(es.drop_last(), g);
        let d = filter_non_loop(es, g);
        let dd = filter_non_loop(es.drop_last(), g);
        assert forall|j: int|
            0 <= j < d.len() implies es.contains(#[trigger] d[j]) && !has_loop_at(g, d[j].0)
            && !has_loop_at(g, d[j].1) by {
            if j < dd.len() {
                assert(es.contains(d[j])) by {
                    let t = choose|t: int|
                        0 <= t < es.drop_last().len() && es.drop_last()[t] == dd[j];
                    assert(es[t] == d[j]);
                }
            } else {
                assert(d[j] == es.last());
                assert(es[es.len() - 1] == es.last());
            }
        }
    }
}

pub proof fn lemma_filter_non_loop_all(es: Seq<(usize, usize)>, g: GraphView)
    requires
        forall|i: int|
            0 <= i < es.len() ==> !has_loop_at(g, (#[trigger] es[i]).0) && !has_loop_at(
                g,
                es[i].1,
            ),
    ensures
        filter_non_loop(es, g) == es,
    decreases es.len(),
{
    reveal(Seq::filter);
    if es.len() > 0 {
        lemma_filter_non_loop_all(es.drop_last(), g);
        assert(es[es.len() - 1] == es.last());
        assert(es.drop_last().push(es.last()) =~= es);
    }
}

pub proof fn lemma_count_trues_all_false(s: Seq<bool>)
    requires
        forall|i: int| 0 <= i < s.len() ==> !s[i],
    ensures
        count_trues(s) == 0,
    decreases s.len(),
{
    if s.len() > 0 {
        lemma_count_trues_all_false(s.drop_last());
    }
}

pub proof fn lemma_pair_mult_sym(es: Seq<(usize, usize)>, a: usize, b: usize)
    ensures
        pair_mult(es, a, b) == pair_mult(es, b, a),
    decreases es.len(),
{
    reveal(Seq::filter);
    if es.len() > 0 {
        lemma_pair_mult_sym(es.drop_last(), a, b);
    }
}

/// The edge list kept when each pair of endpoints may be joined at most
/// twice: an edge survives when fewer than two earlier survivors already
/// join the same pair.
pub open spec fn cap2(es: Seq<(usize, usize)>) -> Seq<(usize, usize)>
    decreases es.len(),
{
    if es.len() == 0 {
        es
    } else {
        let prev = cap2(es.drop_last());
        if pair_mult(prev, es.last().0, es.last().1) < 2 {
            prev.push(es.last())
        } else {
            prev
        }
    }
}

pub proof fn lemma_cap2_len(es: Seq<(usize, usize)>)
    ensures
        cap2(es).len() <= es.len(),
    decreases es.len(),
{
    if es.len() > 0 {
        lemma_cap2_len(es.drop_last());
    }
}

/// A capped list that kept its length kept every edge.
pub proof fn lemma_cap2_full_len_identity(es: Seq<(usize, usize)>)
    requires
        cap2(es).len() == es.len(),
    ensures
        cap2(es) == es,
    decreases es.len(),
{
    if es.len() > 0 {
        let prev = cap2(es.drop_last());
        lemma_cap2_len(es.drop_last());
        if pair_mult(prev, es.last().0, es.last().1) < 2 {
            lemma_cap2_full_len_identity(es.drop_last());
            assert(es.drop_last().push(es.last()) =~= es);
        }
    }
}

/// When no pair is joined more than twice, capping changes nothing.
pub proof fn lemma_cap2_noop(es: Seq<(usize, usize)>)
    requires
        forall|a: usize, b: usize| #[trigger] pair_mult(es, a, b) <= 2,
    ensures
        cap2(es) == es,
    decreases es.len(),
{
    if es.len() > 0 {
        let dl = es.drop_last();
        assert(dl.push(es.last()) =~= es);
        assert forall|a: usize, b: usize| #[trigger] pair_mult(dl, a, b) <= 2 by {
            lemma_pair_mult_push(dl, a, b, es.last());
        }
        lemma_cap2_noop(dl);
        let x = es.last();
        lemma_pair_mult_push(dl, x.0, x.1, x);
        assert(pair_mult(dl, x.0, x.1) < 2);
        assert(dl.push(x) =~= es);
    }
}

/// Capping that changed nothing certifies that no pair was joined more
/// than twice to begin with.
pub proof fn lemma_cap2_identity_capped(es: Seq<(usize, usize)>)
    requires
        cap2(es) == es,
    ensures
        forall|a: usize, b: usize| #[trigger] pair_mult(es, a, b) <= 2,
    decreases es.len(),
{
    if es.len() > 0 {
        let dl = es.drop_last();
        let x = es.last();
        let prev = cap2(dl);
        lemma_cap2_len(dl);
        if pair_mult(prev, x.0, x.1) < 2 {
            assert(prev.push(x) == es);
            assert(prev.push(x).drop_last() =~= prev);
            assert(prev == dl);
            lemma_cap2_identity_capped(dl);
            assert forall|a: usize, b: usize| #[trigger] pair_mult(es, a, b) <= 2 by {
                lemma_pair_mult_push(dl, a, b, x);
                if x == (a, b) || x == (b, a) {
                    lemma_pair_mult_sym(dl, a, b);
                }
            }
        } else {
            assert(prev == es);
            assert(false);
        }
    }
}

/// Capping never leaves a pair joined more than twice.
pub proof fn lemma_cap2_capped(es: Seq<(usize, usize)>)
    ensures
        forall|a: usize, b: usize| #[trigger] pair_mult(cap2(es), a, b) <= 2,
    decreases es.len(),
{
    if es.len() > 0 {
        let dl = es.drop_last();
        lemma_cap2_capped(dl);
        let prev = cap2(dl);
        let x = es.last();
        if pair_mult(prev, x.0, x.1) < 2 {
            assert forall|a: usize, b: usize| #[trigger] pair_mult(cap2(es), a, b) <= 2 by {
                lemma_pair_mult_push(prev, a, b, x);
                if x == (a, b) || x == (b, a) {
                    lemma_pair_mult_sym(prev, a, b);
                }
            }
        }
    }
}

pub proof fn lemma_cap2_elems(es: Seq<(usize, usize)>)
    ensures
        forall|j: int| 0 <= j < cap2(es).len() ==> es.contains(#[trigger] cap2(es)[j]),
    decreases es.len(),
{
    if es.len() > 0 {
        lemma_cap2_elems(es.drop_last());
        let d = cap2(es);
        let dd = cap2(es.drop_last());
        assert forall|j: int| 0 <= j < d.len() implies es.contains(#[trigger] d[j]) by {
            if j < dd.len() {
                assert(dd[j] == d[j]);
                let t = choose|t: int|
                    0 <= t < es.drop_last().len() && es.drop_last()[t] == dd[j];
                assert(es[t] == d[j]);
            } else {
                assert(d[j] == es.last());
                assert(es[es.len() - 1] == es.last());
            }
        }
    }
}

impl Graph {
    /// Adds an undirected edge between two occupied slots.
    pub fn add_edge(&mut self, a: usize, b: usize)
        requires
            wf(old(self)@),
            a < old(self)@.present.len(),
            b < old(self)@.present.len(),
            old(self)@.present[a as int],
            old(self)@.present[b as int],
        ensures
            wf(final(self)@),
            final(self)@.present == old(self)@.present,
            final(self)@.edges == old(self)@.edges.push((a, b)),
    {
        self.edges.push((a, b));
        proof {
            assert forall|j: int| 0 <= j < self@.edges.len() implies {
                &&& (#[trigger] self@.edges[j]).0 < self@.present.len()
                &&& self@.edges[j].1 < self@.present.len()
                &&& self@.present[self@.edges[j].0 as int]
                &&& self@.present[self@.edges[j].1 as int]
            } by {
                if j < self@.edges.len() - 1 {
                    assert(self@.edges[j] == old(self)@.edges[j]);
                } else {
                    assert(self@.edges[j] == (a, b));
                }
            }
        }
    }

    /// Number of parallel edges between `a` and `b`, in either orientation.
    pub fn count_pair(&self, a: usize, b: usize) -> (c: usize)
        ensures
            c == pair_mult(self@.edges, a, b),
    {
        let mut c: usize = 0;
        let mut i: usize = 0;
        while i < self.edges.len()
            invariant
                i <= self.edges.len(),
                c == pair_mult(self@.edges.take(i as int), a, b),
                c <= i,
            decreases self.edges.len() - i,
        {
            proof {
                lemma_take_push(self@.edges, i as int);
                lemma_pair_mult_push(self@.edges.take(i as int), a, b, self@.edges[i as int]);
            }
            let e = self.edges[i];
            if (e.0 == a && e.1 == b) || (e.0 == b && e.1 == a) {
                c = c + 1;
            }
            i = i + 1;
        }
        proof {
            assert(self@.edges.take(self@.edges.len() as int) =~= self@.edges);
        }
        c
    }

    /// Kernelization rule: remove every node that carries a self-loop,
    /// together with all its incident edges. Returns how many nodes went,
    /// each of which any feedback vertex set must pay for.
    pub fn remove_loop_nodes(&mut self) -> (removed: usize)
        requires
            wf(old(self)@),
        ensures
            wf(final(self)@),
            final(self)@.present.len() == old(self)@.present.len(),
            removed == loop_node_count(old(self)@),
            node_count(final(self)@) == node_count(old(self)@) - removed,
            final(self)@.edges.len() <= old(self)@.edges.len(),
            removed == 0 ==> final(self)@ == old(self)@,
            no_loop_nodes(final(self)@),
            forall|i: int|
                0 <= i < final(self)@.present.len() ==> final(self)@.present[i]
                    == (old(self)@.present[i] && !has_loop_at(old(self)@, i as usize)),
            final(self)@.edges == filter_non_loop(old(self)@.edges, old(self)@),
            final(self)@ == loops_removed(old(self)@),
    {
        let ghost g0 = self@;
        let mut removed: usize = 0;
        let mut present: Vec<bool> = Vec::new();
        let mut v: usize = 0;
        while v < self.present.len()
            invariant
                wf(g0),
                g0 == self@,
                v <= g0.present.len(),
                removed == count_trues(loop_flags(g0).take(v as int)),
                removed <= v,
                present@.len() == v,
                forall|t: int| 0 <= t < v ==> present@[t] == (g0.present[t] && !loop_flags(g0)[t]),
            decreases self.present.len() - v,
        {
            proof {
                lemma_count_trues_take_step(loop_flags(g0), v as int);
            }
            let p = self.present[v];
            let lp = self.has_loop(v);
            if p && lp {
                removed = removed + 1;
                present.push(false);
            } else {
                present.push(p);
            }
            v = v + 1;
        }
        proof {
            assert(loop_flags(g0).take(loop_flags(g0).len() as int) =~= loop_flags(g0));
        }
        let mut edges: Vec<(usize, usize)> = Vec::new();
        let mut i: usize = 0;
        while i < self.edges.len()
            invariant
                wf(g0),
                g0 == self@,
                i <= g0.edges.len(),
                edges@ == filter_non_loop(g0.edges.take(i as int), g0),
                edges@.len() <= i,
            decreases self.edges.len() - i,
        {
            proof {
                lemma_take_push(self@.edges, i as int);
                lemma_filter_non_loop_push(g0.edges.take(i as int), g0, g0.edges[i as int]);
            }
            let e = self.edges[i];
            let l0 = self.has_loop(e.0);
            let l1 = self.has_loop(e.1);
            if !l0 && !l1 {
                edges.push(e);
            }
            i = i + 1;
        }
        proof {
            assert(g0.edges.take(g0.edges.len() as int) =~= g0.edges);
        }
        self.present = present;
        self.edges = edges;
        proof {
            lemma_remove_loop_nodes_post(g0, self@, removed as nat);
            assert(self@ =~= loops_removed(g0));
        }
        removed
    }

    /// Kernelization rule: cap the number of parallel edges between any two
    /// nodes at two; further copies cannot affect whether a cycle exists.
    pub fn cap_multiplicity(&mut self)
        requires
            wf(old(self)@),
        ensures
            wf(final(self)@),
            final(self)@.present == old(self)@.present,
            final(self)@.edges == cap2(old(self)@.edges),
            final(self)@ == capped(old(self)@),
            multiplicity_capped(final(self)@),
            final(self)@.edges.len() <= old(self)@.edges.len(),
            final(self)@.edges.len() == old(self)@.edges.len() ==> final(self)@ == old(self)@
                && multiplicity_capped(final(self)@),
            multiplicity_capped(old(self)@) ==> final(self)@ == old(self)@,
    {
        let ghost g0 = self@;
        let mut edges: Vec<(usize, usize)> = Vec::new();
        let mut i: usize = 0;
        while i < self.edges.len()
            invariant
                g0 == self@,
                i <= g0.edges.len(),
                edges@ == cap2(g0.edges.take(i as int)),
                edges@.len() <= i,
            decreases self.edges.len() - i,
        {
            proof {
                lemma_take_push(self@.edges, i as int);
                assert(g0.edges.take(i + 1).drop_last() =~= g0.edges.take(i as int));
            }
            let e = self.edges[i];
            let c = Graph::count_pair_in(&edges, e.0, e.1);
            if c < 2 {
                edges.push(e);
            }
            i = i + 1;
        }
        proof {
            assert(g0.edges.take(g0.edges.len() as int) =~= g0.edges);
        }
        self.edges = edges;
        proof {
            assert(self@.edges == cap2(g0.edges));
            lemma_cap2_elems(g0.edges);
            assert forall|j: int| 0 <= j < self@.edges.len() implies {
                &&& (#[trigger] self@.edges[j]).0 < self@.present.len()
                &&& self@.edges[j].1 < self@.present.len()
                &&& self@.present[self@.edges[j].0 as int]
                &&& self@.present[self@.edges[j].1 as int]
            } by {
                let e = self@.edges[j];
                assert(g0.edges.contains(e));
                let t = choose|t: int| 0 <= t < g0.edges.len() && g0.edges[t] == e;
            }
            lemma_cap2_len(g0.edges);
            lemma_cap2_capped(g0.edges);
            if self@.edges.len() == g0.edges.len() {
                lemma_cap2_full_len_identity(g0.edges);
                lemma_cap2_identity_capped(g0.edges);
                assert(self@ =~= g0);
            }
            if multiplicity_capped(g0) {
                lemma_cap2_noop(g0.edges);
                assert(self@ =~= g0);
            }
            assert(self@ =~= capped(g0));
        }
    }

    /// Helper for the multiplicity cap: pair count within a scratch list.
    fn count_pair_in(es: &Vec<(usize, usize)>, a: usize, b: usize) -> (c: usize)
        ensures
            c == pair_mult(es@, a, b),
    {
        let mut c: usize = 0;
        let mut i: usize = 0;
        while i < es.len()
            invariant
                i <= es.len(),
                c == pair_mult(es@.take(i as int), a, b),
                c <= i,
            decreases es.len() - i,
        {
            proof {
                lemma_take_push(es@, i as int);
                lemma_pair_mult_push(es@.take(i as int), a, b, es@[i as int]);
            }
            let e = es[i];
            if (e.0 == a && e.1 == b) || (e.0 == b && e.1 == a) {
                c = c + 1;
            }
            i = i + 1;
        }
        proof {
            assert(es@.take(es@.len() as int) =~= es@);
        }
        c
    }

    /// First occupied slot whose degree is at most one, if any.
    fn find_low_degree(&self) -> (r: Option<usize>)
        ensures
            match r {
                Some(v) => v < self@.present.len() && self@.present[v as int] && deg(self@, v)
                    <= 1 && v as int == first_low_from(self@, 0),
                None => no_low_degree(self@) && first_low_from(self@, 0) == -1,
            },
    {
        let mut v: usize = 0;
        while v < self.present.len()
            invariant
                v <= self@.present.len(),
                forall|t: usize| t < v && self@.present[t as int] ==> #[trigger] deg(self@, t) >= 2,
                first_low_from(self@, 0) == first_low_from(self@, v as int),
            decreases self.present.len() - v,
        {
            if self.present[v] {
                let d = self.degree(v);
                if d <= 1 {
                    return Some(v);
                }
            }
            v = v + 1;
        }
        None
    }

    /// Kernelization rule: repeatedly remove nodes of degree at most one;
    /// such a node can lie on no cycle.
    pub fn remove_low_degree_nodes(&mut self)
        requires
            wf(old(self)@),
        ensures
            wf(final(self)@),
            final(self)@.present.len() == old(self)@.present.len(),
            node_count(final(self)@) <= node_count(old(self)@),
            final(self)@.edges.len() <= old(self)@.edges.len(),
            no_low_degree(final(self)@),
            node_count(final(self)@) == node_count(old(self)@) ==> final(self)@ == old(self)@,
            no_low_degree(old(self)@) ==> final(self)@ == old(self)@,
            forall|i: int|
                0 <= i < final(self)@.present.len() && final(self)@.present[i]
                    ==> old(self)@.present[i],
            final(self)@ == peel_all(old(self)@),
    {
        let ghost g0 = self@;
        let slots = self.present.len();
        let mut done = false;
        while !done
            invariant
                wf(self@),
                slots == g0.present.len(),
                self@.present.len() <= usize::MAX,
                self@.present.len() == g0.present.len(),
                node_count(self@) <= node_count(g0),
                self@.edges.len() <= g0.edges.len(),
                self@ == g0 || node_count(self@) < node_count(g0),
                no_low_degree(g0) ==> self@ == g0,
                done ==> no_low_degree(self@),
                done ==> self@ == peel_all(self@),
                peel_all(self@) == peel_all(g0),
                forall|i: int| 0 <= i < self@.present.len() && self@.present[i] ==> g0.present[i],
                wf(g0),
            decreases node_count(self@), (if done {
                0int
            } else {
                1int
            }),
        {
            match self.find_low_degree() {
                None => {
                    done = true;
                },
                Some(v) => {
                    proof {
                        lemma_drop_incident_elems(self@.edges, v);
                        self@.edges.lemma_filter_len(
                            |e: (usize, usize)| e.0 != v && e.1 != v,
                        );
                    }
                    self.remove_node(v);
                },
            }
        }
    }

    /// First occupied slot with exactly two incident edges and no self-loop,
    /// together with the far endpoints of those two edges.
    fn find_bypass(&self) -> (r: Option<(usize, usize, usize)>)
        requires
            wf(self@),
        ensures
            match r {
                Some(t) => {
                    &&& t.0 < self@.present.len() && self@.present[t.0 as int]
                    &&& deg(self@, t.0) == 2 && !has_loop_at(self@, t.0)
                    &&& t.1 < self@.present.len() && self@.present[t.1 as int] && t.1 != t.0
                    &&& t.2 < self@.present.len() && self@.present[t.2 as int] && t.2 != t.0
                    &&& t.0 as int == first_bypass_from(self@, 0)
                    &&& t.1 == incident_others(self@.edges, t.0)[0]
                    &&& t.2 == incident_others(self@.edges, t.0)[1]
                },
                None => no_bypassable(self@) && first_bypass_from(self@, 0) == -1,
            },
    {
        let mut v: usize = 0;
        while v < self.present.len()
            invariant
                wf(self@),
                v <= self@.present.len(),
                forall|t: usize|
                    t < v && self@.present[t as int] ==> !(#[trigger] deg(self@, t) == 2
                        && !has_loop_at(self@, t)),
                first_bypass_from(self@, 0) == first_bypass_from(self@, v as int),
            decreases self.present.len() - v,
        {
            if self.present[v] {
                let lp = self.has_loop(v);
                if !lp {
                    let d = self.degree(v);
                    if d == 2 {
                        let (a, b) = self.two_neighbors(v);
                        return Some((v, a, b));
                    }
                }
            }
            v = v + 1;
        }
        None
    }

    /// The far endpoints of the two incident edges of a loop-free node of
    /// degree exactly two.
    fn two_neighbors(&self, v: usize) -> (r: (usize, usize))
        requires
            wf(self@),
            v < self@.present.len(),
            deg(self@, v) == 2,
            !has_loop_at(self@, v),
        ensures
            r.0 < self@.present.len() && self@.present[r.0 as int] && r.0 != v,
            r.1 < self@.present.len() && self@.present[r.1 as int] && r.1 != v,
            r.0 == incident_others(self@.edges, v)[0],
            r.1 == incident_others(self@.edges, v)[1],
    {
        let mut a: usize = 0;
        let mut b: usize = 0;
        let mut found: usize = 0;
        let mut i: usize = 0;
        while i < self.edges.len()
            invariant
                wf(self@),
                v < self@.present.len(),
                !has_loop_at(self@, v),
                i <= self@.edges.len(),
                found == deg_edges(self@.edges.take(i as int), v),
                incident_others(self@.edges.take(i as int), v).len() == found,
                found >= 1 ==> a < self@.present.len() && self@.present[a as int] && a != v && a
                    == incident_others(self@.edges.take(i as int), v)[0],
                found >= 2 ==> b < self@.present.len() && self@.present[b as int] && b != v && b
                    == incident_others(self@.edges.take(i as int), v)[1],
            decreases self.edges.len() - i,
        {
            proof {
                lemma_take_push(self@.edges, i as int);
                lemma_deg_edges_push(self@.edges.take(i as int), v, self@.edges[i as int]);
                assert(self@.edges.take(i as int).push(self@.edges[i as int]).drop_last()
                    =~= self@.edges.take(i as int));
            }
            let e = self.edges[i];
            if e.0 == v || e.1 == v {
                proof {
                    if e.0 == v && e.1 == v {
                        assert(self@.edges[i as int] == (v, v));
                        assert(self@.edges.contains((v, v)));
                    }
                }
                let other = if e.0 == v {
                    e.1
                } else {
                    e.0
                };
                if found == 0 {
                    a = other;
                } else if found == 1 {
                    b = other;
                }
                found = found + 1;
            }
            i = i + 1;
        }
        proof {
            assert(self@.edges.take(self@.edges.len() as int) =~= self@.edges);
        }
        (a, b)
    }

    /// Kernelization rule: repeatedly bypass a loop-free node of degree two,
    /// joining its two far endpoints directly; the bypass spends no budget.
    pub fn bypass_degree_two_nodes(&mut self)
        requires
            wf(old(self)@),
        ensures
            wf(final(self)@),
            final(self)@.present.len() == old(self)@.present.len(),
            node_count(final(self)@) <= node_count(old(self)@),
            node_count(old(self)@) - node_count(final(self)@) == old(self)@.edges.len()
                - final(self)@.edges.len(),
            no_bypassable(final(self)@),
            node_count(final(self)@) == node_count(old(self)@) ==> final(self)@ == old(self)@,
            no_bypassable(old(self)@) ==> final(self)@ == old(self)@,
            forall|i: int|
                0 <= i < final(self)@.present.len() && final(self)@.present[i]
                    ==> old(self)@.present[i],
            final(self)@ == bypass_all(old(self)@),
    {
        let ghost g0 = self@;
        let slots = self.present.len();
        let mut done = false;
        while !done
            invariant
                wf(self@),
                slots == g0.present.len(),
                self@.present.len() <= usize::MAX,
                self@.present.len() == g0.present.len(),
                node_count(self@) <= node_count(g0),
                node_count(g0) - node_count(self@) == g0.edges.len() - self@.edges.len(),
                self@.edges.len() <= g0.edges.len(),
                self@ == g0 || node_count(self@) < node_count(g0),
                no_bypassable(g0) ==> self@ == g0,
                done ==> no_bypassable(self@),
                done ==> self@ == bypass_all(self@),
                bypass_all(self@) == bypass_all(g0),
                forall|i: int| 0 <= i < self@.present.len() && self@.present[i] ==> g0.present[i],
                wf(g0),
            decreases node_count(self@), (if done {
                0int
            } else {
                1int
            }),
        {
            match self.find_bypass() {
                None => {
                    done = true;
                },
                Some((v, a, b)) => {
                    let ghost before = self@;
                    self.add_edge(a, b);
                    proof {
                        lemma_deg_edges_push(before.edges, v, (a, b));
                        lemma_drop_incident_len(self@.edges, v);
                    }
                    self.remove_node(v);
                    proof {
                        assert(self@ == bypass_step(before, v));
                    }
                },
            }
        }
    }
}

/// Smallest occupied slot, from `v` on, whose degree is at most one.
pub open spec fn first_low_from(g: GraphView, v: int) -> int
    decreases g.present.len() - v,
{
    if v < 0 || v >= g.present.len() {
        -1
    } else if g.present[v] && deg(g, v as usize) <= 1 {
        v
    } else {
        first_low_from(g, v + 1)
    }
}

pub proof fn lemma_first_low_present(g: GraphView, v: int)
    ensures
        first_low_from(g, v) >= 0 ==> 0 <= first_low_from(g, v) < g.present.len()
            && g.present[first_low_from(g, v)],
    decreases g.present.len() - v,
{
    if 0 <= v < g.present.len() {
        lemma_first_low_present(g, v + 1);
    }
}

/// The degree rule run to its fixed point: repeatedly remove the first
/// occupied slot of degree at most one.
pub open spec fn peel_all(g: GraphView) -> GraphView
    decreases node_count(g),
    via peel_all_decreases
{
    let f = first_low_from(g, 0);
    if f < 0 || g.present.len() > usize::MAX {
        g
    } else {
        peel_all(remove_node_spec(g, f as usize))
    }
}

#[via_fn]
proof fn peel_all_decreases(g: GraphView) {
    let f = first_low_from(g, 0);
    if f >= 0 && g.present.len() <= usize::MAX {
        lemma_first_low_present(g, 0);
        lemma_count_trues_update_false(g.present, f);
        assert(node_count(remove_node_spec(g, f as usize)) < node_count(g));
    }
}

/// Far endpoints of the edges incident to `v`, in edge order.
pub open spec fn incident_others(es: Seq<(usize, usize)>, v: usize) -> Seq<usize>
    decreases es.len(),
{
    if es.len() == 0 {
        Seq::empty()
    } else {
        let rest = incident_others(es.drop_last(), v);
        let e = es.last();
        if e.0 == v || e.1 == v {
            rest.push(
                if e.0 == v {
                    e.1
                } else {
                    e.0
                },
            )
        } else {
            rest
        }
    }
}

pub proof fn lemma_incident_others_len(es: Seq<(usize, usize)>, v: usize)
    ensures
        incident_others(es, v).len() == deg_edges(es, v),
    decreases es.len(),
{
    if es.len() > 0 {
        lemma_incident_others_len(es.drop_last(), v);
        assert(es.drop_last().push(es.last()) =~= es);
        lemma_deg_edges_push(es.drop_last(), v, es.last());
    }
}

/// Smallest occupied slot, from `v` on, that the bypass rule applies to.
pub open spec fn first_bypass_from(g: GraphView, v: int) -> int
    decreases g.present.len() - v,
{
    if v < 0 || v >= g.present.len() {
        -1
    } else if g.present[v] && deg(g, v as usize) == 2 && !has_loop_at(g, v as usize) {
        v
    } else {
        first_bypass_from(g, v + 1)
    }
}

pub proof fn lemma_first_bypass_present(g: GraphView, v: int)
    ensures
        first_bypass_from(g, v) >= 0 ==> 0 <= first_bypass_from(g, v) < g.present.len()
            && g.present[first_bypass_from(g, v)] && deg(
            g,
            first_bypass_from(g, v) as usize,
        ) == 2 && !has_loop_at(g, first_bypass_from(g, v) as usize),
    decreases g.present.len() - v,
{
    if 0 <= v < g.present.len() {
        lemma_first_bypass_present(g, v + 1);
    }
}

/// One bypass: join the two far endpoints of `v`'s edges, then remove `v`.
pub open spec fn bypass_step(g: GraphView, v: usize) -> GraphView {
    let os = incident_others(g.edges, v);
    remove_node_spec(
        GraphView { present: g.present, edges: g.edges.push((os[0], os[1])) },
        v,
    )
}

/// The bypass rule run to its fixed point: repeatedly bypass the first
/// occupied loop-free slot of degree exactly two.
pub open spec fn bypass_all(g: GraphView) -> GraphView
    decreases node_count(g),
    via bypass_all_decreases
{
    let f = first_bypass_from(g, 0);
    if f < 0 || g.present.len() > usize::MAX {
        g
    } else {
        bypass_all(bypass_step(g, f as usize))
    }
}

#[via_fn]
proof fn bypass_all_decreases(g: GraphView) {
    let f = first_bypass_from(g, 0);
    if f >= 0 && g.present.len() <= usize::MAX {
        lemma_first_bypass_present(g, 0);
        lemma_count_trues_update_false(g.present, f);
        assert(node_count(bypass_step(g, f as usize)) < node_count(g));
    }
}

/// The self-loop rule's result: loop nodes cleared, their edges dropped.
pub open spec fn loops_removed(g: GraphView) -> GraphView {
    GraphView {
        present: Seq::new(
            g.present.len(),
            |i: int| g.present[i] && !has_loop_at(g, i as usize),
        ),
        edges: filter_non_loop(g.edges, g),
    }
}

/// The multiplicity rule's result: the same nodes, edges capped at two.
pub open spec fn capped(g: GraphView) -> GraphView {
    GraphView { present: g.present, edges: cap2(g.edges) }
}

pub proof fn lemma_loops_removed_counts(g: GraphView)
    ensures
        node_count(loops_removed(g)) <= node_count(g),
        loops_removed(g).edges.len() <= g.edges.len(),
{
    lemma_filter_non_loop_elems(g.edges, g);
    lemma_count_trues_split(g.present, loops_removed(g).present, loop_flags(g));
}

pub proof fn lemma_incident_others_not_self(es: Seq<(usize, usize)>, v: usize)
    requires
        !has_loop_edges(es, v),
    ensures
        forall|t: int|
            0 <= t < incident_others(es, v).len() ==> #[trigger] incident_others(es, v)[t] != v,
    decreases es.len(),
{
    if es.len() > 0 {
        let dl = es.drop_last();
        assert(!has_loop_edges(dl, v)) by {
            if dl.contains((v, v)) {
                let t = choose|t: int| 0 <= t < dl.len() && dl[t] == (v, v);
                assert(es[t] == (v, v));
            }
        }
        lemma_incident_others_not_self(dl, v);
        let e = es.last();
        let d = incident_others(es, v);
        let dd = incident_others(dl, v);
        assert forall|t: int| 0 <= t < d.len() implies #[trigger] d[t] != v by {
            if t < dd.len() {
                assert(d[t] == dd[t]);
            } else {
                assert(e.0 == v || e.1 == v);
                assert(d[t] == (if e.0 == v {
                    e.1
                } else {
                    e.0
                }));
                if d[t] == v {
                    assert(e == (v, v));
                    assert(es[es.len() - 1] == (v, v));
                    assert(es.contains((v, v)));
                }
            }
        }
    }
}

pub proof fn lemma_peel_all_counts(g: GraphView)
    ensures
        node_count(peel_all(g)) <= node_count(g),
        peel_all(g).edges.len() <= g.edges.len(),
        peel_all(g).present.len() == g.present.len(),
    decreases node_count(g),
{
    let f = first_low_from(g, 0);
    if f >= 0 && g.present.len() <= usize::MAX {
        lemma_first_low_present(g, 0);
        lemma_count_trues_update_false(g.present, f);
        let g2 = remove_node_spec(g, f as usize);
        lemma_drop_incident_len(g.edges, f as usize);
        lemma_peel_all_counts(g2);
    }
}

pub proof fn lemma_bypass_all_counts(g: GraphView)
    ensures
        node_count(bypass_all(g)) <= node_count(g),
        bypass_all(g).edges.len() <= g.edges.len(),
        bypass_all(g).present.len() == g.present.len(),
    decreases node_count(g),
{
    let f = first_bypass_from(g, 0);
    if f >= 0 && g.present.len() <= usize::MAX {
        lemma_first_bypass_present(g, 0);
        lemma_count_trues_update_false(g.present, f);
        let v = f as usize;
        let g2 = bypass_step(g, v);
        lemma_incident_others_len(g.edges, v);
        lemma_incident_others_not_self(g.edges, v);
        let os = incident_others(g.edges, v);
        assert(os[0] != v && os[1] != v);
        let pushed = g.edges.push((os[0], os[1]));
        lemma_deg_edges_push(g.edges, v, (os[0], os[1]));
        lemma_drop_incident_len(pushed, v);
        assert(g2.edges.len() + 2 == pushed.len());
        lemma_bypass_all_counts(g2);
    }
}

/// Dropping the edges incident to `v` shortens the list by exactly the
/// degree of `v`.
pub proof fn lemma_drop_incident_len(es: Seq<(usize, usize)>, v: usize)
    ensures
        drop_incident(es, v).len() + deg_edges(es, v) == es.len(),
    decreases es.len(),
{
    reveal(Seq::filter);
    if es.len() > 0 {
        lemma_drop_incident_len(es.drop_last(), v);
    }
}

/// What the self-loop rule leaves behind, stated once and reused.
proof fn lemma_remove_loop_nodes_post(g0: GraphView, g1: GraphView, removed: nat)
    requires
        wf(g0),
        removed == loop_node_count(g0),
        g1.present.len() == g0.present.len(),
        forall|t: int|
            0 <= t < g0.present.len() ==> g1.present[t] == (g0.present[t] && !loop_flags(g0)[t]),
        g1.edges == filter_non_loop(g0.edges, g0),
    ensures
        wf(g1),
        node_count(g1) == node_count(g0) - removed,
        g1.edges.len() <= g0.edges.len(),
        removed == 0 ==> g1 == g0,
        no_loop_nodes(g1),
{
    lemma_filter_non_loop_elems(g0.edges, g0);
    lemma_count_trues_split(g0.present, g1.present, loop_flags(g0));
    assert forall|j: int| 0 <= j < g1.edges.len() implies {
        &&& (#[trigger] g1.edges[j]).0 < g1.present.len()
        &&& g1.edges[j].1 < g1.present.len()
        &&& g1.present[g1.edges[j].0 as int]
        &&& g1.present[g1.edges[j].1 as int]
    } by {
        let e = g1.edges[j];
        assert(g0.edges.contains(e));
        let t = choose|t: int| 0 <= t < g0.edges.len() && g0.edges[t] == e;
    }
    assert forall|v: usize|
        v < g1.present.len() && g1.present[v as int] implies !(#[trigger] has_loop_at(
        g1,
        v,
    )) by {
        if has_loop_at(g1, v) {
            let j = choose|j: int| 0 <= j < g1.edges.len() && g1.edges[j] == (v, v);
            assert(g0.edges.contains((v, v)));
            assert(!has_loop_at(g0, g1.edges[j].0));
        }
    }
    if removed == 0 {
        lemma_count_trues_zero(loop_flags(g0));
        assert(g1.present =~= g0.present);
        assert forall|i: int|
            0 <= i < g0.edges.len() implies !has_loop_at(g0, (#[trigger] g0.edges[i]).0)
            && !has_loop_at(g0, g0.edges[i].1) by {
            let e = g0.edges[i];
            assert(!loop_flags(g0)[e.0 as int]);
            assert(!loop_flags(g0)[e.1 as int]);
        }
        lemma_filter_non_loop_all(g0.edges, g0);
        assert(g1 =~= g0);
    }
}

pub proof fn lemma_needed_slots_bounds(es: Seq<(usize, usize)>)
    ensures
        forall|i: int|
            0 <= i < es.len() ==> (#[trigger] es[i]).0 < needed_slots(es) && es[i].1 < needed_slots(
                es,
            ),
    decreases es.len(),
{
    if es.len() > 0 {
        lemma_needed_slots_bounds(es.drop_last());
        assert(needed_slots(es.drop_last()) <= needed_slots(es));
        assert forall|i: int|
            0 <= i < es.len() implies (#[trigger] es[i]).0 < needed_slots(es) && es[i].1
            < needed_slots(es) by {
            if i < es.len() - 1 {
                assert(es.drop_last()[i] == es[i]);
            }
        }
    }
}

} // verus!
