use vstd::prelude::*;
use crate::graph::{
    Graph, GraphView, wf, node_count, deg, has_loop_at, loop_node_count, loop_flags, is_reduced,
    remove_node_spec, lemma_count_trues_all_false, lemma_count_trues_zero, count_trues,
    lemma_count_trues_take_step, lemma_drop_incident_push, lemma_incident_deg_two, kept_pos,
    lemma_kept_pos_valid, lemma_kept_pos_strict, loops_removed, capped, peel_all, bypass_all,
    lemma_loops_removed_counts, lemma_peel_all_counts, lemma_bypass_all_counts, lemma_cap2_len,
};
use crate::rng::random_below;

verus! {

/// One full round of the four kernelization rules, as a value: self-loop
/// nodes out, multiplicities capped at two, low-degree nodes peeled, and
/// degree-two nodes bypassed, each rule run to its own fixed point in the
/// stated order.
pub open spec fn kernel_round(g: GraphView) -> GraphView {
    bypass_all(peel_all(capped(loops_removed(g))))
}

pub proof fn lemma_kernel_round_counts(g: GraphView)
    ensures
        node_count(kernel_round(g)) <= node_count(g),
        kernel_round(g).edges.len() <= g.edges.len(),
{
    lemma_loops_removed_counts(g);
    lemma_cap2_len(loops_removed(g).edges);
    lemma_peel_all_counts(capped(loops_removed(g)));
    lemma_bypass_all_counts(peel_all(capped(loops_removed(g))));
}

/// Exhaustive kernelization, as a value: rounds of `kernel_round`, each
/// paying the round's self-loop charges, until the budget goes negative or a
/// round changes neither count. The first component is the final graph, the
/// second the remaining budget.
pub open spec fn reduce_fix(g: GraphView, k: int) -> (GraphView, int)
    decreases node_count(g) + g.edges.len(),
    via reduce_fix_decreases
{
    let g2 = kernel_round(g);
    let k2 = k - loop_node_count(g);
    if k2 < 0 {
        (g2, k2)
    } else if node_count(g2) == node_count(g) && g2.edges.len() == g.edges.len() {
        (g2, k2)
    } else {
        reduce_fix(g2, k2)
    }
}

#[via_fn]
proof fn reduce_fix_decreases(g: GraphView, k: int) {
    lemma_kernel_round_counts(g);
}

/// One round of kernelization: remove self-loop nodes (each paid for out of
/// the budget `k`), cap parallel edges at two, strip nodes of degree at most
/// one, and bypass loop-free degree-two nodes. Returns the remaining budget.
///
/// A round that changes neither the node count nor the edge count leaves the
/// graph exactly as it was, with the budget untouched, and certifies that the
/// graph is a fixed point of all four rules; conversely, a round applied to a
/// fixed point changes nothing — re-applying kernelization to its own output
/// is free. No cleared node slot is ever re-occupied, and every node that
/// entered the round with a self-loop leaves it.
pub fn apply_reductions(graph: &mut Graph, k: i128) -> (kk: i128)
    requires
        wf(old(graph)@),
        0 <= k,
    ensures
        wf(final(graph)@),
        final(graph)@.present.len() == old(graph)@.present.len(),
        kk == k - loop_node_count(old(graph)@),
        kk <= k,
        node_count(final(graph)@) <= node_count(old(graph)@),
        final(graph)@.edges.len() <= old(graph)@.edges.len(),
        forall|v: int|
            0 <= v < final(graph)@.present.len() && final(graph)@.present[v]
                ==> old(graph)@.present[v],
        forall|v: usize|
            v < old(graph)@.present.len() && old(graph)@.present[v as int] && #[trigger]
            has_loop_at(old(graph)@, v) ==> !final(graph)@.present[v as int],
        (node_count(final(graph)@) == node_count(old(graph)@) && final(graph)@.edges.len() == old(
            graph,
        )@.edges.len()) ==> (final(graph)@ == old(graph)@ && is_reduced(final(graph)@) && kk == k),
        is_reduced(old(graph)@) ==> (final(graph)@ == old(graph)@ && kk == k),
        final(graph)@ == kernel_round(old(graph)@),
{
    let ghost g0 = graph@;
    let removed = graph.remove_loop_nodes();
    let ghost g1 = graph@;
    graph.cap_multiplicity();
    let ghost g2 = graph@;
    graph.remove_low_degree_nodes();
    let ghost g3 = graph@;
    graph.bypass_degree_two_nodes();
    let ghost g4 = graph@;
    proof {
        if node_count(g4) == node_count(g0) && g4.edges.len() == g0.edges.len() {
            assert(node_count(g2) == node_count(g1));
            assert(node_count(g1) == node_count(g0));
            assert(removed == 0);
            assert(g1 == g0);
            assert(node_count(g4) == node_count(g3));
            assert(g4 == g3);
            assert(node_count(g3) == node_count(g2));
            assert(g3 == g2);
            assert(g4.edges.len() == g2.edges.len());
            assert(g2.edges.len() == g1.edges.len());
            assert(g2 == g1);
            assert(is_reduced(g4));
        }
        if is_reduced(g0) {
            assert forall|i: int| 0 <= i < loop_flags(g0).len() implies !loop_flags(g0)[i] by {
                if g0.present[i] {
                    assert(!has_loop_at(g0, i as usize));
                }
            }
            lemma_count_trues_all_false(loop_flags(g0));
            assert(removed == 0);
            assert(g1 == g0);
            assert(g2 == g1);
            assert(g3 == g2);
            assert(g4 == g3);
        }
        assert forall|v: usize|
            v < g0.present.len() && g0.present[v as int] && #[trigger] has_loop_at(g0, v) implies
            !g4.present[v as int] by {
            assert(!g1.present[v as int]);
        }
        assert(g4 == kernel_round(g0));
    }
    k - removed as i128
}

/// Pushes onto `log` every occupied node that carries a self-loop — the
/// nodes the next kernelization round will charge to the budget.
fn log_loop_nodes(graph: &Graph, log: &mut Vec<usize>)
    requires
        wf(graph@),
    ensures
        final(log)@.len() == old(log)@.len() + loop_node_count(graph@),
        forall|j: int| 0 <= j < old(log)@.len() ==> final(log)@[j] == old(log)@[j],
        forall|j: int|
            old(log)@.len() <= j < final(log)@.len() ==> #[trigger] final(log)@[j]
                < graph@.present.len(),
{
    let n = graph.slot_count();
    let mut v: usize = 0;
    while v < n
        invariant
            wf(graph@),
            n == graph@.present.len(),
            v <= n,
            log@.len() == old(log)@.len() + count_trues_prefix(graph@, v as int),
            forall|j: int| 0 <= j < old(log)@.len() ==> log@[j] == old(log)@[j],
            forall|j: int|
                old(log)@.len() <= j < log@.len() ==> #[trigger] log@[j] < graph@.present.len(),
        decreases n - v,
    {
        proof {
            lemma_count_trues_take_step(loop_flags(graph@), v as int);
        }
        if graph.is_present(v) {
            if graph.has_loop(v) {
                log.push(v);
            }
        }
        v = v + 1;
    }
    proof {
        assert(loop_flags(graph@).take(loop_flags(graph@).len() as int) =~= loop_flags(graph@));
    }
}

/// Loop-node flags counted over the first `v` slots.
pub open spec fn count_trues_prefix(g: GraphView, v: int) -> nat {
    crate::graph::count_trues(loop_flags(g).take(v))
}

/// `apply_reductions`, recording the charged nodes: exactly `k - kk` valid
/// slot numbers are appended to `log`.
fn apply_reductions_logged(graph: &mut Graph, k: i128, log: &mut Vec<usize>) -> (kk: i128)
    requires
        wf(old(graph)@),
        0 <= k,
    ensures
        wf(final(graph)@),
        final(graph)@.present.len() == old(graph)@.present.len(),
        kk == k - loop_node_count(old(graph)@),
        kk <= k,
        node_count(final(graph)@) <= node_count(old(graph)@),
        final(graph)@.edges.len() <= old(graph)@.edges.len(),
        (node_count(final(graph)@) == node_count(old(graph)@) && final(graph)@.edges.len() == old(
            graph,
        )@.edges.len()) ==> (final(graph)@ == old(graph)@ && is_reduced(final(graph)@) && kk == k),
        is_reduced(old(graph)@) ==> (final(graph)@ == old(graph)@ && kk == k),
        final(graph)@ == kernel_round(old(graph)@),
        final(log)@.len() as int == old(log)@.len() + (k - kk),
        forall|j: int| 0 <= j < old(log)@.len() ==> final(log)@[j] == old(log)@[j],
        forall|j: int|
            old(log)@.len() <= j < final(log)@.len() ==> #[trigger] final(log)@[j]
                < final(graph)@.present.len(),
{
    log_loop_nodes(graph, log);
    apply_reductions(graph, k)
}

/// Kernelization applied exhaustively: rounds of `apply_reductions` until a
/// round changes neither the node count nor the edge count, or the budget
/// goes negative. A non-negative result certifies a fixed point of all four
/// rules; a negative result signals that the self-loop charges alone exceed
/// the budget, so the current branch is hopeless.
pub fn reduce_graph(graph: &mut Graph, k: i128) -> (kk: i128)
    requires
        wf(old(graph)@),
        0 <= k,
    ensures
        wf(final(graph)@),
        final(graph)@.present.len() == old(graph)@.present.len(),
        node_count(final(graph)@) <= node_count(old(graph)@),
        kk <= k,
        kk >= 0 ==> is_reduced(final(graph)@),
        is_reduced(old(graph)@) ==> (final(graph)@ == old(graph)@ && kk == k),
        (node_count(final(graph)@) == node_count(old(graph)@) && final(graph)@.edges.len() == old(
            graph,
        )@.edges.len()) ==> (final(graph)@ == old(graph)@ && kk == k),
        final(graph)@ == reduce_fix(old(graph)@, k as int).0,
        kk == reduce_fix(old(graph)@, k as int).1,
{
    let mut log: Vec<usize> = Vec::new();
    reduce_graph_logged(graph, k, &mut log)
}

/// `reduce_graph`, recording the charged nodes: when the budget survives,
/// exactly `k - kk` valid slot numbers are appended to `log`.
fn reduce_graph_logged(graph: &mut Graph, k: i128, log: &mut Vec<usize>) -> (kk: i128)
    requires
        wf(old(graph)@),
        0 <= k,
    ensures
        wf(final(graph)@),
        final(graph)@.present.len() == old(graph)@.present.len(),
        node_count(final(graph)@) <= node_count(old(graph)@),
        kk <= k,
        kk >= 0 ==> is_reduced(final(graph)@),
        is_reduced(old(graph)@) ==> (final(graph)@ == old(graph)@ && kk == k),
        (node_count(final(graph)@) == node_count(old(graph)@) && final(graph)@.edges.len() == old(
            graph,
        )@.edges.len()) ==> (final(graph)@ == old(graph)@ && kk == k),
        final(graph)@ == reduce_fix(old(graph)@, k as int).0,
        kk == reduce_fix(old(graph)@, k as int).1,
        kk >= 0 ==> final(log)@.len() as int == old(log)@.len() + (k - kk),
        forall|j: int| 0 <= j < old(log)@.len() ==> final(log)@[j] == old(log)@[j],
        forall|j: int|
            old(log)@.len() <= j < final(log)@.len() ==> #[trigger] final(log)@[j]
                < final(graph)@.present.len(),
{
    let mut cur: i128 = k;
    loop
        invariant
            wf(graph@),
            graph@.present.len() == old(graph)@.present.len(),
            node_count(graph@) <= node_count(old(graph)@),
            0 <= cur <= k,
            is_reduced(old(graph)@) ==> (graph@ == old(graph)@ && cur == k),
            graph@.edges.len() <= old(graph)@.edges.len(),
            (node_count(graph@) == node_count(old(graph)@) && graph@.edges.len() == old(
                graph,
            )@.edges.len()) ==> (graph@ == old(graph)@ && cur == k),
            reduce_fix(graph@, cur as int) == reduce_fix(old(graph)@, k as int),
            log@.len() as int == old(log)@.len() + (k - cur),
            forall|j: int| 0 <= j < old(log)@.len() ==> log@[j] == old(log)@[j],
            forall|j: int|
                old(log)@.len() <= j < log@.len() ==> #[trigger] log@[j]
                    < graph@.present.len(),
        decreases node_count(graph@) + graph@.edges.len(),
    {
        let n = graph.node_count();
        let m = graph.edge_count();
        let k2 = apply_reductions_logged(graph, cur, log);
        if k2 < 0 {
            return k2;
        }
        if graph.node_count() == n && graph.edge_count() == m {
            return k2;
        }
        cur = k2;
    }
}

/// Whether `v` is an endpoint of some edge of `g`.
pub open spec fn is_edge_endpoint(g: GraphView, v: usize) -> bool {
    exists|j: int| 0 <= j < g.edges.len() && ((#[trigger] g.edges[j]).0 == v || g.edges[j].1 == v)
}

/// The randomized branching step: pick an edge at random and delete one of
/// its two endpoints, chosen by a coin flip. On a graph with no edges this
/// does nothing; otherwise, whatever the generator returns, exactly one node
/// that is an endpoint of some edge goes away, along with its incident edges.
pub fn remove_random_node(graph: &mut Graph)
    requires
        wf(old(graph)@),
    ensures
        wf(final(graph)@),
        final(graph)@.present.len() == old(graph)@.present.len(),
        old(graph)@.edges.len() == 0 ==> final(graph)@ == old(graph)@,
        old(graph)@.edges.len() > 0 ==> exists|v: usize|
            is_edge_endpoint(old(graph)@, v) && final(graph)@ == #[trigger] remove_node_spec(
                old(graph)@,
                v,
            ),
        old(graph)@.edges.len() > 0 ==> node_count(final(graph)@) == node_count(old(graph)@) - 1,
{
    let mut log: Vec<usize> = Vec::new();
    remove_random_node_logged(graph, &mut log);
}

/// The branching step, recording the deleted endpoint (one charged node).
fn remove_random_node_logged(graph: &mut Graph, log: &mut Vec<usize>)
    requires
        wf(old(graph)@),
    ensures
        wf(final(graph)@),
        final(graph)@.present.len() == old(graph)@.present.len(),
        old(graph)@.edges.len() == 0 ==> final(graph)@ == old(graph)@ && final(log)@ == old(log)@,
        old(graph)@.edges.len() > 0 ==> exists|v: usize|
            is_edge_endpoint(old(graph)@, v) && final(graph)@ == #[trigger] remove_node_spec(
                old(graph)@,
                v,
            ),
        old(graph)@.edges.len() > 0 ==> node_count(final(graph)@) == node_count(old(graph)@) - 1,
        old(graph)@.edges.len() > 0 ==> final(log)@.len() == old(log)@.len() + 1,
        forall|j: int| 0 <= j < old(log)@.len() ==> final(log)@[j] == old(log)@[j],
        forall|j: int|
            old(log)@.len() <= j < final(log)@.len() ==> #[trigger] final(log)@[j]
                < final(graph)@.present.len(),
{
    let m = graph.edge_count();
    if m == 0 {
        return ;
    }
    let i = random_below(m);
    let e = graph.edge_at(i);
    let heads = random_below(2) == 0;
    let v = if heads {
        e.0
    } else {
        e.1
    };
    log.push(v);
    graph.remove_node(v);
    proof {
        assert(is_edge_endpoint(old(graph)@, v)) by {
            assert(0 <= i < old(graph)@.edges.len() && (old(graph)@.edges[i as int].0 == v || old(
                graph,
            )@.edges[i as int].1 == v));
        }
        assert(graph@ == remove_node_spec(old(graph)@, v));
    }
}

/// Every occupied node of a non-trivial kernelization fixed point has degree
/// at least three. In particular a chordless cycle, all of whose nodes have
/// degree two, is never a fixed point: the degree rules always reduce it
/// further.
pub proof fn lemma_reduced_min_degree(g: GraphView)
    requires
        is_reduced(g),
    ensures
        forall|v: usize| v < g.present.len() && g.present[v as int] ==> #[trigger] deg(g, v) >= 3,
{
    assert forall|v: usize| v < g.present.len() && g.present[v as int] implies #[trigger] deg(
        g,
        v,
    ) >= 3 by {
        assert(!has_loop_at(g, v));
        assert(deg(g, v) >= 2);
        assert(!(deg(g, v) == 2 && !has_loop_at(g, v)));
    }
}

/// An occupied-node count of zero forces a well-formed graph to be edgeless,
/// and so a kernelization fixed point.
proof fn lemma_empty_is_reduced(g: GraphView)
    requires
        wf(g),
        node_count(g) == 0,
    ensures
        is_reduced(g),
{
    lemma_count_trues_zero(g.present);
    assert(g.edges.len() == 0) by {
        if g.edges.len() > 0 {
            assert(g.present[g.edges[0].0 as int]);
        }
    }
    assert forall|a: usize, b: usize| #[trigger]
        crate::graph::pair_mult(g.edges, a, b) <= 2 by {
        reveal(Seq::filter);
    }
    assert forall|v: usize| v < g.present.len() && g.present[v as int] implies !(
    #[trigger] has_loop_at(g, v)) by {}
}

/// Whether edge `e` joins `a` and `b`, in either orientation.
pub open spec fn joins(e: (usize, usize), a: usize, b: usize) -> bool {
    e == (a, b) || e == (b, a)
}

pub open spec fn cycle_next(vs: Seq<usize>, i: int) -> usize {
    if i + 1 == vs.len() {
        vs[0]
    } else {
        vs[i + 1]
    }
}

/// A cycle of the multigraph `g`: pairwise distinct occupied vertices
/// `vs[0], .., vs[m-1]` and pairwise distinct edge indices `es[0], .., es[m-1]`,
/// the edge at `es[i]` joining `vs[i]` to the next vertex around. One vertex
/// with a self-loop and two vertices joined by parallel edges are cycles.
pub open spec fn is_cycle(g: GraphView, vs: Seq<usize>, es: Seq<int>) -> bool {
    &&& vs.len() >= 1
    &&& es.len() == vs.len()
    &&& forall|i: int|
        0 <= i < vs.len() ==> (#[trigger] vs[i]) < g.present.len() && g.present[vs[i] as int]
    &&& forall|i: int, j: int| #![trigger vs[i], vs[j]] 0 <= i < j < vs.len() ==> vs[i] != vs[j]
    &&& forall|i: int| 0 <= i < es.len() ==> 0 <= #[trigger] es[i] < g.edges.len()
    &&& forall|i: int, j: int| #![trigger es[i], es[j]] 0 <= i < j < es.len() ==> es[i] != es[j]
    &&& forall|i: int| 0 <= i < es.len() ==> joins(#[trigger] g.edges[es[i]], vs[i], cycle_next(vs, i))
}

pub open spec fn acyclic(g: GraphView) -> bool {
    !(exists|vs: Seq<usize>, es: Seq<int>| is_cycle(g, vs, es))
}

/// The set of node values a list holds.
pub open spec fn node_set(s: Seq<usize>) -> Set<usize> {
    Set::new(|v: usize| s.contains(v))
}

pub open spec fn remove_set_edges(es: Seq<(usize, usize)>, s: Set<usize>) -> Seq<(usize, usize)> {
    es.filter(|e: (usize, usize)| !s.contains(e.0) && !s.contains(e.1))
}

/// The graph left when every node of `s` is deleted along with its edges.
pub open spec fn remove_set(g: GraphView, s: Set<usize>) -> GraphView {
    GraphView {
        present: Seq::new(g.present.len(), |i: int| g.present[i] && !s.contains(i as usize)),
        edges: remove_set_edges(g.edges, s),
    }
}

/// A feedback vertex set of `g`: deleting it leaves no cycle.
pub open spec fn is_fvs(g: GraphView, s: Set<usize>) -> bool {
    acyclic(remove_set(g, s))
}

proof fn lemma_remove_set_edges_push(es: Seq<(usize, usize)>, s: Set<usize>, x: (usize, usize))
    ensures
        remove_set_edges(es.push(x), s) == if !s.contains(x.0) && !s.contains(x.1) {
            remove_set_edges(es, s).push(x)
        } else {
            remove_set_edges(es, s)
        },
{
    reveal(Seq::filter);
    assert(es.push(x).drop_last() =~= es);
}

proof fn lemma_remove_set_edges_noop(es: Seq<(usize, usize)>, s: Set<usize>)
    requires
        forall|i: int|
            0 <= i < es.len() ==> !s.contains((#[trigger] es[i]).0) && !s.contains(es[i].1),
    ensures
        remove_set_edges(es, s) == es,
    decreases es.len(),
{
    reveal(Seq::filter);
    if es.len() > 0 {
        lemma_remove_set_edges_noop(es.drop_last(), s);
        assert(es[es.len() - 1] == es.last());
        assert(es.drop_last().push(es.last()) =~= es);
    }
}

proof fn lemma_remove_set_none(g: GraphView)
    ensures
        remove_set(g, node_set(Seq::<usize>::empty())) == g,
{
    let s = node_set(Seq::<usize>::empty());
    assert forall|v: usize| !(#[trigger] s.contains(v)) by {
        if Seq::<usize>::empty().contains(v) {
            let j = choose|j: int| 0 <= j < 0 && Seq::<usize>::empty()[j] == v;
        }
    }
    lemma_remove_set_edges_noop(g.edges, s);
    assert(remove_set(g, s) =~= g);
}

/// Deleting one more node commutes with set removal.
proof fn lemma_remove_set_insert(g: GraphView, s: Set<usize>, v: usize)
    requires
        v < g.present.len(),
        g.present.len() <= usize::MAX,
    ensures
        remove_node_spec(remove_set(g, s), v) == remove_set(g, s.insert(v)),
{
    lemma_di_remove_set(g.edges, s, v);
    let lhs = remove_node_spec(remove_set(g, s), v);
    let rhs = remove_set(g, s.insert(v));
    assert forall|i: int| 0 <= i < lhs.present.len() implies lhs.present[i] == rhs.present[i] by {
        assert(rhs.present[i] == (g.present[i] && !s.insert(v).contains(i as usize)));
        if i == v as int {
            assert(s.insert(v).contains(v));
            assert(!lhs.present[i]);
        } else {
            assert(lhs.present[i] == (g.present[i] && !s.contains(i as usize)));
            assert(i as usize != v);
            assert(s.insert(v).contains(i as usize) == s.contains(i as usize));
        }
    }
    assert(lhs =~= rhs);
}

proof fn lemma_count_trues_pos(s: Seq<bool>)
    requires
        count_trues(s) > 0,
    ensures
        exists|i: int| 0 <= i < s.len() && s[i],
    decreases s.len(),
{
    if s.last() {
        assert(s[s.len() - 1]);
    } else {
        lemma_count_trues_pos(s.drop_last());
        let i = choose|i: int| 0 <= i < s.drop_last().len() && s.drop_last()[i];
        assert(s[i]);
    }
}

/// A kernelization fixed point with occupied nodes keeps at least one edge.
proof fn lemma_reduced_nonempty_has_edges(g: GraphView)
    requires
        is_reduced(g),
        node_count(g) > 0,
        g.present.len() <= usize::MAX,
    ensures
        g.edges.len() > 0,
{
    lemma_count_trues_pos(g.present);
    let i = choose|i: int| 0 <= i < g.present.len() && g.present[i];
    let u = i as usize;
    assert(u < g.present.len() && g.present[u as int]);
    assert(deg(g, u) >= 2);
    if g.edges.len() == 0 {
        reveal(Seq::filter);
        assert(deg(g, u) == 0);
    }
}

proof fn lemma_di_remove_set(es: Seq<(usize, usize)>, s: Set<usize>, v: usize)
    ensures
        crate::graph::drop_incident(remove_set_edges(es, s), v) == remove_set_edges(
            es,
            s.insert(v),
        ),
    decreases es.len(),
{
    if es.len() == 0 {
        reveal(Seq::filter);
    } else {
        let dl = es.drop_last();
        lemma_di_remove_set(dl, s, v);
        assert(dl.push(es.last()) =~= es);
        lemma_remove_set_edges_push(dl, s, es.last());
        lemma_remove_set_edges_push(dl, s.insert(v), es.last());
        if !s.contains(es.last().0) && !s.contains(es.last().1) {
            lemma_drop_incident_push(remove_set_edges(dl, s), v, es.last());
        }
    }
}

proof fn lemma_node_set_push(s: Seq<usize>, v: usize)
    ensures
        node_set(s.push(v)) == node_set(s).insert(v),
{
    assert forall|x: usize| node_set(s.push(v)).contains(x) implies node_set(s).insert(v).contains(
        x,
    ) by {
        let t = choose|t: int| 0 <= t < s.push(v).len() && s.push(v)[t] == x;
        if t < s.len() {
            assert(s[t] == x);
        }
    }
    assert forall|x: usize| node_set(s).insert(v).contains(x) implies node_set(s.push(v)).contains(
        x,
    ) by {
        if node_set(s).contains(x) {
            let t = choose|t: int| 0 <= t < s.len() && s[t] == x;
            assert(s.push(v)[t] == x);
        } else {
            assert(s.push(v)[s.len() as int] == v);
        }
    }
    assert(node_set(s.push(v)) =~= node_set(s).insert(v));
}

proof fn lemma_node_set_card(s: Seq<usize>)
    ensures
        node_set(s).finite(),
        node_set(s).len() <= s.len(),
    decreases s.len(),
{
    if s.len() == 0 {
        assert forall|x: usize| !(#[trigger] node_set(s).contains(x)) by {
            if s.contains(x) {
                let j = choose|j: int| 0 <= j < s.len() && s[j] == x;
            }
        }
        assert(node_set(s) =~= Set::<usize>::empty());
    } else {
        lemma_node_set_card(s.drop_last());
        assert(s.drop_last().push(s.last()) =~= s);
        lemma_node_set_push(s.drop_last(), s.last());
    }
}

/// Removing a loop-free node of degree at most one cannot break a cycle:
/// no cycle passes through such a node, and the surviving edges keep the
/// cycle intact under their new indices.
proof fn lemma_peel_keeps_cycle(g: GraphView, v: usize, vs: Seq<usize>, es: Seq<int>)
    requires
        is_cycle(g, vs, es),
        v < g.present.len(),
        deg(g, v) <= 1,
        !has_loop_at(g, v),
    ensures
        exists|es2: Seq<int>| is_cycle(remove_node_spec(g, v), vs, es2),
{
    assert forall|i: int| 0 <= i < vs.len() implies vs[i] != v by {
        if vs[i] == v {
            if vs.len() == 1 {
                assert(joins(g.edges[es[0]], vs[0], cycle_next(vs, 0)));
                assert(g.edges[es[0]] == (v, v));
                assert(g.edges.contains((v, v)));
            } else {
                let ip: int = if i == 0 {
                    vs.len() - 1
                } else {
                    i - 1
                };
                assert(joins(g.edges[es[ip]], vs[ip], cycle_next(vs, ip)));
                assert(cycle_next(vs, ip) == vs[i]);
                assert(joins(g.edges[es[i]], vs[i], cycle_next(vs, i)));
                assert(es[ip] != es[i]);
                if es[ip] < es[i] {
                    lemma_incident_deg_two(g.edges, v, es[ip], es[i]);
                } else {
                    lemma_incident_deg_two(g.edges, v, es[i], es[ip]);
                }
            }
            assert(false);
        }
    }
    assert forall|t: int| 0 <= t < es.len() implies (#[trigger] g.edges[es[t]]).0 != v && g.edges[es[t]].1
        != v by {
        assert(joins(g.edges[es[t]], vs[t], cycle_next(vs, t)));
        assert(vs[t] != v);
        assert(cycle_next(vs, t) != v) by {
            if t + 1 == vs.len() {
                assert(vs[0] != v);
            } else {
                assert(vs[t + 1] != v);
            }
        }
    }
    let gp = remove_node_spec(g, v);
    let es2 = Seq::new(es.len() as nat, |t: int| kept_pos(g.edges, v, es[t]));
    assert forall|t: int| 0 <= t < es2.len() implies 0 <= #[trigger] es2[t] < gp.edges.len()
        && gp.edges[es2[t]] == g.edges[es[t]] by {
        lemma_kept_pos_valid(g.edges, v, es[t]);
    }
    assert forall|t1: int, t2: int|
        #![trigger es2[t1], es2[t2]]
        0 <= t1 < t2 < es2.len() implies es2[t1] != es2[t2] by {
        if es[t1] < es[t2] {
            lemma_kept_pos_strict(g.edges, v, es[t1], es[t2]);
        } else {
            lemma_kept_pos_strict(g.edges, v, es[t2], es[t1]);
        }
    }
    assert(is_cycle(gp, vs, es2)) by {
        assert forall|i: int| 0 <= i < vs.len() implies (#[trigger] vs[i]) < gp.present.len()
            && gp.present[vs[i] as int] by {
            assert(vs[i] != v);
        }
        assert forall|i: int| 0 <= i < es2.len() implies joins(
            #[trigger] gp.edges[es2[i]],
            vs[i],
            cycle_next(vs, i),
        ) by {
            assert(gp.edges[es2[i]] == g.edges[es[i]]);
        }
    }
}

/// First occupied loop-free slot of degree at most one, if any.
fn find_peelable(g: &Graph) -> (r: Option<usize>)
    ensures
        match r {
            Some(v) => v < g@.present.len() && g@.present[v as int] && deg(g@, v) <= 1
                && !has_loop_at(g@, v),
            None => true,
        },
{
    let n = g.slot_count();
    let mut v: usize = 0;
    while v < n
        invariant
            n == g@.present.len(),
            v <= n,
        decreases n - v,
    {
        if g.is_present(v) {
            let lp = g.has_loop(v);
            if !lp {
                if g.degree(v) <= 1 {
                    return Some(v);
                }
            }
        }
        v = v + 1;
    }
    None
}

/// Checks a trial's certificate: deletes the logged nodes from a fresh copy
/// of the graph and peels loop-free nodes of degree at most one. If that
/// empties the graph, the deleted set left no cycle behind — peeling never
/// touches a node of a cycle — so the logged nodes form a feedback vertex
/// set of `graph`.
fn certify_fvs(graph: &Graph, log: &Vec<usize>) -> (r: bool)
    requires
        wf(graph@),
        forall|j: int| 0 <= j < log@.len() ==> (#[trigger] log@[j]) < graph@.present.len(),
    ensures
        r ==> acyclic(remove_set(graph@, node_set(log@))),
        node_count(graph@) == 0 ==> r,
{
    let mut h = graph.duplicate();
    let slots = graph.slot_count();
    proof {
        lemma_remove_set_none(graph@);
        assert(log@.take(0) =~= Seq::<usize>::empty());
    }
    let mut t: usize = 0;
    while t < log.len()
        invariant
            wf(graph@),
            wf(h@),
            slots == graph@.present.len(),
            t <= log@.len(),
            h@ == remove_set(graph@, node_set(log@.take(t as int))),
            h@.present.len() == graph@.present.len(),
            node_count(graph@) == 0 ==> node_count(h@) == 0,
            forall|j: int| 0 <= j < log@.len() ==> (#[trigger] log@[j]) < graph@.present.len(),
        decreases log@.len() - t,
    {
        proof {
            assert(log@.take(t + 1) =~= log@.take(t as int).push(log@[t as int]));
            lemma_node_set_push(log@.take(t as int), log@[t as int]);
            lemma_remove_set_insert(graph@, node_set(log@.take(t as int)), log@[t as int]);
        }
        h.remove_node(log[t]);
        t = t + 1;
    }
    proof {
        assert(log@.take(log@.len() as int) =~= log@);
    }
    let ghost target = remove_set(graph@, node_set(log@));
    let mut done = false;
    while !done
        invariant
            wf(h@),
            (exists|vs: Seq<usize>, es: Seq<int>| is_cycle(target, vs, es)) ==> (exists|
                vs: Seq<usize>,
                es: Seq<int>,
            | is_cycle(h@, vs, es)),
            node_count(graph@) == 0 ==> node_count(h@) == 0,
        decreases node_count(h@), (if done {
            0int
        } else {
            1int
        }),
    {
        match find_peelable(&h) {
            None => {
                done = true;
            },
            Some(v) => {
                proof {
                    if exists|vs: Seq<usize>, es: Seq<int>| is_cycle(h@, vs, es) {
                        let (vs, es) = choose|vs: Seq<usize>, es: Seq<int>| is_cycle(h@, vs, es);
                        lemma_peel_keeps_cycle(h@, v, vs, es);
                    }
                }
                h.remove_node(v);
            },
        }
    }
    let r = h.node_count() == 0;
    proof {
        if r {
            if exists|vs: Seq<usize>, es: Seq<int>| is_cycle(target, vs, es) {
                let (vs, es) = choose|vs: Seq<usize>, es: Seq<int>| is_cycle(h@, vs, es);
                lemma_count_trues_zero(h@.present);
                assert(h@.present[vs[0] as int]);
            }
            assert(acyclic(target));
        }
    }
    r
}

/// The feedback-vertex-set engine: up to `max_repeats` Monte-Carlo trials,
/// each on a fresh copy of the graph. A trial kernelizes, then alternates a
/// random endpoint deletion (paying one unit of budget) with further
/// kernelization; when the working graph empties, the charged deletions —
/// at most `k` of them — are re-checked against the caller's graph, so a
/// `true` answer always certifies a feedback vertex set of size at most `k`.
/// With no trials allowed the answer is `false`; on an already empty graph
/// any allowed trial succeeds at once.
pub fn find_feedback_vertex_set(graph: &Graph, k: u32, max_repeats: u32) -> (r: bool)
    requires
        wf(graph@),
    ensures
        max_repeats == 0 ==> !r,
        max_repeats >= 1 && node_count(graph@) == 0 ==> r,
        r ==> exists|s: Set<usize>|
            s.finite() && s.len() <= k as nat && #[trigger] is_fvs(graph@, s),
{
    proof {
        if node_count(graph@) == 0 {
            lemma_empty_is_reduced(graph@);
        }
    }
    let slots = graph.slot_count();
    let mut trial: u32 = 0;
    while trial < max_repeats
        invariant
            wf(graph@),
            trial <= max_repeats,
            slots == graph@.present.len(),
            node_count(graph@) == 0 ==> is_reduced(graph@),
            trial >= 1 ==> node_count(graph@) > 0,
        decreases max_repeats - trial,
    {
        let mut g2 = graph.duplicate();
        let mut k2: i128 = k as i128;
        let mut log: Vec<usize> = Vec::new();
        loop
            invariant_except_break
                0 <= k2 <= k as i128,
                log@.len() as int == k as int - k2,
            invariant
                wf(g2@),
                wf(graph@),
                trial < max_repeats,
                slots == graph@.present.len(),
                g2@.present.len() == graph@.present.len(),
                forall|j: int|
                    0 <= j < log@.len() ==> (#[trigger] log@[j]) < graph@.present.len(),
                node_count(graph@) == 0 ==> is_reduced(graph@),
                node_count(graph@) == 0 ==> (g2@ == graph@ && k2 == k as i128),
            ensures
                node_count(graph@) > 0,
            decreases k2,
        {
            k2 = reduce_graph_logged(&mut g2, k2, &mut log);
            if k2 < 0 {
                break ;
            }
            if g2.node_count() == 0 {
                if certify_fvs(graph, &log) {
                    proof {
                        lemma_node_set_card(log@);
                        assert(is_fvs(graph@, node_set(log@)));
                    }
                    return true;
                }
                break ;
            }
            if k2 == 0 {
                break ;
            }
            proof {
                // a kernelized graph with nodes left has minimum degree two,
                // so an edge exists for the branching step to pick
                lemma_reduced_nonempty_has_edges(g2@);
            }
            remove_random_node_logged(&mut g2, &mut log);
            k2 = k2 - 1;
        }
        trial = trial + 1;
    }
    false
}

} // verus!
