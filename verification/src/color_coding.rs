use vstd::prelude::*;
use crate::digraph::{
    DiGraph, DiGraphView, dg_wf, is_path, rainbow, colorful_path_from, has_colorful_path_from,
    has_colorful_path, has_simple_path, lemma_rainbow_distinct,
};
use crate::rng::random_below;

verus! {

/// The set of colors a list of color values holds.
pub open spec fn set_of(s: Seq<u32>) -> Set<u32> {
    Set::new(|c: u32| s.contains(c))
}

/// The set of colors worn along the walk `p`.
pub open spec fn path_colors(colors: Seq<u32>, p: Seq<usize>) -> Set<u32> {
    Set::new(|c: u32| exists|i: int| 0 <= i < p.len() && colors[(#[trigger] p[i]) as int] == c)
}

proof fn lemma_set_of_push(s: Seq<u32>, c: u32)
    ensures
        set_of(s.push(c)) == set_of(s).insert(c),
{
    assert forall|x: u32| set_of(s.push(c)).contains(x) implies set_of(s).insert(c).contains(
        x,
    ) by {
        let t = choose|t: int| 0 <= t < s.push(c).len() && s.push(c)[t] == x;
        if t < s.len() {
            assert(s[t] == x);
        }
    }
    assert forall|x: u32| set_of(s).insert(c).contains(x) implies set_of(s.push(c)).contains(
        x,
    ) by {
        if set_of(s).contains(x) {
            let t = choose|t: int| 0 <= t < s.len() && s[t] == x;
            assert(s.push(c)[t] == x);
        } else {
            assert(s.push(c)[s.len() as int] == c);
        }
    }
    assert(set_of(s.push(c)) =~= set_of(s).insert(c));
}

proof fn lemma_path_colors_push(colors: Seq<u32>, p: Seq<usize>, u: usize)
    requires
        u < colors.len(),
    ensures
        path_colors(colors, p.push(u)) == path_colors(colors, p).insert(colors[u as int]),
{
    let q = p.push(u);
    assert forall|x: u32| path_colors(colors, q).contains(x) implies path_colors(
        colors,
        p,
    ).insert(colors[u as int]).contains(x) by {
        let t = choose|t: int| 0 <= t < q.len() && colors[(q[t]) as int] == x;
        if t < p.len() {
            assert(p[t] == q[t]);
        } else {
            assert(q[t] == u);
        }
    }
    assert forall|x: u32| path_colors(colors, p).insert(colors[u as int]).contains(x) implies
        path_colors(colors, q).contains(x) by {
        if path_colors(colors, p).contains(x) {
            let t = choose|t: int| 0 <= t < p.len() && colors[(p[t]) as int] == x;
            assert(q[t] == p[t]);
        } else {
            assert(q[p.len() as int] == u);
        }
    }
    assert(path_colors(colors, q) =~= path_colors(colors, p).insert(colors[u as int]));
}

/// A colorful path stays colorful when cut after its first `m` vertices.
proof fn lemma_prefix_colorful(g: DiGraphView, k: nat, s: usize, p: Seq<usize>, m: nat)
    requires
        colorful_path_from(g, k, s, p),
        1 <= m <= k,
    ensures
        colorful_path_from(g, m, s, p.take(m as int)),
{
    let q = p.take(m as int);
    assert forall|i: int| 0 <= i < q.len() implies (#[trigger] q[i]) < g.colors.len() by {
        assert(q[i] == p[i]);
    }
    assert forall|i: int| 0 <= i < q.len() - 1 implies #[trigger] g.edges.contains(
        (q[i], q[i + 1]),
    ) by {
        assert(q[i] == p[i] && q[i + 1] == p[i + 1]);
        assert(g.edges.contains((p[i], p[i + 1])));
    }
    assert forall|i: int, j: int|
        #![trigger q[i], q[j]]
        0 <= i < j < q.len() implies g.colors[q[i] as int] != g.colors[q[j] as int] by {
        assert(q[i] == p[i] && q[j] == p[j]);
        assert(g.colors[p[i] as int] != g.colors[p[j] as int]);
    }
}

/// One stored state of the path search: a reachable end node, and the color
/// set of one rainbow walk that reaches it, kept as a plain list.
pub open spec fn entry_matches(colors: Seq<u32>, entry: (usize, Vec<u32>), p: Seq<usize>) -> bool {
    entry.0 == p.last() && set_of(entry.1@) == path_colors(colors, p)
}

pub open spec fn layer_has(
    colors: Seq<u32>,
    layer: Seq<(usize, Vec<u32>)>,
    p: Seq<usize>,
) -> bool {
    exists|t: int| 0 <= t < layer.len() && entry_matches(colors, #[trigger] layer[t], p)
}

/// Every stored state is witnessed by some colorful path of `k` vertices.
pub open spec fn layer_sound(
    g: DiGraphView,
    k: nat,
    s: usize,
    layer: Seq<(usize, Vec<u32>)>,
) -> bool {
    forall|t: int|
        0 <= t < layer.len() ==> exists|p: Seq<usize>|
            colorful_path_from(g, k, s, p) && entry_matches(g.colors, #[trigger] layer[t], p)
}

/// Every colorful path of `k` vertices has its state stored.
pub open spec fn layer_complete(
    g: DiGraphView,
    k: nat,
    s: usize,
    layer: Seq<(usize, Vec<u32>)>,
) -> bool {
    forall|p: Seq<usize>|
        #[trigger] colorful_path_from(g, k, s, p) ==> layer_has(g.colors, layer, p)
}

pub open spec fn layer_wf(g: DiGraphView, layer: Seq<(usize, Vec<u32>)>) -> bool {
    forall|t: int| 0 <= t < layer.len() ==> (#[trigger] layer[t]).0 < g.colors.len()
}

/// Paths of one more vertex whose length-`i` prefix is matched by an entry
/// of `layer` below `t` are already stored in `next`.
pub open spec fn complete_upto(
    g: DiGraphView,
    i: nat,
    s: usize,
    layer: Seq<(usize, Vec<u32>)>,
    t: int,
    next: Seq<(usize, Vec<u32>)>,
) -> bool {
    forall|p: Seq<usize>|
        #[trigger] colorful_path_from(g, i + 1, s, p) ==> ((exists|t2: int|
            0 <= t2 < t && entry_matches(g.colors, #[trigger] layer[t2], p.take(i as int)))
            ==> layer_has(g.colors, next, p))
}

/// Paths of one more vertex whose prefix is matched by `entry` and whose
/// last step uses an edge below `j` are already stored in `next`.
pub open spec fn edge_upto(
    g: DiGraphView,
    i: nat,
    s: usize,
    entry: (usize, Vec<u32>),
    j: int,
    next: Seq<(usize, Vec<u32>)>,
) -> bool {
    forall|p: Seq<usize>|
        #[trigger] colorful_path_from(g, i + 1, s, p) ==> ((entry_matches(
            g.colors,
            entry,
            p.take(i as int),
        ) && exists|j2: int| 0 <= j2 < j && (#[trigger] g.edges[j2]) == (p[i - 1], p[i as int]))
            ==> layer_has(g.colors, next, p))
}

proof fn lemma_layer_has_push(
    colors: Seq<u32>,
    layer: Seq<(usize, Vec<u32>)>,
    x: (usize, Vec<u32>),
)
    ensures
        forall|p: Seq<usize>|
            #[trigger] layer_has(colors, layer, p) ==> layer_has(colors, layer.push(x), p),
{
    assert forall|p: Seq<usize>| #[trigger] layer_has(colors, layer, p) implies layer_has(
        colors,
        layer.push(x),
        p,
    ) by {
        let t = choose|t: int| 0 <= t < layer.len() && entry_matches(colors, #[trigger] layer[t], p);
        assert(layer.push(x)[t] == layer[t]);
    }
}

/// Once every edge has been tried against an entry, every extension whose
/// prefix that entry matches is stored.
proof fn lemma_complete_upto_step(
    g: DiGraphView,
    i: nat,
    s: usize,
    layer: Seq<(usize, Vec<u32>)>,
    t: int,
    next: Seq<(usize, Vec<u32>)>,
)
    requires
        i >= 1,
        0 <= t < layer.len(),
        complete_upto(g, i, s, layer, t, next),
        edge_upto(g, i, s, layer[t], g.edges.len() as int, next),
    ensures
        complete_upto(g, i, s, layer, t + 1, next),
{
    assert forall|p: Seq<usize>| #[trigger]
        colorful_path_from(g, i + 1, s, p) && (exists|t2: int|
        0 <= t2 < t + 1 && entry_matches(
            g.colors,
            #[trigger] layer[t2],
            p.take(i as int),
        )) implies layer_has(g.colors, next, p) by {
        let t2 = choose|t2: int|
            0 <= t2 < t + 1 && entry_matches(g.colors, #[trigger] layer[t2], p.take(i as int));
        if t2 < t {
            assert(exists|t3: int|
                0 <= t3 < t && entry_matches(g.colors, #[trigger] layer[t3], p.take(i as int)));
        } else {
            assert(entry_matches(g.colors, layer[t], p.take(i as int)));
            let x: int = i - 1;
            assert(g.edges.contains((p[x], p[x + 1])));
            assert(g.edges.contains((p[i - 1], p[i as int])));
            let j2 = choose|j2: int|
                0 <= j2 < g.edges.len() && g.edges[j2] == (p[i - 1], p[i as int]);
            assert(exists|j3: int|
                0 <= j3 < g.edges.len() && (#[trigger] g.edges[j3]) == (p[i - 1], p[i as int]));
        }
    }
}

/// Coverage of every stored prefix turns layer completeness at `i` into
/// layer completeness at `i + 1`.
proof fn lemma_next_complete(
    g: DiGraphView,
    i: nat,
    s: usize,
    layer: Seq<(usize, Vec<u32>)>,
    next: Seq<(usize, Vec<u32>)>,
)
    requires
        i >= 1,
        layer_complete(g, i, s, layer),
        complete_upto(g, i, s, layer, layer.len() as int, next),
    ensures
        layer_complete(g, i + 1, s, next),
{
    assert forall|p: Seq<usize>| #[trigger] colorful_path_from(g, i + 1, s, p) implies layer_has(
        g.colors,
        next,
        p,
    ) by {
        lemma_prefix_colorful(g, i + 1, s, p, i);
        assert(colorful_path_from(g, i, s, p.take(i as int)));
        assert(layer_has(g.colors, layer, p.take(i as int)));
        let t2 = choose|t2: int|
            0 <= t2 < layer.len() && entry_matches(g.colors, #[trigger] layer[t2], p.take(i as int));
        assert(exists|t3: int|
            0 <= t3 < layer.len() && entry_matches(
                g.colors,
                #[trigger] layer[t3],
                p.take(i as int),
            ));
    }
}

/// Extending a matched rainbow walk along a fresh-colored edge yields a
/// matched rainbow walk of one more vertex.
proof fn lemma_extended_path(
    g: DiGraphView,
    i: nat,
    s: usize,
    entry: (usize, Vec<u32>),
    pw: Seq<usize>,
    j: int,
    c: u32,
    e: (usize, usize),
)
    requires
        dg_wf(g),
        i >= 1,
        colorful_path_from(g, i, s, pw),
        entry_matches(g.colors, entry, pw),
        0 <= j < g.edges.len(),
        g.edges[j] == e,
        e.0 == entry.0,
        c == g.colors[e.1 as int],
        !entry.1@.contains(c),
    ensures
        e.1 < g.colors.len(),
        colorful_path_from(g, i + 1, s, pw.push(e.1)),
        set_of(entry.1@.push(c)) == path_colors(g.colors, pw.push(e.1)),
        pw.push(e.1).last() == e.1,
{
    let q = pw.push(e.1);
    assert forall|x: int| 0 <= x < q.len() implies (#[trigger] q[x]) < g.colors.len() by {
        if x < pw.len() {
            assert(q[x] == pw[x]);
        }
    }
    assert forall|x: int| 0 <= x < q.len() - 1 implies #[trigger] g.edges.contains(
        (q[x], q[x + 1]),
    ) by {
        if x < pw.len() - 1 {
            assert(q[x] == pw[x] && q[x + 1] == pw[x + 1]);
            assert(g.edges.contains((pw[x], pw[x + 1])));
        } else {
            assert(q[x] == pw.last() && q[x + 1] == e.1);
            assert(pw.last() == entry.0);
            assert(g.edges[j] == (e.0, e.1));
            assert(g.edges.contains((e.0, e.1)));
        }
    }
    assert(rainbow(g.colors, q)) by {
        assert forall|x: int, y: int|
            #![trigger q[x], q[y]]
            0 <= x < y < q.len() implies g.colors[q[x] as int] != g.colors[q[y] as int] by {
            if y < pw.len() {
                assert(q[x] == pw[x] && q[y] == pw[y]);
            } else {
                assert(q[x] == pw[x] && q[y] == e.1);
                assert(path_colors(g.colors, pw).contains(g.colors[pw[x] as int]));
                assert(set_of(entry.1@).contains(g.colors[pw[x] as int]));
                assert(!set_of(entry.1@).contains(c));
            }
        }
    }
    assert(colorful_path_from(g, i + 1, s, q));
    lemma_set_of_push(entry.1@, c);
    lemma_path_colors_push(g.colors, pw, e.1);
}

proof fn lemma_sound_push(
    g: DiGraphView,
    k: nat,
    s: usize,
    next0: Seq<(usize, Vec<u32>)>,
    x: (usize, Vec<u32>),
    q: Seq<usize>,
)
    requires
        layer_sound(g, k, s, next0),
        layer_wf(g, next0),
        colorful_path_from(g, k, s, q),
        entry_matches(g.colors, x, q),
        x.0 < g.colors.len(),
    ensures
        layer_sound(g, k, s, next0.push(x)),
        layer_wf(g, next0.push(x)),
{
    let nxt = next0.push(x);
    assert forall|t2: int| 0 <= t2 < nxt.len() implies exists|p: Seq<usize>|
        colorful_path_from(g, k, s, p) && entry_matches(g.colors, #[trigger] nxt[t2], p) by {
        if t2 < next0.len() {
            assert(nxt[t2] == next0[t2]);
            let p = choose|p: Seq<usize>|
                colorful_path_from(g, k, s, p) && entry_matches(g.colors, next0[t2], p);
            assert(colorful_path_from(g, k, s, p) && entry_matches(g.colors, nxt[t2], p));
        } else {
            assert(nxt[t2] == x);
            assert(colorful_path_from(g, k, s, q) && entry_matches(g.colors, nxt[t2], q));
        }
    }
    assert forall|t2: int| 0 <= t2 < nxt.len() implies (#[trigger] nxt[t2]).0
        < g.colors.len() by {
        if t2 < next0.len() {
            assert(nxt[t2] == next0[t2]);
        } else {
            assert(nxt[t2] == x);
        }
    }
}

/// Pushing the extension for the current edge covers that edge.
proof fn lemma_edge_upto_step_pushed(
    g: DiGraphView,
    i: nat,
    s: usize,
    entry: (usize, Vec<u32>),
    j: int,
    next0: Seq<(usize, Vec<u32>)>,
    x: (usize, Vec<u32>),
)
    requires
        i >= 1,
        dg_wf(g),
        0 <= j < g.edges.len(),
        edge_upto(g, i, s, entry, j, next0),
        x.0 == g.edges[j].1,
        entry.0 == g.edges[j].0,
        set_of(x.1@) == set_of(entry.1@).insert(g.colors[g.edges[j].1 as int]),
    ensures
        edge_upto(g, i, s, entry, j + 1, next0.push(x)),
{
    lemma_layer_has_push(g.colors, next0, x);
    let nxt = next0.push(x);
    assert forall|p: Seq<usize>| #[trigger]
        colorful_path_from(g, i + 1, s, p) && (entry_matches(g.colors, entry, p.take(i as int))
        && exists|j2: int|
        0 <= j2 < j + 1 && (#[trigger] g.edges[j2]) == (
        p[i - 1],
        p[i as int],
    )) implies layer_has(g.colors, nxt, p) by {
        let j2 = choose|j2: int| 0 <= j2 < j + 1 && g.edges[j2] == (p[i - 1], p[i as int]);
        if j2 < j {
            assert(exists|j3: int|
                0 <= j3 < j && (#[trigger] g.edges[j3]) == (p[i - 1], p[i as int]));
            assert(layer_has(g.colors, next0, p));
        } else {
            let pre = p.take(i as int);
            assert(g.edges[j] == (p[i - 1], p[i as int]));
            assert(x.0 == p[i as int] && p.last() == p[i as int]);
            assert(p =~= pre.push(p[i as int]));
            lemma_path_colors_push(g.colors, pre, p[i as int]);
            assert(path_colors(g.colors, p) == path_colors(g.colors, pre).insert(
                g.colors[p[i as int] as int],
            ));
            assert(set_of(x.1@) == path_colors(g.colors, p));
            assert(entry_matches(g.colors, x, p));
            assert(nxt[nxt.len() - 1] == x);
        }
    }
}

/// An edge that leaves another node, or whose far color is already worn,
/// extends no stored walk, so skipping it keeps coverage.
proof fn lemma_edge_upto_step_skip(
    g: DiGraphView,
    i: nat,
    s: usize,
    entry: (usize, Vec<u32>),
    j: int,
    next: Seq<(usize, Vec<u32>)>,
)
    requires
        i >= 1,
        dg_wf(g),
        0 <= j < g.edges.len(),
        edge_upto(g, i, s, entry, j, next),
        g.edges[j].0 != entry.0 || entry.1@.contains(g.colors[g.edges[j].1 as int]),
    ensures
        edge_upto(g, i, s, entry, j + 1, next),
{
    assert forall|p: Seq<usize>| #[trigger]
        colorful_path_from(g, i + 1, s, p) && (entry_matches(g.colors, entry, p.take(i as int))
        && exists|j2: int|
        0 <= j2 < j + 1 && (#[trigger] g.edges[j2]) == (
        p[i - 1],
        p[i as int],
    )) implies layer_has(g.colors, next, p) by {
        let j2 = choose|j2: int| 0 <= j2 < j + 1 && g.edges[j2] == (p[i - 1], p[i as int]);
        if j2 < j {
            assert(exists|j3: int|
                0 <= j3 < j && (#[trigger] g.edges[j3]) == (p[i - 1], p[i as int]));
            assert(layer_has(g.colors, next, p));
        } else {
            let pre = p.take(i as int);
            assert(pre.last() == p[i - 1]);
            assert(entry.0 == p[i - 1]);
            assert(g.edges[j].0 == entry.0);
            let c2 = g.colors[p[i as int] as int];
            assert(entry.1@.contains(c2));
            assert(set_of(entry.1@).contains(c2));
            assert(path_colors(g.colors, pre).contains(c2));
            let x = choose|x: int| 0 <= x < pre.len() && g.colors[(pre[x]) as int] == c2;
            assert(pre[x] == p[x]);
            assert(g.colors[p[x] as int] != g.colors[p[i as int] as int]);
            assert(false);
        }
    }
}

/// Coverage of entries already processed survives when `next` grows.
proof fn lemma_complete_upto_mono(
    g: DiGraphView,
    i: nat,
    s: usize,
    layer: Seq<(usize, Vec<u32>)>,
    t: int,
    next0: Seq<(usize, Vec<u32>)>,
    x: (usize, Vec<u32>),
)
    requires
        complete_upto(g, i, s, layer, t, next0),
    ensures
        complete_upto(g, i, s, layer, t, next0.push(x)),
{
    lemma_layer_has_push(g.colors, next0, x);
    assert forall|p: Seq<usize>| #[trigger]
        colorful_path_from(g, i + 1, s, p) && (exists|t2: int|
        0 <= t2 < t && entry_matches(
            g.colors,
            #[trigger] layer[t2],
            p.take(i as int),
        )) implies layer_has(g.colors, next0.push(x), p) by {
        assert(layer_has(g.colors, next0, p));
    }
}

fn contains_color(cs: &Vec<u32>, c: u32) -> (r: bool)
    ensures
        r == cs@.contains(c),
{
    let mut i: usize = 0;
    while i < cs.len()
        invariant
            i <= cs@.len(),
            forall|j: int| 0 <= j < i ==> cs@[j] != c,
        decreases cs@.len() - i,
    {
        if cs[i] == c {
            assert(cs@.contains(c));
            return true;
        }
        i = i + 1;
    }
    assert(!cs@.contains(c)) by {
        if cs@.contains(c) {
            let j = choose|j: int| 0 <= j < cs@.len() && cs@[j] == c;
        }
    }
    false
}

fn extend_colors(cs: &Vec<u32>, c: u32) -> (r: Vec<u32>)
    ensures
        r@ == cs@.push(c),
{
    let mut r: Vec<u32> = Vec::new();
    let mut i: usize = 0;
    while i < cs.len()
        invariant
            i <= cs@.len(),
            r@ == cs@.take(i as int),
        decreases cs@.len() - i,
    {
        proof {
            assert(cs@.take(i + 1) =~= cs@.take(i as int).push(cs@[i as int]));
        }
        r.push(cs[i]);
        i = i + 1;
    }
    proof {
        assert(cs@.take(cs@.len() as int) =~= cs@);
    }
    r.push(c);
    r
}

/// The breadth-expansion dynamic program for one start node: layer after
/// layer, every reachable (end node, color set) state of rainbow walks from
/// `s` is stored, so the answer is exact for the current coloring.
#[verifier::rlimit(100)]
pub fn find_colorful_path_starting_at(g: &DiGraph, k: u32, s: usize) -> (r: bool)
    requires
        dg_wf(g@),
        s < g@.colors.len(),
        k >= 1,
    ensures
        r == has_colorful_path_from(g@, k as nat, s),
{
    proof {
        let p0: Seq<usize> = seq![s];
        assert(p0.len() == 1 && p0[0] == s && p0.last() == s);
        assert(is_path(g@, p0));
        assert(colorful_path_from(g@, 1nat, s, p0));
    }
    if k == 1 {
        return true;
    }
    let mut layer: Vec<(usize, Vec<u32>)> = Vec::new();
    let c0 = g.color_at(s);
    let mut cs0: Vec<u32> = Vec::new();
    cs0.push(c0);
    layer.push((s, cs0));
    proof {
        let p0: Seq<usize> = seq![s];
        assert(set_of(layer@[0].1@) =~= path_colors(g@.colors, p0)) by {
            assert(layer@[0].1@ =~= seq![c0]);
            assert forall|x: u32| set_of(layer@[0].1@).contains(x) implies path_colors(
                g@.colors,
                p0,
            ).contains(x) by {
                let t = choose|t: int| 0 <= t < layer@[0].1@.len() && layer@[0].1@[t] == x;
                assert(x == c0);
                assert(g@.colors[(p0[0]) as int] == c0);
            }
            assert forall|x: u32| path_colors(g@.colors, p0).contains(x) implies set_of(
                layer@[0].1@,
            ).contains(x) by {
                let t = choose|t: int| 0 <= t < p0.len() && g@.colors[(p0[t]) as int] == x;
                assert(x == c0);
                assert(layer@[0].1@[0] == c0);
            }
        }
        assert(entry_matches(g@.colors, layer@[0], p0));
        assert(layer_sound(g@, 1nat, s, layer@)) by {
            assert(colorful_path_from(g@, 1nat, s, p0) && entry_matches(
                g@.colors,
                layer@[0],
                p0,
            ));
        }
        assert(layer_complete(g@, 1nat, s, layer@)) by {
            assert forall|p: Seq<usize>| #[trigger]
                colorful_path_from(g@, 1nat, s, p) implies layer_has(g@.colors, layer@, p) by {
                assert(p =~= p0);
                assert(entry_matches(g@.colors, layer@[0], p));
            }
        }
    }
    let mut i: u32 = 1;
    while i < k
        invariant
            dg_wf(g@),
            s < g@.colors.len(),
            2 <= k,
            1 <= i <= k,
            layer@.len() >= 1,
            layer_sound(g@, i as nat, s, layer@),
            layer_complete(g@, i as nat, s, layer@),
            layer_wf(g@, layer@),
        decreases k - i,
    {
        let ghost gi = i as nat;
        let mut next: Vec<(usize, Vec<u32>)> = Vec::new();
        let mut t: usize = 0;
        while t < layer.len()
            invariant
                dg_wf(g@),
                s < g@.colors.len(),
                1 <= i < k,
                gi == i as nat,
                t <= layer@.len(),
                layer_sound(g@, gi, s, layer@),
                layer_complete(g@, gi, s, layer@),
                layer_wf(g@, layer@),
                layer_sound(g@, gi + 1, s, next@),
                layer_wf(g@, next@),
                complete_upto(g@, gi, s, layer@, t as int, next@),
            decreases layer@.len() - t,
        {
            let node = layer[t].0;
            let ghost entry = layer@[t as int];
            let m = g.edge_count();
            let mut j: usize = 0;
            while j < m
                invariant
                    dg_wf(g@),
                    s < g@.colors.len(),
                    1 <= i < k,
                    gi == i as nat,
                    t < layer@.len(),
                    m == g@.edges.len(),
                    entry == layer@[t as int],
                    node == entry.0,
                    j <= m,
                    layer_sound(g@, gi, s, layer@),
                    layer_wf(g@, layer@),
                    layer_sound(g@, gi + 1, s, next@),
                    layer_wf(g@, next@),
                    complete_upto(g@, gi, s, layer@, t as int, next@),
                    edge_upto(g@, gi, s, entry, j as int, next@),
                decreases m - j,
            {
                let e = g.edge_at(j);
                let ghost next0 = next@;
                if e.0 == node {
                    let c = g.color_at(e.1);
                    let already = contains_color(&layer[t].1, c);
                    if !already {
                        let ncs = extend_colors(&layer[t].1, c);
                        proof {
                            let pw = choose|p: Seq<usize>|
                                colorful_path_from(g@, gi, s, p) && entry_matches(
                                    g@.colors,
                                    entry,
                                    p,
                                );
                            lemma_extended_path(g@, gi, s, entry, pw, j as int, c, e);
                            lemma_set_of_push(entry.1@, c);
                            lemma_sound_push(
                                g@,
                                gi + 1,
                                s,
                                next0,
                                (e.1, ncs),
                                pw.push(e.1),
                            );
                            lemma_edge_upto_step_pushed(
                                g@,
                                gi,
                                s,
                                entry,
                                j as int,
                                next0,
                                (e.1, ncs),
                            );
                            lemma_complete_upto_mono(g@, gi, s, layer@, t as int, next0, (e.1, ncs));
                        }
                        next.push((e.1, ncs));
                    } else {
                        proof {
                            lemma_edge_upto_step_skip(g@, gi, s, entry, j as int, next0);
                        }
                    }
                } else {
                    proof {
                        lemma_edge_upto_step_skip(g@, gi, s, entry, j as int, next0);
                    }
                }

                j = j + 1;
            }
            proof {
                lemma_complete_upto_step(g@, gi, s, layer@, t as int, next@);
            }
            t = t + 1;
        }
        proof {
            lemma_next_complete(g@, gi, s, layer@, next@);
        }
        layer = next;
        i = i + 1;
        if layer.len() == 0 {
            proof {
                assert(!has_colorful_path_from(g@, k as nat, s)) by {
                    if has_colorful_path_from(g@, k as nat, s) {
                        let p = choose|p: Seq<usize>| colorful_path_from(g@, k as nat, s, p);
                        lemma_prefix_colorful(g@, k as nat, s, p, i as nat);
                        assert(layer_has(g@.colors, layer@, p.take(i as int)));
                    }
                }
            }
            return false;
        }
    }
    proof {
        assert(has_colorful_path_from(g@, k as nat, s)) by {
            let p = choose|p: Seq<usize>|
                colorful_path_from(g@, k as nat, s, p) && entry_matches(
                    g@.colors,
                    #[trigger] layer@[0],
                    p,
                );
            assert(colorful_path_from(g@, k as nat, s, p));
        }
    }
    true
}

/// Whether some colorful path of exactly `k` vertices exists under the
/// current coloring: the start-node search tried from every node.
pub fn find_colorful_path(g: &DiGraph, k: u32) -> (r: bool)
    requires
        dg_wf(g@),
        k >= 1,
    ensures
        r == has_colorful_path(g@, k as nat),
{
    let n = g.node_count();
    let mut s: usize = 0;
    while s < n
        invariant
            dg_wf(g@),
            k >= 1,
            s <= n,
            n == g@.colors.len(),
            forall|s2: usize| s2 < s ==> !(#[trigger] has_colorful_path_from(g@, k as nat, s2)),
        decreases n - s,
    {
        if find_colorful_path_starting_at(g, k, s) {
            proof {
                let p = choose|p: Seq<usize>| #[trigger] colorful_path_from(g@, k as nat, s, p);
                assert(is_path(g@, p) && p.len() == k as nat && rainbow(g@.colors, p));
            }
            return true;
        }
        s = s + 1;
    }
    proof {
        assert(!has_colorful_path(g@, k as nat)) by {
            if has_colorful_path(g@, k as nat) {
                let p = choose|p: Seq<usize>|
                    #[trigger] is_path(g@, p) && p.len() == k as nat && rainbow(g@.colors, p);
                let s0 = p[0];
                assert(s0 < g@.colors.len());
                assert(colorful_path_from(g@, k as nat, s0, p));
                assert(has_colorful_path_from(g@, k as nat, s0));
            }
        }
    }
    false
}

/// One trial's random coloring: every node gets an independent color drawn
/// from `1 ..= k`, overwriting the previous assignment completely.
pub fn color_graph(g: &mut DiGraph, k: u32)
    requires
        k >= 1,
    ensures
        final(g)@.colors.len() == old(g)@.colors.len(),
        final(g)@.edges == old(g)@.edges,
        forall|v: int| 0 <= v < final(g)@.colors.len() ==> 1 <= #[trigger] final(g)@.colors[v] <= k,
        dg_wf(old(g)@) ==> dg_wf(final(g)@),
{
    let n = g.node_count();
    let mut v: usize = 0;
    while v < n
        invariant
            k >= 1,
            v <= n,
            n == g@.colors.len(),
            g@.edges == old(g)@.edges,
            forall|t: int| 0 <= t < v ==> 1 <= #[trigger] g@.colors[t] <= k,
        decreases n - v,
    {
        let c = random_below(k as usize) as u32 + 1;
        g.set_color(v, c);
        v = v + 1;
    }
}

/// The colorful-path engine: up to `repeats` Monte-Carlo trials, each with a
/// fresh uniform coloring. A `true` answer always certifies a simple path of
/// exactly `k` distinct vertices in the graph; for `k == 1` the answer is
/// exact (a node exists); with `repeats == 0` no trial runs and the answer
/// is `false`.
pub fn find_simple_path(g: DiGraph, k: u32, repeats: u32) -> (r: bool)
    requires
        dg_wf(g@),
        k >= 1,
    ensures
        repeats == 0 ==> !r,
        r ==> has_simple_path(g@, k as nat),
        k == 1 && repeats >= 1 ==> r == (g@.colors.len() > 0),
        g@.colors.len() == 0 ==> !r,
{
    let mut gg = g;
    let mut trial: u32 = 0;
    while trial < repeats
        invariant
            dg_wf(gg@),
            dg_wf(g@),
            k >= 1,
            trial <= repeats,
            gg@.colors.len() == g@.colors.len(),
            gg@.edges == g@.edges,
            trial >= 1 ==> !(k == 1 && g@.colors.len() > 0),
        decreases repeats - trial,
    {
        color_graph(&mut gg, k);
        let found = find_colorful_path(&gg, k);
        proof {
            if k == 1 && gg@.colors.len() > 0 {
                let p0: Seq<usize> = seq![0usize];
                assert(is_path(gg@, p0) && p0.len() == 1 && rainbow(gg@.colors, p0));
                assert(has_colorful_path(gg@, 1nat));
            }
        }
        if found {
            proof {
                let p = choose|p: Seq<usize>|
                    #[trigger] is_path(gg@, p) && p.len() == k as nat && rainbow(gg@.colors, p);
                lemma_rainbow_distinct(gg@.colors, p);
                assert(is_path(g@, p)) by {
                    assert forall|x: int| 0 <= x < p.len() implies (#[trigger] p[x])
                        < g@.colors.len() by {}
                }
                assert(has_simple_path(g@, k as nat));
                assert(g@.colors.len() > 0) by {
                    assert(p[0] < g@.colors.len());
                }
            }
            return true;
        }
        trial = trial + 1;
    }
    false
}

} // verus!
