use vstd::prelude::*;
use crate::ungraph::{
    UGraph, UGraphView, ug_wf, components_of, isomorphic, connected_components, graphs_isomorphic,
};
use crate::rng::random_below;

verus! {

/// The label a trial puts on each host edge; only the red edges take part in
/// the component matching.
#[derive(Clone, Copy, PartialEq, Eq, Structural, Debug)]
pub enum Color {
    Red,
    Blue,
}

/// Abstract value of a [`ColoredGraph`]: a node count, the undirected edges,
/// and one color per edge.
#[verifier::ext_equal]
pub struct ColoredGraphView {
    pub n: nat,
    pub edges: Seq<(usize, usize)>,
    pub colors: Seq<Color>,
}

/// An undirected host graph whose edges each carry a [`Color`].
pub struct ColoredGraph {
    n: usize,
    edges: Vec<(usize, usize)>,
    colors: Vec<Color>,
}

impl View for ColoredGraph {
    type V = ColoredGraphView;

    closed spec fn view(&self) -> ColoredGraphView {
        ColoredGraphView { n: self.n as nat, edges: self.edges@, colors: self.colors@ }
    }
}

pub open spec fn cg_wf(g: ColoredGraphView) -> bool {
    &&& g.colors.len() == g.edges.len()
    &&& forall|i: int|
        0 <= i < g.edges.len() ==> (#[trigger] g.edges[i]).0 < g.n && g.edges[i].1 < g.n
}

impl ColoredGraph {
    pub fn new() -> (g: ColoredGraph)
        ensures
            g@.n == 0,
            g@.edges.len() == 0,
            g@.colors.len() == 0,
            cg_wf(g@),
    {
        ColoredGraph { n: 0, edges: Vec::new(), colors: Vec::new() }
    }

    pub fn add_node(&mut self) -> (v: usize)
        requires
            old(self)@.n < usize::MAX,
        ensures
            final(self)@.n == old(self)@.n + 1,
            final(self)@.edges == old(self)@.edges,
            final(self)@.colors == old(self)@.colors,
            v == old(self)@.n,
            cg_wf(old(self)@) ==> cg_wf(final(self)@),
    {
        let v = self.n;
        self.n = self.n + 1;
        v
    }

    pub fn add_edge(&mut self, a: usize, b: usize, color: Color)
        requires
            a < old(self)@.n,
            b < old(self)@.n,
        ensures
            final(self)@.n == old(self)@.n,
            final(self)@.edges == old(self)@.edges.push((a, b)),
            final(self)@.colors == old(self)@.colors.push(color),
            cg_wf(old(self)@) ==> cg_wf(final(self)@),
    {
        self.edges.push((a, b));
        self.colors.push(color);
        proof {
            if cg_wf(old(self)@) {
                assert forall|i: int| 0 <= i < self@.edges.len() implies (#[trigger] self@
                    .edges[i]).0 < self@.n && self@.edges[i].1 < self@.n by {
                    if i < self@.edges.len() - 1 {
                        assert(self@.edges[i] == old(self)@.edges[i]);
                    }
                }
            }
        }
    }

    pub fn node_count(&self) -> (n: usize)
        ensures
            n == self@.n,
    {
        self.n
    }

    pub fn edge_count(&self) -> (m: usize)
        ensures
            m == self@.edges.len(),
    {
        self.edges.len()
    }

    pub fn set_color(&mut self, i: usize, c: Color)
        requires
            i < old(self)@.colors.len(),
        ensures
            final(self)@.n == old(self)@.n,
            final(self)@.edges == old(self)@.edges,
            final(self)@.colors == old(self)@.colors.update(i as int, c),
    {
        self.colors.set(i, c);
    }
}

/// The edges whose label is red, in order.
pub open spec fn red_edges(edges: Seq<(usize, usize)>, colors: Seq<Color>) -> Seq<(usize, usize)>
    decreases edges.len(),
{
    if edges.len() == 0 {
        edges
    } else {
        let rest = red_edges(edges.drop_last(), colors);
        if edges.len() - 1 < colors.len() && colors[edges.len() - 1] == Color::Red {
            rest.push(edges.last())
        } else {
            rest
        }
    }
}

proof fn lemma_red_edges_len(edges: Seq<(usize, usize)>, colors: Seq<Color>)
    ensures
        red_edges(edges, colors).len() <= edges.len(),
    decreases edges.len(),
{
    if edges.len() > 0 {
        lemma_red_edges_len(edges.drop_last(), colors);
    }
}

/// First index of `v` in `comp`, or `-1` when absent.
pub open spec fn first_pos(comp: Seq<usize>, v: usize) -> int
    decreases comp.len(),
{
    if comp.len() == 0 {
        -1
    } else if comp[0] == v {
        0
    } else {
        let r = first_pos(comp.drop_first(), v);
        if r < 0 {
            -1
        } else {
            r + 1
        }
    }
}

proof fn lemma_first_pos_found(comp: Seq<usize>, v: usize, i: int)
    requires
        0 <= i < comp.len(),
        comp[i] == v,
        forall|t: int| 0 <= t < i ==> comp[t] != v,
    ensures
        first_pos(comp, v) == i,
    decreases comp.len(),
{
    if i > 0 {
        lemma_first_pos_found(comp.drop_first(), v, i - 1);
    }
}

proof fn lemma_first_pos_absent(comp: Seq<usize>, v: usize)
    requires
        forall|t: int| 0 <= t < comp.len() ==> comp[t] != v,
    ensures
        first_pos(comp, v) == -1,
    decreases comp.len(),
{
    if comp.len() > 0 {
        lemma_first_pos_absent(comp.drop_first(), v);
    }
}

proof fn lemma_first_pos_bounds(comp: Seq<usize>, v: usize)
    ensures
        first_pos(comp, v) == -1 || (0 <= first_pos(comp, v) < comp.len()),
    decreases comp.len(),
{
    if comp.len() > 0 {
        lemma_first_pos_bounds(comp.drop_first(), v);
    }
}

fn find_pos(comp: &Vec<usize>, v: usize) -> (r: Option<usize>)
    ensures
        match r {
            Some(x) => first_pos(comp@, v) == x && x < comp@.len(),
            None => first_pos(comp@, v) == -1,
        },
{
    let mut i: usize = 0;
    while i < comp.len()
        invariant
            i <= comp@.len(),
            forall|t: int| 0 <= t < i ==> comp@[t] != v,
        decreases comp@.len() - i,
    {
        if comp[i] == v {
            proof {
                lemma_first_pos_found(comp@, v, i as int);
            }
            return Some(i);
        }
        i = i + 1;
    }
    proof {
        lemma_first_pos_absent(comp@, v);
    }
    None
}

/// The subgraph induced on the nodes listed in `comp`, relabelled to
/// `0 .. comp.len()` by position: exactly the edges both of whose endpoints
/// lie in `comp`.
pub open spec fn induced_edges(es: Seq<(usize, usize)>, comp: Seq<usize>) -> Seq<(usize, usize)>
    decreases es.len(),
{
    if es.len() == 0 {
        es
    } else {
        let rest = induced_edges(es.drop_last(), comp);
        let pa = first_pos(comp, es.last().0);
        let pb = first_pos(comp, es.last().1);
        if pa >= 0 && pb >= 0 {
            rest.push((pa as usize, pb as usize))
        } else {
            rest
        }
    }
}

pub open spec fn induced_view(g: UGraphView, comp: Seq<usize>) -> UGraphView {
    UGraphView { n: comp.len(), edges: induced_edges(g.edges, comp) }
}

proof fn lemma_induced_len(es: Seq<(usize, usize)>, comp: Seq<usize>)
    ensures
        induced_edges(es, comp).len() <= es.len(),
    decreases es.len(),
{
    if es.len() > 0 {
        lemma_induced_len(es.drop_last(), comp);
    }
}

fn induced(g: &UGraph, comp: &Vec<usize>) -> (r: UGraph)
    ensures
        r@ == induced_view(g@, comp@),
        ug_wf(r@),
{
    let mut edges: Vec<(usize, usize)> = Vec::new();
    let m = g.edge_count();
    let mut i: usize = 0;
    while i < m
        invariant
            i <= m,
            m == g@.edges.len(),
            edges@ == induced_edges(g@.edges.take(i as int), comp@),
            forall|j: int|
                0 <= j < edges@.len() ==> (#[trigger] edges@[j]).0 < comp@.len() && edges@[j].1
                    < comp@.len(),
        decreases m - i,
    {
        proof {
            assert(g@.edges.take(i + 1).drop_last() =~= g@.edges.take(i as int));
            lemma_first_pos_bounds(comp@, g@.edges[i as int].0);
            lemma_first_pos_bounds(comp@, g@.edges[i as int].1);
        }
        let e = g.edge_at(i);
        let pa = find_pos(comp, e.0);
        let pb = find_pos(comp, e.1);
        match (pa, pb) {
            (Some(x), Some(y)) => {
                edges.push((x, y));
            },
            _ => {},
        }
        i = i + 1;
    }
    proof {
        assert(g@.edges.take(g@.edges.len() as int) =~= g@.edges);
    }
    UGraph::from_parts(comp.len(), edges)
}

/// Index of the first component in `comps`, from `from` on, whose induced
/// subgraph of `gv` the isomorphism test accepts against `target`; `-1` when
/// none does.
pub open spec fn first_iso(
    target: UGraphView,
    comps: Seq<Seq<usize>>,
    gv: UGraphView,
    from: int,
) -> int
    decreases comps.len() - from,
{
    if from < 0 || from >= comps.len() {
        -1
    } else if isomorphic(
        target.n,
        target.edges,
        induced_view(gv, comps[from]).n,
        induced_view(gv, comps[from]).edges,
    ) {
        from
    } else {
        first_iso(target, comps, gv, from + 1)
    }
}

proof fn lemma_first_iso_bounds(target: UGraphView, comps: Seq<Seq<usize>>, gv: UGraphView, from: int)
    ensures
        first_iso(target, comps, gv, from) == -1 || (from <= first_iso(target, comps, gv, from)
            < comps.len()),
    decreases comps.len() - from,
{
    if 0 <= from < comps.len() {
        lemma_first_iso_bounds(target, comps, gv, from + 1);
    }
}

/// The greedy per-component matching: each pattern component takes the first
/// still-unused red host component the isomorphism test accepts, and the
/// match succeeds when every pattern component finds one.
pub open spec fn greedy_matched(
    h: UGraphView,
    h_comps: Seq<Seq<usize>>,
    gv: UGraphView,
    g_comps: Seq<Seq<usize>>,
) -> bool
    decreases h_comps.len(),
{
    if h_comps.len() == 0 {
        true
    } else {
        let i = first_iso(induced_view(h, h_comps[0]), g_comps, gv, 0);
        if i < 0 {
            false
        } else {
            greedy_matched(h, h_comps.drop_first(), gv, g_comps.remove(i))
        }
    }
}

/// Searches the still-unused red host components for the first one whose
/// induced subgraph is accepted against `target`.
fn find_isomorphic_component(
    target: &UGraph,
    comps: &Vec<Vec<usize>>,
    g_red: &UGraph,
    Ghost(gcomps): Ghost<Seq<Seq<usize>>>,
) -> (r: Option<usize>)
    requires
        ug_wf(target@),
        ug_wf(g_red@),
        target@.n < 0xFFFF_FFFFusize,
        target@.edges.len() < 0xFFFF_FFFFusize,
        g_red@.n < 0xFFFF_FFFFusize,
        g_red@.edges.len() < 0xFFFF_FFFFusize,
        comps@.len() == gcomps.len(),
        forall|a: int| 0 <= a < comps@.len() ==> (#[trigger] comps@[a])@ == gcomps[a],
        forall|a: int| 0 <= a < gcomps.len() ==> (#[trigger] gcomps[a]).len() <= g_red@.n,
    ensures
        match r {
            Some(i) => i < comps@.len() && first_iso(target@, gcomps, g_red@, 0) == i,
            None => first_iso(target@, gcomps, g_red@, 0) == -1,
        },
{
    let mut i: usize = 0;
    while i < comps.len()
        invariant
            ug_wf(target@),
            ug_wf(g_red@),
            target@.n < 0xFFFF_FFFFusize,
            target@.edges.len() < 0xFFFF_FFFFusize,
            g_red@.n < 0xFFFF_FFFFusize,
            g_red@.edges.len() < 0xFFFF_FFFFusize,
            comps@.len() == gcomps.len(),
            forall|a: int| 0 <= a < comps@.len() ==> (#[trigger] comps@[a])@ == gcomps[a],
            forall|a: int| 0 <= a < gcomps.len() ==> (#[trigger] gcomps[a]).len() <= g_red@.n,
            i <= comps@.len(),
            first_iso(target@, gcomps, g_red@, 0) == first_iso(target@, gcomps, g_red@, i as int),
        decreases comps@.len() - i,
    {
        let cand = induced(g_red, &comps[i]);
        proof {
            lemma_induced_len(g_red@.edges, gcomps[i as int]);
        }
        if graphs_isomorphic(target, &cand) {
            return Some(i);
        }
        i = i + 1;
    }
    None
}

/// The red subgraph of the host: same nodes, only the red edges.
fn red_subgraph(g: &ColoredGraph) -> (r: UGraph)
    requires
        cg_wf(g@),
    ensures
        r@.n == g@.n,
        r@.edges == red_edges(g@.edges, g@.colors),
        ug_wf(r@),
{
    let mut edges: Vec<(usize, usize)> = Vec::new();
    let m = g.edge_count();
    let mut i: usize = 0;
    while i < m
        invariant
            cg_wf(g@),
            i <= m,
            m == g@.edges.len(),
            edges@ == red_edges(g@.edges.take(i as int), g@.colors),
            forall|j: int|
                0 <= j < edges@.len() ==> (#[trigger] edges@[j]).0 < g@.n && edges@[j].1 < g@.n,
        decreases m - i,
    {
        proof {
            assert(g@.edges.take(i + 1).drop_last() =~= g@.edges.take(i as int));
        }
        let e = g.edge_at(i);
        let c = g.color_at(i);
        if c == Color::Red {
            edges.push(e);
        }
        i = i + 1;
    }
    proof {
        assert(g@.edges.take(g@.edges.len() as int) =~= g@.edges);
    }
    let n = g.node_count();
    UGraph::from_parts(n, edges)
}

impl ColoredGraph {
    pub fn edge_at(&self, i: usize) -> (e: (usize, usize))
        requires
            i < self@.edges.len(),
        ensures
            e == self@.edges[i as int],
    {
        self.edges[i]
    }

    pub fn color_at(&self, i: usize) -> (c: Color)
        requires
            i < self@.colors.len(),
        ensures
            c == self@.colors[i as int],
    {
        self.colors[i]
    }
}

/// What one separation trial decides for a host coloring `cs`: the greedy
/// matching of the pattern's components against the red components of the
/// host under that coloring.
pub open spec fn separation_trial_succeeds(
    n: nat,
    edges: Seq<(usize, usize)>,
    cs: Seq<Color>,
    h: UGraphView,
) -> bool {
    greedy_matched(
        h,
        components_of(h.n, h.edges),
        UGraphView { n: n, edges: red_edges(edges, cs) },
        components_of(n, red_edges(edges, cs)),
    )
}

/// One trial's matching, exact for the host coloring it is given: the red
/// subgraph is decomposed into components, the pattern likewise, and each
/// pattern component greedily claims the first unused isomorphic red
/// component.
pub fn has_isomorphic_subgraph(g: &ColoredGraph, h: &UGraph) -> (r: bool)
    requires
        cg_wf(g@),
        ug_wf(h@),
        g@.n < 0xFFFF_FFFFusize,
        g@.edges.len() < 0xFFFF_FFFFusize,
        h@.n < 0xFFFF_FFFFusize,
        h@.edges.len() < 0xFFFF_FFFFusize,
    ensures
        r == separation_trial_succeeds(g@.n, g@.edges, g@.colors, h@),
        h@.n == 0 ==> r,
{
    let g_red = red_subgraph(g);
    proof {
        lemma_red_edges_len(g@.edges, g@.colors);
    }
    let mut comps_g = connected_components(&g_red);
    let comps_h = connected_components(h);
    let ghost red_view = g_red@;
    let ghost ch = components_of(h@.n, h@.edges);
    let ghost target = greedy_matched(h@, ch, red_view, components_of(red_view.n, red_view.edges));
    let ghost mut gcomps = components_of(red_view.n, red_view.edges);
    proof {
        assert forall|a: int| 0 <= a < comps_g@.len() implies (#[trigger] comps_g@[a])@
            == gcomps[a] by {
            assert(comps_g@.map_values(|c: Vec<usize>| c@)[a] == comps_g@[a]@);
        }
        assert forall|a: int| 0 <= a < comps_h@.len() implies (#[trigger] comps_h@[a])@
            == ch[a] by {
            assert(comps_h@.map_values(|c: Vec<usize>| c@)[a] == comps_h@[a]@);
        }
        assert(comps_g@.len() == gcomps.len());
        assert(comps_h@.len() == ch.len());
        assert(red_view =~= UGraphView { n: g@.n, edges: red_edges(g@.edges, g@.colors) });
        assert forall|a: int| 0 <= a < gcomps.len() implies (#[trigger] gcomps[a]).len()
            <= red_view.n by {
            assert(comps_g@[a]@ == gcomps[a]);
        }
        assert forall|a: int| 0 <= a < ch.len() implies (#[trigger] ch[a]).len() <= h@.n by {
            assert(comps_h@[a]@ == ch[a]);
        }
        assert(ch.skip(0) =~= ch);
    }
    let mut ci: usize = 0;
    while ci < comps_h.len()
        invariant
            ug_wf(h@),
            ug_wf(g_red@),
            g_red@ == red_view,
            h@.n < 0xFFFF_FFFFusize,
            h@.edges.len() < 0xFFFF_FFFFusize,
            red_view.n < 0xFFFF_FFFFusize,
            red_view.edges.len() < 0xFFFF_FFFFusize,
            ci <= comps_h@.len(),
            h@.n == 0 ==> comps_h@.len() == 0,
            comps_h@.len() == ch.len(),
            forall|a: int| 0 <= a < comps_h@.len() ==> (#[trigger] comps_h@[a])@ == ch[a],
            forall|a: int| 0 <= a < ch.len() ==> (#[trigger] ch[a]).len() <= h@.n,
            comps_g@.len() == gcomps.len(),
            forall|a: int| 0 <= a < comps_g@.len() ==> (#[trigger] comps_g@[a])@ == gcomps[a],
            forall|a: int| 0 <= a < gcomps.len() ==> (#[trigger] gcomps[a]).len() <= red_view.n,
            greedy_matched(h@, ch.skip(ci as int), red_view, gcomps) == target,
            target == separation_trial_succeeds(g@.n, g@.edges, g@.colors, h@),
        decreases comps_h@.len() - ci,
    {
        let hc = induced(h, &comps_h[ci]);
        proof {
            lemma_induced_len(h@.edges, ch[ci as int]);
            assert(ch.skip(ci as int)[0] == ch[ci as int]);
        }
        let found = find_isomorphic_component(&hc, &comps_g, &g_red, Ghost(gcomps));
        match found {
            None => {
                proof {
                    assert(greedy_matched(h@, ch.skip(ci as int), red_view, gcomps) == false);
                }
                return false;
            },
            Some(idx) => {
                proof {
                    lemma_first_iso_bounds(hc@, gcomps, red_view, 0);
                    assert(ch.skip(ci as int).drop_first() =~= ch.skip(ci as int + 1));
                }
                let ghost oldcg = comps_g@;
                let ghost oldgc = gcomps;
                let _removed = comps_g.remove(idx);
                proof {
                    gcomps = gcomps.remove(idx as int);
                    assert(comps_g@.len() == gcomps.len());
                    assert forall|a: int| 0 <= a < comps_g@.len() implies (#[trigger] comps_g@[a])@
                        == gcomps[a] by {
                        if a < idx {
                            assert(comps_g@[a] == oldcg[a] && gcomps[a] == oldgc[a]);
                        } else {
                            assert(comps_g@[a] == oldcg[a + 1] && gcomps[a] == oldgc[a + 1]);
                        }
                    }
                    assert forall|a: int| 0 <= a < gcomps.len() implies (#[trigger] gcomps[a]).len()
                        <= red_view.n by {
                        if a < idx {
                            assert(gcomps[a] == oldgc[a]);
                        } else {
                            assert(gcomps[a] == oldgc[a + 1]);
                        }
                    }
                }
            },
        }
        ci = ci + 1;
    }
    proof {
        assert(ch.skip(ch.len() as int) =~= Seq::<Seq<usize>>::empty());
    }
    true
}

/// One trial's random coloring: each host edge independently turns red or
/// blue, overwriting the previous labels completely.
pub fn color_graph(g: &mut ColoredGraph)
    requires
        cg_wf(old(g)@),
    ensures
        cg_wf(final(g)@),
        final(g)@.n == old(g)@.n,
        final(g)@.edges == old(g)@.edges,
        final(g)@.colors.len() == old(g)@.colors.len(),
{
    let m = g.edge_count();
    let mut i: usize = 0;
    while i < m
        invariant
            cg_wf(g@),
            i <= m,
            m == g@.edges.len(),
            g@.colors.len() == g@.edges.len(),
            g@.n == old(g)@.n,
            g@.edges == old(g)@.edges,
        decreases m - i,
    {
        let c = if random_below(2) == 0 {
            Color::Red
        } else {
            Color::Blue
        };
        g.set_color(i, c);
        i = i + 1;
    }
}

/// The random-separation engine: up to `max_repeats` Monte-Carlo trials,
/// each 2-coloring the host edges afresh and then matching components. A
/// `true` answer certifies that some coloring's greedy matching succeeds;
/// with `max_repeats == 0` no trial runs and the answer is `false`.
pub fn find_subgraph(g: ColoredGraph, h: &UGraph, max_repeats: u32) -> (r: bool)
    requires
        cg_wf(g@),
        ug_wf(h@),
        g@.n < 0xFFFF_FFFFusize,
        g@.edges.len() < 0xFFFF_FFFFusize,
        h@.n < 0xFFFF_FFFFusize,
        h@.edges.len() < 0xFFFF_FFFFusize,
    ensures
        max_repeats == 0 ==> !r,
        max_repeats >= 1 && h@.n == 0 ==> r,
        r ==> exists|cs: Seq<Color>|
            cs.len() == g@.edges.len() && #[trigger] separation_trial_succeeds(
                g@.n,
                g@.edges,
                cs,
                h@,
            ),
{
    let mut gg = g;
    let mut trial: u32 = 0;
    while trial < max_repeats
        invariant
            cg_wf(gg@),
            ug_wf(h@),
            trial <= max_repeats,
            gg@.n == g@.n,
            gg@.edges == g@.edges,
            g@.n < 0xFFFF_FFFFusize,
            g@.edges.len() < 0xFFFF_FFFFusize,
            h@.n < 0xFFFF_FFFFusize,
            h@.edges.len() < 0xFFFF_FFFFusize,
            trial >= 1 ==> h@.n != 0,
        decreases max_repeats - trial,
    {
        color_graph(&mut gg);
        if has_isomorphic_subgraph(&gg, h) {
            proof {
                assert(separation_trial_succeeds(g@.n, g@.edges, gg@.colors, h@));
                assert(gg@.colors.len() == g@.edges.len());
            }
            return true;
        }
        trial = trial + 1;
    }
    false
}

} // verus!
