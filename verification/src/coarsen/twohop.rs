use vstd::prelude::*;

use crate::coarsen::coarse_graph::build_coarse_graph;
use crate::coarsen::matching::{
    base_inv, free_best, initial_match, keep_alone, lemma_base_alone, lemma_base_complete,
    lemma_base_initial, lemma_base_pair, lemma_base_skip, lemma_count_true_bounds, lemma_free_best,
    lemma_has_neighbor, pair_up, MatchState,
};
use crate::coarsen::shem::{heavy_first_keys, heavy_first_order};
use crate::coarsen::coarse_graph::lemma_is_contraction_graph;
use crate::coarsen::{below_threshold, coarsens, run_level, stop_threshold, Coarsener};
use crate::graph::csr::{lemma_valid_facts, CsrGraph, GraphView};
use crate::graph::partition::{covers, CoarseMap};
use crate::random::is_permutation;
use crate::util::{key_sorted, lemma_sorted_order, sorted_order};

verus! {

/// First pass: an unmatched vertex is merged with the neighbour across its
/// heaviest edge to an unmatched vertex, and left unmatched when there is none.
pub open spec fn pair_step(g: GraphView, s: MatchState, v: int) -> MatchState {
    if s.matched[v] {
        s
    } else {
        match free_best(g, s.matched, g.lo(v), g.hi(v)) {
            Some(j) => pair_up(s, v, g.nbr(j)),
            None => s,
        }
    }
}

/// The first pass after visiting the first `i` vertices of `order`.
pub open spec fn pair_run(g: GraphView, order: Seq<usize>, i: int) -> MatchState
    decreases i,
{
    if i <= 0 {
        initial_match(g.n())
    } else {
        pair_step(g, pair_run(g, order, i - 1), order[i - 1] as int)
    }
}

/// The smaller of two weights.
pub open spec fn weight_min(a: int, b: int) -> int {
    if a < b {
        a
    } else {
        b
    }
}

/// Scan the slots `lo..r` of a neighbour `w` of `v`, reached over an edge of
/// weight `ew_vw`, for an unmatched vertex other than `v`; the candidate with
/// the strictly largest path weight `min(ew_vw, ew_wu)` seen so far wins.
pub open spec fn hop_inner(
    g: GraphView,
    matched: Seq<bool>,
    v: int,
    ew_vw: int,
    lo: int,
    r: int,
    acc: (Option<int>, int),
) -> (Option<int>, int)
    decreases r - lo,
{
    if r <= lo {
        acc
    } else {
        let a = hop_inner(g, matched, v, ew_vw, lo, r - 1, acc);
        let u = g.nbr(r - 1);
        if matched[u] || u == v {
            a
        } else {
            let p = weight_min(ew_vw, g.ew(r - 1));
            if p > a.1 {
                (Some(u), p)
            } else {
                a
            }
        }
    }
}

/// The best two-hop candidate of `v` through its slots `lo..r`, with its path weight.
pub open spec fn hop_scan(g: GraphView, matched: Seq<bool>, v: int, lo: int, r: int) -> (Option<int>, int)
    decreases r - lo,
{
    if r <= lo {
        (None, i32::MIN as int)
    } else {
        let a = hop_scan(g, matched, v, lo, r - 1);
        let w = g.nbr(r - 1);
        hop_inner(g, matched, v, g.ew(r - 1), g.lo(w), g.hi(w), a)
    }
}

/// Second pass: an unmatched vertex is merged with its best two-hop
/// candidate, or kept alone when there is none.
pub open spec fn hop_step(g: GraphView, s: MatchState, v: int) -> MatchState {
    if s.matched[v] {
        s
    } else {
        match hop_scan(g, s.matched, v, g.lo(v), g.hi(v)).0 {
            Some(u) => pair_up(s, v, u),
            None => keep_alone(s, v),
        }
    }
}

/// The second pass, started from `s0`, after visiting vertices `0..i`.
pub open spec fn hop_run(g: GraphView, s0: MatchState, i: int) -> MatchState
    decreases i,
{
    if i <= 0 {
        s0
    } else {
        hop_step(g, hop_run(g, s0, i - 1), i - 1)
    }
}

/// Both passes: direct matching over `order`, then two-hop matching of the
/// vertices left over, in increasing index order.
pub open spec fn two_hop_result(g: GraphView, order: Seq<usize>) -> MatchState {
    hop_run(g, pair_run(g, order, order.len() as int), g.n())
}

pub open spec fn opt_index(o: Option<usize>) -> Option<int> {
    match o {
        Some(u) => Some(u as int),
        None => None,
    }
}

/// A candidate is an unmatched vertex other than `v`.
pub open spec fn good_candidate(g: GraphView, matched: Seq<bool>, v: int, a: (Option<int>, int)) -> bool {
    a.0 matches Some(u) ==> 0 <= u < g.n() && !matched[u] && u != v
}

proof fn lemma_hop_inner(
    g: GraphView,
    matched: Seq<bool>,
    v: int,
    ew_vw: int,
    w: int,
    r: int,
    acc: (Option<int>, int),
)
    requires
        g.sound(),
        0 <= w < g.n(),
        g.lo(w) <= r <= g.hi(w),
        good_candidate(g, matched, v, acc),
    ensures
        good_candidate(g, matched, v, hop_inner(g, matched, v, ew_vw, g.lo(w), r, acc)),
    decreases r - g.lo(w),
{
    if r > g.lo(w) {
        lemma_hop_inner(g, matched, v, ew_vw, w, r - 1, acc);
        assert(g.xadj[w + 1] <= g.xadj[g.n()]);
        assert((g.adjncy[r - 1] as int) < g.n());
    }
}

proof fn lemma_hop_scan(g: GraphView, matched: Seq<bool>, v: int, r: int)
    requires
        g.sound(),
        0 <= v < g.n(),
        g.lo(v) <= r <= g.hi(v),
    ensures
        good_candidate(g, matched, v, hop_scan(g, matched, v, g.lo(v), r)),
    decreases r - g.lo(v),
{
    if r > g.lo(v) {
        lemma_hop_scan(g, matched, v, r - 1);
        assert(g.xadj[v + 1] <= g.xadj[g.n()]);
        let w = g.nbr(r - 1);
        assert(0 <= w < g.n());
        assert(g.xadj[w] <= g.xadj[w + 1]);
        lemma_hop_inner(g, matched, v, g.ew(r - 1), w, g.hi(w), hop_scan(g, matched, v, g.lo(v), r - 1));
    }
}

/// The best unmatched vertex other than `v` two hops away from `v`.
fn two_hop_partner(g: &CsrGraph, matched: &[bool], v: usize) -> (r: Option<usize>)
    requires
        g@.sound(),
        (v as int) < g@.n(),
        matched@.len() == g@.n(),
    ensures
        opt_index(r) == hop_scan(g@, matched@, v as int, g@.lo(v as int), g@.hi(v as int)).0,
{
    let ghost gv = g@;
    let xadj = g.xadj();
    let adjncy = g.adjncy();
    proof {
        assert(gv.xadj[v as int] <= gv.xadj[v as int + 1] <= gv.xadj[gv.n()]);
    }
    let lo = xadj[v] as usize;
    let hi = xadj[v + 1] as usize;
    let mut best_u: Option<usize> = None;
    let mut best_wt: i32 = i32::MIN;
    let mut j1 = lo;
    while j1 < hi
        invariant
            gv == g@,
            gv.sound(),
            xadj@ == gv.xadj,
            adjncy@ == gv.adjncy,
            matched@.len() == gv.n(),
            (v as int) < gv.n(),
            lo == gv.lo(v as int),
            hi == gv.hi(v as int),
            hi <= gv.m(),
            lo <= j1 <= hi,
            (opt_index(best_u), best_wt as int) == hop_scan(gv, matched@, v as int, lo as int, j1 as int),
        decreases hi - j1,
    {
        let w = adjncy[j1] as usize;
        proof {
            assert((gv.adjncy[j1 as int] as int) < gv.n());
            assert(gv.xadj[w as int] <= gv.xadj[w as int + 1] <= gv.xadj[gv.n()]);
        }
        let ew_vw = g.edge_weight(j1);
        let wlo = xadj[w] as usize;
        let whi = xadj[w + 1] as usize;
        let ghost acc0 = hop_scan(gv, matched@, v as int, lo as int, j1 as int);
        let mut j2 = wlo;
        while j2 < whi
            invariant
                gv == g@,
                gv.sound(),
                xadj@ == gv.xadj,
                adjncy@ == gv.adjncy,
                matched@.len() == gv.n(),
                wlo == gv.lo(w as int),
                whi == gv.hi(w as int),
                whi <= gv.m(),
                wlo <= j2 <= whi,
                ew_vw as int == gv.ew(j1 as int),
                (opt_index(best_u), best_wt as int) == hop_inner(
                    gv,
                    matched@,
                    v as int,
                    ew_vw as int,
                    wlo as int,
                    j2 as int,
                    acc0,
                ),
            decreases whi - j2,
        {
            let u = adjncy[j2] as usize;
            proof {
                assert((gv.adjncy[j2 as int] as int) < gv.n());
            }
            if !matched[u] && u != v {
                let ew_wu = g.edge_weight(j2);
                let p = if ew_vw < ew_wu {
                    ew_vw
                } else {
                    ew_wu
                };
                if p > best_wt {
                    best_wt = p;
                    best_u = Some(u);
                }
            }
            j2 += 1;
        }
        j1 += 1;
    }
    best_u
}

/// Two-hop matching over the visiting order `order` for the first pass.
/// Returns the fine-to-coarse map and the number of coarse vertices.
pub fn match_two_hop(g: &CsrGraph, order: &[usize]) -> (r: (Vec<u32>, usize))
    requires
        g@.sound(),
        forall|t: int| 0 <= t < order@.len() ==> (#[trigger] order@[t] as int) < g@.n(),
    ensures
        r.0@ == two_hop_result(g@, order@).cmap,
        r.1 == two_hop_result(g@, order@).count,
{
    let ghost gv = g@;
    let n = g.n();
    let adjncy = g.adjncy();
    let mut matched: Vec<bool> = vec![false; n];
    let mut cmap: Vec<u32> = vec![u32::MAX; n];
    let mut count: usize = 0;
    proof {
        assert(matched@ =~= initial_match(gv.n()).matched);
        assert(cmap@ =~= initial_match(gv.n()).cmap);
        lemma_base_initial(gv);
    }
    let mut i: usize = 0;
    while i < order.len()
        invariant
            gv == g@,
            gv.sound(),
            n == gv.n(),
            adjncy@ == gv.adjncy,
            forall|t: int| 0 <= t < order@.len() ==> (#[trigger] order@[t] as int) < gv.n(),
            0 <= i <= order@.len(),
            matched@ == pair_run(gv, order@, i as int).matched,
            cmap@ == pair_run(gv, order@, i as int).cmap,
            count == pair_run(gv, order@, i as int).count,
            base_inv(gv, pair_run(gv, order@, i as int), Seq::<usize>::empty()),
        decreases order@.len() - i,
    {
        let ghost s = pair_run(gv, order@, i as int);
        let v = order[i];
        if !matched[v] {
            proof {
                lemma_count_true_bounds(s.matched);
                assert(!s.matched[v as int]);
            }
            let c = count as u32;
            match crate::coarsen::matching::heaviest_free_slot(g, matched.as_slice(), v) {
                Some(j) => {
                    proof {
                        lemma_free_best(gv, s.matched, gv.lo(v as int), gv.hi(v as int));
                        assert(gv.xadj[v as int] <= gv.xadj[v as int + 1] <= gv.xadj[gv.n()]);
                    }
                    let u = adjncy[j] as usize;
                    proof {
                        assert((gv.adjncy[j as int] as int) < gv.n());
                        lemma_base_pair(gv, s, Seq::<usize>::empty(), v as int, u as int);
                        lemma_base_forget(gv, pair_up(s, v as int, u as int), Seq::<usize>::empty().push(v));
                    }
                    matched.set(v, true);
                    matched.set(u, true);
                    cmap.set(v, c);
                    cmap.set(u, c);
                    count += 1;
                },
                None => {},
            }
        }
        i += 1;
    }
    let ghost s1 = pair_run(gv, order@, order@.len() as int);
    let mut v: usize = 0;
    while v < n
        invariant
            gv == g@,
            gv.sound(),
            n == gv.n(),
            s1 == pair_run(gv, order@, order@.len() as int),
            0 <= v <= n,
            matched@ == hop_run(gv, s1, v as int).matched,
            cmap@ == hop_run(gv, s1, v as int).cmap,
            count == hop_run(gv, s1, v as int).count,
            base_inv(gv, hop_run(gv, s1, v as int), Seq::new(v as nat, |t: int| t as usize)),
        decreases n - v,
    {
        let ghost s = hop_run(gv, s1, v as int);
        let ghost vis = Seq::new(v as nat, |t: int| t as usize);
        proof {
            assert(vis.push(v) =~= Seq::new((v + 1) as nat, |t: int| t as usize));
        }
        if !matched[v] {
            proof {
                lemma_count_true_bounds(s.matched);
                assert(!s.matched[v as int]);
                lemma_hop_scan(gv, s.matched, v as int, gv.hi(v as int));
                assert(gv.xadj[v as int] <= gv.xadj[v as int + 1]);
            }
            let c = count as u32;
            match two_hop_partner(g, matched.as_slice(), v) {
                Some(u) => {
                    proof {
                        lemma_base_pair(gv, s, vis, v as int, u as int);
                    }
                    matched.set(v, true);
                    matched.set(u, true);
                    cmap.set(v, c);
                    cmap.set(u, c);
                },
                None => {
                    proof {
                        lemma_base_alone(gv, s, vis, v as int);
                    }
                    matched.set(v, true);
                    cmap.set(v, c);
                },
            }
            count += 1;
        } else {
            proof {
                lemma_base_skip(gv, s, vis, v as int);
            }
        }
        v += 1;
    }
    (cmap, count)
}

/// `base_inv` with a list of visited vertices implies it with none.
proof fn lemma_base_forget(g: GraphView, s: MatchState, visited: Seq<usize>)
    requires
        base_inv(g, s, visited),
    ensures
        base_inv(g, s, Seq::<usize>::empty()),
{
}

proof fn lemma_pair_run_inv(g: GraphView, order: Seq<usize>, i: int)
    requires
        g.sound(),
        0 <= i <= order.len(),
        forall|t: int| 0 <= t < order.len() ==> (#[trigger] order[t] as int) < g.n(),
    ensures
        base_inv(g, pair_run(g, order, i), Seq::<usize>::empty()),
        i >= 1 ==> pair_run(g, order, i).pairs >= pair_run(g, order, 1).pairs,
    decreases i,
{
    if i <= 0 {
        lemma_base_initial(g);
    } else {
        lemma_pair_run_inv(g, order, i - 1);
        let s = pair_run(g, order, i - 1);
        let v = order[i - 1] as int;
        if !s.matched[v] {
            lemma_free_best(g, s.matched, g.lo(v), g.hi(v));
            match free_best(g, s.matched, g.lo(v), g.hi(v)) {
                Some(j) => {
                    assert(g.xadj[v] <= g.xadj[v + 1] <= g.xadj[g.n()]);
                    lemma_base_pair(g, s, Seq::<usize>::empty(), v, g.nbr(j));
                    lemma_base_forget(g, pair_up(s, v, g.nbr(j)), Seq::<usize>::empty().push(v as usize));
                },
                None => {},
            }
        }
    }
}

proof fn lemma_hop_run_inv(g: GraphView, s0: MatchState, i: int)
    requires
        g.sound(),
        0 <= i <= g.n(),
        base_inv(g, s0, Seq::<usize>::empty()),
    ensures
        base_inv(g, hop_run(g, s0, i), Seq::new(i as nat, |t: int| t as usize)),
        hop_run(g, s0, i).pairs >= s0.pairs,
    decreases i,
{
    if i <= 0 {
        assert(Seq::new(0, |t: int| t as usize) =~= Seq::<usize>::empty());
    } else {
        lemma_hop_run_inv(g, s0, i - 1);
        let s = hop_run(g, s0, i - 1);
        let v = i - 1;
        let vis = Seq::new(v as nat, |t: int| t as usize);
        assert(vis.push(v as usize) =~= Seq::new(i as nat, |t: int| t as usize));
        if s.matched[v] {
            lemma_base_skip(g, s, vis, v);
        } else {
            lemma_hop_scan(g, s.matched, v, g.hi(v));
            assert(g.xadj[v] <= g.xadj[v + 1]);
            match hop_scan(g, s.matched, v, g.lo(v), g.hi(v)).0 {
                Some(u) => lemma_base_pair(g, s, vis, v, u),
                None => lemma_base_alone(g, s, vis, v),
            }
        }
    }
}

/// Both passes together yield a matching: every fine vertex lands in one of
/// `count` coarse vertices, each coarse vertex is hit and merges at most two
/// fine vertices, and `count` is the number of fine vertices less the number
/// of merged pairs.
pub proof fn lemma_two_hop_matching(g: GraphView, order: Seq<usize>)
    requires
        g.sound(),
        forall|t: int| 0 <= t < order.len() ==> (#[trigger] order[t] as int) < g.n(),
    ensures
        ({
            let s = two_hop_result(g, order);
            &&& s.cmap.len() == g.n()
            &&& forall|v: int| 0 <= v < g.n() ==> (#[trigger] s.cmap[v] as int) < s.count
            &&& covers(s.cmap, s.count)
            &&& s.count + s.pairs == g.n()
            &&& s.pairs >= pair_run(g, order, order.len() as int).pairs
            &&& forall|v: int, w: int, x: int|
                0 <= v < g.n() && 0 <= w < g.n() && 0 <= x < g.n() && v != w && w != x && v != x && #[trigger] s.cmap[v]
                    == #[trigger] s.cmap[w] ==> s.cmap[v] != #[trigger] s.cmap[x]
        }),
{
    lemma_pair_run_inv(g, order, order.len() as int);
    let s1 = pair_run(g, order, order.len() as int);
    lemma_hop_run_inv(g, s1, g.n());
    let vis = Seq::new(g.n() as nat, |t: int| t as usize);
    assert forall|v: usize| (v as int) < g.n() implies #[trigger] vis.contains(v) by {
        assert(vis[v as int] == v);
    }
    lemma_base_complete(g, two_hop_result(g, order), vis);
}

/// On a valid graph with at least two vertices, two-hop matching with a first
/// pass that visits every vertex leaves strictly fewer coarse vertices than
/// fine ones.
pub proof fn lemma_two_hop_shrinks(g: GraphView, order: Seq<usize>)
    requires
        g.valid(),
        g.n() >= 2,
        forall|t: int| 0 <= t < order.len() ==> (#[trigger] order[t] as int) < g.n(),
        forall|v: usize| (v as int) < g.n() ==> #[trigger] order.contains(v),
    ensures
        two_hop_result(g, order).count < g.n(),
{
    lemma_valid_facts(g);
    lemma_two_hop_matching(g, order);
    assert(order.contains(0usize));
    let v0 = order[0] as int;
    lemma_has_neighbor(g, v0);
    let s0 = initial_match(g.n());
    lemma_free_best(g, s0.matched, g.lo(v0), g.hi(v0));
    let lo = g.lo(v0);
    if free_best(g, s0.matched, g.lo(v0), g.hi(v0)) is None {
        assert(s0.matched[g.nbr(lo)]);
        assert(g.xadj[v0] <= g.xadj[v0 + 1] <= g.xadj[g.n()]);
        assert(false);
    }
    let j = free_best(g, s0.matched, g.lo(v0), g.hi(v0))->0;
    assert(g.nbr(j) != v0);
    assert(pair_run(g, order, 0) == s0);
    assert(!s0.matched[v0]);
    assert(pair_run(g, order, 1) == pair_step(g, s0, v0));
    assert(pair_run(g, order, 1).pairs == 1);
    lemma_pair_run_inv(g, order, order.len() as int);
}

/// Two-hop matching: heavy-edge matching in decreasing order of heaviest
/// incident edge, then every vertex left over is merged with an unmatched
/// vertex two hops away (best path weight `min(ew_vw, ew_wu)`), or kept alone.
pub struct TwoHopMatch;

/// Two-hop matching that stops once the graph has at most
/// `max(coarsen_to * k, 40)` vertices.
pub struct TwoHopMatchWithParams {
    pub coarsen_to: u32,
    pub k: u32,
}

/// Contract `g` by two-hop matching whose first pass visits the vertices in `order`.
pub fn two_hop_coarsen_in_order(g: &CsrGraph, order: &[usize]) -> (r: (CsrGraph, CoarseMap))
    requires
        g@.sound(),
        is_permutation(order@, g@.n()),
    ensures
        r.1@ == two_hop_result(g@, order@).cmap,
        r.0@.n() == two_hop_result(g@, order@).count,
        coarsens(g@, r.1@, r.0@),
        g@.valid() && g@.n() >= 2 ==> r.0@.n() < g@.n(),
{
    let ghost gv = g@;
    let vlen = g.vwgt().len();
    let (cmap, cn) = match_two_hop(g, order);
    proof {
        lemma_two_hop_matching(gv, order@);
        if gv.valid() && gv.n() >= 2 {
            lemma_two_hop_shrinks(gv, order@);
        }
        lemma_pair_run_inv(gv, order@, order@.len() as int);
        assert(cn * gv.ncon <= gv.n() * gv.ncon) by (nonlinear_arith)
            requires
                cn <= gv.n(),
        ;
        assert(vlen == gv.n() * gv.ncon);
    }
    build_coarse_graph(g, cmap.as_slice(), cn)
}

fn twohop_coarsen(g: &CsrGraph) -> (r: (CsrGraph, CoarseMap))
    requires
        g@.sound(),
    ensures
        exists|order: Seq<usize>|
            is_permutation(order, g@.n()) && key_sorted(heavy_first_keys(g@), order) && #[trigger] two_hop_result(
                g@,
                order,
            ).cmap == r.1@ && two_hop_result(g@, order).count == r.0@.n(),
        coarsens(g@, r.1@, r.0@),
        g@.valid() && g@.n() >= 2 ==> r.0@.n() < g@.n(),
{
    let order = heavy_first_order(g);
    two_hop_coarsen_in_order(g, order.as_slice())
}

impl Coarsener for TwoHopMatch {
    fn coarsen(&self, g: &CsrGraph) -> (r: (CsrGraph, CoarseMap))
        ensures
            exists|order: Seq<usize>|
                is_permutation(order, g@.n()) && key_sorted(heavy_first_keys(g@), order)
                    && #[trigger] two_hop_result(g@, order).cmap == r.1@ && two_hop_result(g@, order).count
                    == r.0@.n(),
    {
        let r = twohop_coarsen(g);
        proof {
            crate::coarsen::lemma_coarsening_keeps_contractible(g@, r.1@, r.0@);
            let order = choose|order: Seq<usize>|
                is_permutation(order, g@.n()) && key_sorted(heavy_first_keys(g@), order)
                    && #[trigger] two_hop_result(g@, order).cmap == r.1@ && two_hop_result(g@, order).count
                    == r.0@.n();
            lemma_sorted_order(heavy_first_keys(g@), g@.n(), order);
            lemma_is_contraction_graph(g@, r.1@, r.0@);
        }
        r
    }

    open spec fn determined(&self, g: GraphView) -> Option<(GraphView, Seq<u32>)> {
        Some(run_level(g, two_hop_result(g, sorted_order(heavy_first_keys(g), g.n()))))
    }

    open spec fn stops(&self, g: GraphView) -> bool {
        g.n() <= 40
    }

    fn should_stop(&self, g: &CsrGraph) -> (r: bool) {
        g.n() <= 40
    }
}

impl Coarsener for TwoHopMatchWithParams {
    fn coarsen(&self, g: &CsrGraph) -> (r: (CsrGraph, CoarseMap))
        ensures
            exists|order: Seq<usize>|
                is_permutation(order, g@.n()) && key_sorted(heavy_first_keys(g@), order)
                    && #[trigger] two_hop_result(g@, order).cmap == r.1@ && two_hop_result(g@, order).count
                    == r.0@.n(),
    {
        let r = twohop_coarsen(g);
        proof {
            crate::coarsen::lemma_coarsening_keeps_contractible(g@, r.1@, r.0@);
            let order = choose|order: Seq<usize>|
                is_permutation(order, g@.n()) && key_sorted(heavy_first_keys(g@), order)
                    && #[trigger] two_hop_result(g@, order).cmap == r.1@ && two_hop_result(g@, order).count
                    == r.0@.n();
            lemma_sorted_order(heavy_first_keys(g@), g@.n(), order);
            lemma_is_contraction_graph(g@, r.1@, r.0@);
        }
        r
    }

    open spec fn determined(&self, g: GraphView) -> Option<(GraphView, Seq<u32>)> {
        Some(run_level(g, two_hop_result(g, sorted_order(heavy_first_keys(g), g.n()))))
    }

    open spec fn stops(&self, g: GraphView) -> bool {
        g.n() <= stop_threshold(self.coarsen_to, self.k)
    }

    fn should_stop(&self, g: &CsrGraph) -> (r: bool) {
        below_threshold(g.n(), self.coarsen_to, self.k)
    }
}

} // verus!
