use vstd::prelude::*;

use crate::coarsen::hem::{hem_coarsen, heavy_edge_coarsen, HEM_SEED};
use crate::coarsen::matching::heavy_run;
use crate::coarsen::coarse_graph::lemma_is_contraction_graph;
use crate::coarsen::{below_threshold, coarsens, run_level, stop_threshold, Coarsener};
use crate::graph::csr::{CsrGraph, GraphView};
use crate::graph::partition::CoarseMap;
use crate::random::is_permutation;
use crate::util::{key_sorted, lemma_key_sorted_unique, lemma_sorted_order, order_by_key, sorted_order};

verus! {

/// The largest edge weight among the slots `lo..r`, or zero when none is positive.
pub open spec fn top_weight(g: GraphView, lo: int, r: int) -> int
    decreases r - lo,
{
    if r <= lo {
        0
    } else {
        let a = top_weight(g, lo, r - 1);
        if g.ew(r - 1) > a {
            g.ew(r - 1)
        } else {
            a
        }
    }
}

/// Sort key of vertex `v`: smaller for a heavier incident edge.
pub open spec fn heavy_first_key(g: GraphView, v: int) -> u64 {
    (0x7fff_ffff - top_weight(g, g.lo(v), g.hi(v))) as u64
}

/// Sort keys that put the vertices in decreasing order of their heaviest
/// incident edge, ties by increasing index.
pub open spec fn heavy_first_keys(g: GraphView) -> Seq<u64> {
    Seq::new(g.n() as nat, |v: int| heavy_first_key(g, v))
}

proof fn lemma_top_weight_range(g: GraphView, lo: int, r: int)
    ensures
        0 <= top_weight(g, lo, r) <= 0x7fff_ffff,
    decreases r - lo,
{
    if r > lo {
        lemma_top_weight_range(g, lo, r - 1);
    }
}

/// The sort keys of `heavy_first_keys`.
pub fn heavy_first_keys_of(g: &CsrGraph) -> (keys: Vec<u64>)
    requires
        g@.sound(),
    ensures
        keys@ == heavy_first_keys(g@),
{
    let ghost gv = g@;
    let n = g.n();
    let xadj = g.xadj();
    let mut keys: Vec<u64> = Vec::new();
    let mut v: usize = 0;
    while v < n
        invariant
            gv == g@,
            gv.sound(),
            n == gv.n(),
            xadj@ == gv.xadj,
            0 <= v <= n,
            keys@.len() == v,
            forall|u: int| 0 <= u < v ==> #[trigger] keys@[u] == heavy_first_key(gv, u),
        decreases n - v,
    {
        proof {
            assert(gv.xadj[v as int] <= gv.xadj[v as int + 1] <= gv.xadj[gv.n()]);
        }
        let lo = xadj[v] as usize;
        let hi = xadj[v + 1] as usize;
        let mut top: i32 = 0;
        let mut j = lo;
        while j < hi
            invariant
                gv == g@,
                gv.sound(),
                lo == gv.lo(v as int),
                hi == gv.hi(v as int),
                hi <= gv.m(),
                lo <= j <= hi,
                top as int == top_weight(gv, lo as int, j as int),
            decreases hi - j,
        {
            let w = g.edge_weight(j);
            if w > top {
                top = w;
            }
            j += 1;
        }
        proof {
            lemma_top_weight_range(gv, lo as int, hi as int);
        }
        keys.push((0x7fff_ffffi32 - top) as u64);
        v += 1;
    }
    proof {
        assert(keys@ =~= heavy_first_keys(gv));
    }
    keys
}

/// The vertices in decreasing order of their heaviest incident edge, ties by
/// increasing index.
pub fn heavy_first_order(g: &CsrGraph) -> (order: Vec<usize>)
    requires
        g@.sound(),
    ensures
        is_permutation(order@, g@.n()),
        key_sorted(heavy_first_keys(g@), order@),
{
    let keys = heavy_first_keys_of(g);
    order_by_key(keys.as_slice())
}

/// Only one visiting order of the vertices is a permutation in
/// `heavy_first_keys` order: decreasing heaviest incident edge, ties by
/// increasing vertex. So the coarsening that `SortedHeavyEdgeMatch` and the
/// two-hop matchers describe through such an order is fixed.
pub proof fn lemma_heavy_first_order_unique(g: GraphView, o1: Seq<usize>, o2: Seq<usize>)
    requires
        is_permutation(o1, g.n()),
        is_permutation(o2, g.n()),
        key_sorted(heavy_first_keys(g), o1),
        key_sorted(heavy_first_keys(g), o2),
    ensures
        o1 == o2,
{
    assert forall|x: usize| o1.contains(x) <==> o2.contains(x) by {
        if o1.contains(x) {
            let t = choose|t: int| 0 <= t < o1.len() && o1[t] == x;
            assert((o1[t] as int) < g.n());
        }
        if o2.contains(x) {
            let t = choose|t: int| 0 <= t < o2.len() && o2[t] == x;
            assert((o2[t] as int) < g.n());
        }
    }
    lemma_key_sorted_unique(heavy_first_keys(g), o1, o2);
}

/// Sorted heavy-edge matching: vertices are visited in decreasing order of
/// their heaviest incident edge.
pub struct SortedHeavyEdgeMatch;

/// Sorted heavy-edge matching that stops once the graph has at most
/// `max(coarsen_to * k, 40)` vertices.
pub struct SortedHeavyEdgeMatchWithParams {
    pub coarsen_to: u32,
    pub k: u32,
}

/// No edge weights, or all of them equal.
pub open spec fn uniform_edge_weights(g: GraphView) -> bool {
    match g.adjwgt {
        None => true,
        Some(w) => forall|j: int| 0 <= j < w.len() ==> #[trigger] w[j] == w[0],
    }
}

/// Whether the edge weights are absent or all equal.
fn edge_weights_uniform(g: &CsrGraph) -> (r: bool)
    ensures
        r == uniform_edge_weights(g@),
{
    match g.adjwgt() {
        None => true,
        Some(w) => {
            let mut j: usize = 0;
            while j < w.len()
                invariant
                    0 <= j <= w@.len(),
                    g@.adjwgt == Some(w@),
                    forall|i: int| 0 <= i < j ==> #[trigger] w@[i] == w@[0],
                decreases w@.len() - j,
            {
                if w[j] != w[0] {
                    proof {
                        if uniform_edge_weights(g@) {
                            let ww = g@.adjwgt->0;
                            assert(ww[j as int] == ww[0]);
                        }
                    }
                    return false;
                }
                j += 1;
            }
            true
        },
    }
}

/// Sorted heavy-edge matching: vertices visited by decreasing heaviest
/// incident edge weight, each matched to its heaviest unmatched neighbour.
/// When the edge weights are absent or all equal, that order says nothing,
/// and heavy-edge matching in its seeded random order is used instead.
fn shem_coarsen(g: &CsrGraph) -> (r: (CsrGraph, CoarseMap))
    requires
        g@.sound(),
    ensures
        exists|order: Seq<usize>|
            is_permutation(order, g@.n()) && (!uniform_edge_weights(g@) ==> key_sorted(heavy_first_keys(g@), order))
                && #[trigger] heavy_run(g@, order, g@.n()).cmap == r.1@ && heavy_run(g@, order, g@.n()).count
                == r.0@.n(),
        coarsens(g@, r.1@, r.0@),
        g@.valid() && g@.n() >= 2 ==> r.0@.n() < g@.n(),
{
    if edge_weights_uniform(g) {
        hem_coarsen(g, HEM_SEED)
    } else {
        let order = heavy_first_order(g);
        heavy_edge_coarsen(g, order.as_slice())
    }
}

/// What sorted heavy-edge matching gives on `g` when the edge weights are
/// not all equal (the visiting order is then fixed); `None` otherwise.
pub open spec fn shem_determined(g: GraphView) -> Option<(GraphView, Seq<u32>)> {
    if uniform_edge_weights(g) {
        None
    } else {
        Some(run_level(g, heavy_run(g, sorted_order(heavy_first_keys(g), g.n()), g.n())))
    }
}

proof fn lemma_shem_determined(g: GraphView, h: GraphView, cmap: Seq<u32>)
    requires
        exists|order: Seq<usize>|
            is_permutation(order, g.n()) && (!uniform_edge_weights(g) ==> key_sorted(heavy_first_keys(g), order))
                && #[trigger] heavy_run(g, order, g.n()).cmap == cmap && heavy_run(g, order, g.n()).count == h.n(),
        coarsens(g, cmap, h),
    ensures
        shem_determined(g) matches Some(x) ==> h == x.0 && cmap == x.1,
{
    if !uniform_edge_weights(g) {
        let order = choose|order: Seq<usize>|
            is_permutation(order, g.n()) && (!uniform_edge_weights(g) ==> key_sorted(heavy_first_keys(g), order))
                && #[trigger] heavy_run(g, order, g.n()).cmap == cmap && heavy_run(g, order, g.n()).count == h.n();
        lemma_sorted_order(heavy_first_keys(g), g.n(), order);
        lemma_is_contraction_graph(g, cmap, h);
    }
}

impl Coarsener for SortedHeavyEdgeMatch {
    fn coarsen(&self, g: &CsrGraph) -> (r: (CsrGraph, CoarseMap))
        ensures
            exists|order: Seq<usize>|
                is_permutation(order, g@.n()) && (!uniform_edge_weights(g@) ==> key_sorted(heavy_first_keys(g@), order))
                    && #[trigger] heavy_run(g@, order, g@.n()).cmap == r.1@ && heavy_run(g@, order, g@.n()).count
                    == r.0@.n(),
    {
        let r = shem_coarsen(g);
        proof {
            crate::coarsen::lemma_coarsening_keeps_contractible(g@, r.1@, r.0@);
            lemma_shem_determined(g@, r.0@, r.1@);
        }
        r
    }

    open spec fn determined(&self, g: GraphView) -> Option<(GraphView, Seq<u32>)> {
        shem_determined(g)
    }

    open spec fn stops(&self, g: GraphView) -> bool {
        g.n() <= 40
    }

    fn should_stop(&self, g: &CsrGraph) -> (r: bool) {
        g.n() <= 40
    }
}

impl Coarsener for SortedHeavyEdgeMatchWithParams {
    fn coarsen(&self, g: &CsrGraph) -> (r: (CsrGraph, CoarseMap))
        ensures
            exists|order: Seq<usize>|
                is_permutation(order, g@.n()) && (!uniform_edge_weights(g@) ==> key_sorted(heavy_first_keys(g@), order))
                    && #[trigger] heavy_run(g@, order, g@.n()).cmap == r.1@ && heavy_run(g@, order, g@.n()).count
                    == r.0@.n(),
    {
        let r = shem_coarsen(g);
        proof {
            crate::coarsen::lemma_coarsening_keeps_contractible(g@, r.1@, r.0@);
            lemma_shem_determined(g@, r.0@, r.1@);
        }
        r
    }

    open spec fn determined(&self, g: GraphView) -> Option<(GraphView, Seq<u32>)> {
        shem_determined(g)
    }

    open spec fn stops(&self, g: GraphView) -> bool {
        g.n() <= stop_threshold(self.coarsen_to, self.k)
    }

    fn should_stop(&self, g: &CsrGraph) -> (r: bool) {
        below_threshold(g.n(), self.coarsen_to, self.k)
    }
}

} // verus!
