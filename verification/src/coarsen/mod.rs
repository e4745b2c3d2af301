use vstd::prelude::*;

use crate::coarsen::coarse_graph::{contraction_graph, contraction_of};
use crate::graph::csr::{CsrGraph, GraphView};
use crate::graph::partition::{covers, CoarseMap};

pub mod coarse_graph;
pub mod hem;
pub mod matching;
pub mod mindegree;
pub mod shem;
pub mod structure;
pub mod twohop;
pub mod weighted;

verus! {

/// `cmap` sends each fine vertex of `g` to one of the coarse vertices of `h`,
/// hits every coarse vertex, merges at most two fine vertices into one, and
/// `h` is the contraction of `g` along it.
pub open spec fn coarsens(g: GraphView, cmap: Seq<u32>, h: GraphView) -> bool {
    &&& cmap.len() == g.n()
    &&& forall|v: int| 0 <= v < g.n() ==> (#[trigger] cmap[v] as int) < h.n()
    &&& covers(cmap, h.n())
    &&& forall|v: int, w: int, x: int|
        0 <= v < g.n() && 0 <= w < g.n() && 0 <= x < g.n() && v != w && w != x && v != x && #[trigger] cmap[v]
            == #[trigger] cmap[w] ==> cmap[v] != #[trigger] cmap[x]
    &&& contraction_of(g, cmap, h)
}

/// What contracting `g` along the map of `run` gives: the coarse graph and the map.
pub open spec fn run_level(g: GraphView, run: crate::coarsen::matching::MatchState) -> (GraphView, Seq<u32>) {
    (contraction_graph(g, run.cmap, run.count), run.cmap)
}

/// A step that the coarsener `c` fixes on `g` gave `h` and `cmap`.
pub open spec fn determined_step<C: Coarsener>(c: &C, g: GraphView, cmap: Seq<u32>, h: GraphView) -> bool {
    c.determined(g) matches Some(x) ==> x.0 == h && x.1 == cmap
}

/// Coarsening keeps a graph contractible (valid, with its weight totals
/// within `i32` and, with stored edge weights, no neighbour listed twice),
/// and keeps a valid graph valid whenever every coarse sum fits an `i32`.
pub proof fn lemma_coarsening_keeps_contractible(g: GraphView, cmap: Seq<u32>, h: GraphView)
    requires
        coarsens(g, cmap, h),
    ensures
        crate::coarsen::structure::contractible(g) ==> crate::coarsen::structure::contractible(h),
        g.valid() && crate::coarsen::structure::coarse_sums_fit(g, cmap, h.n()) ==> h.valid(),
{
    if crate::coarsen::structure::contractible(g) {
        crate::coarsen::structure::lemma_contraction_contractible(g, cmap, h);
    }
    if g.valid() && crate::coarsen::structure::coarse_sums_fit(g, cmap, h.n()) {
        crate::coarsen::structure::lemma_contraction_keeps_valid(g, cmap, h);
    }
}

/// Vertex count at or below which a coarsener with parameters `coarsen_to`
/// and `k` stops: `max(coarsen_to * k, 40)`.
pub open spec fn stop_threshold(coarsen_to: u32, k: u32) -> int {
    let t = coarsen_to * k;
    if t > 40 {
        t
    } else {
        40
    }
}

/// `n <= max(coarsen_to * k, 40)`, with the product taken exactly.
pub fn below_threshold(n: usize, coarsen_to: u32, k: u32) -> (r: bool)
    ensures
        r == (n <= stop_threshold(coarsen_to, k)),
{
    proof {
        assert((coarsen_to as u64) * (k as u64) <= 0xffff_ffff * 0xffff_ffff) by (nonlinear_arith)
            requires
                coarsen_to <= 0xffff_ffff,
                k <= 0xffff_ffff,
        ;
    }
    let t: u64 = (coarsen_to as u64) * (k as u64);
    let threshold: u64 = if t > 40 {
        t
    } else {
        40
    };
    (n as u64) <= threshold
}

/// One level of graph coarsening.
pub trait Coarsener: Send + Sync {
    /// Collapse `g` by one level. On a valid graph with at least two vertices
    /// the coarse graph has strictly fewer vertices.
    fn coarsen(&self, g: &CsrGraph) -> (r: (CsrGraph, CoarseMap))
        requires
            g@.sound(),
        ensures
            coarsens(g@, r.1@, r.0@),
            g@.valid() && g@.n() >= 2 ==> r.0@.n() < g@.n(),
            self.determined(g@) matches Some(x) ==> r.0@ == x.0 && r.1@ == x.1,
            crate::coarsen::structure::contractible(g@) ==> crate::coarsen::structure::contractible(r.0@),
            g@.valid() && crate::coarsen::structure::coarse_sums_fit(g@, r.1@, r.0@.n()) ==> r.0@.valid(),
    ;

    /// The coarse graph and map that `coarsen` gives on `g` where they depend
    /// on `g` alone; `None` where they do not (a seeded random visiting
    /// order) or are not stated, as for a coarsener that does not say.
    open spec fn determined(&self, g: GraphView) -> Option<(GraphView, Seq<u32>)> {
        None
    }

    /// When this coarsener considers `g` small enough to partition directly.
    spec fn stops(&self, g: GraphView) -> bool;

    /// True when `g` is small enough to partition directly; always true when
    /// `g` has at most 40 vertices.
    fn should_stop(&self, g: &CsrGraph) -> (r: bool)
        ensures
            r == self.stops(g@),
            g@.n() <= 40 ==> r,
    ;
}

} // verus!
