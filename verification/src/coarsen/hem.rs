use vstd::prelude::*;

use crate::coarsen::coarse_graph::build_coarse_graph;
use crate::coarsen::matching::{heavy_run, lemma_heavy_matching, lemma_heavy_shrinks, match_heavy};
use crate::coarsen::{coarsens, stop_threshold, below_threshold, Coarsener};
use crate::graph::csr::{CsrGraph, GraphView};
use crate::graph::partition::CoarseMap;
use crate::random::{is_permutation, seeded_rng, shuffled_indices};

verus! {

/// Number of neighbours of vertex `v` on a path of `n` vertices.
pub open spec fn path_degree(n: int, v: int) -> int {
    (if v > 0 {
        1int
    } else {
        0int
    }) + (if v < n - 1 {
        1int
    } else {
        0int
    })
}

/// `g` is the path `0 - 1 - ... - (n - 1)` with unit vertex weights and no
/// stored edge weights; each row lists the left neighbour before the right one.
pub open spec fn is_path(g: GraphView, n: int) -> bool {
    &&& g.sound()
    &&& g.n() == n
    &&& g.ncon == 1
    &&& g.adjwgt is None
    &&& forall|v: int| 0 <= v < n ==> #[trigger] g.vw(v, 0) == 1
    &&& forall|v: int| 0 <= v < n ==> #[trigger] g.hi(v) - g.lo(v) == path_degree(n, v)
    &&& forall|v: int| 0 < v < n ==> #[trigger] g.nbr(g.lo(v)) == v - 1
    &&& forall|v: int| 0 <= v < n - 1 ==> #[trigger] g.nbr(g.hi(v) - 1) == v + 1
}

/// The path graph on `n` vertices.
pub fn path_graph(n: usize) -> (g: CsrGraph)
    requires
        n <= 0x8000_0000,
    ensures
        is_path(g@, n as int),
{
    let mut xadj: Vec<u32> = Vec::new();
    xadj.push(0);
    let mut adjncy: Vec<u32> = Vec::new();
    let mut i: usize = 0;
    while i < n
        invariant
            n <= 0x8000_0000,
            0 <= i <= n,
            xadj@.len() == i + 1,
            xadj@[0] == 0,
            xadj@[i as int] as int == adjncy@.len(),
            adjncy@.len() <= 2 * i,
            forall|a: int, b: int| 0 <= a <= b <= i ==> #[trigger] xadj@[a] <= #[trigger] xadj@[b],
            forall|j: int| 0 <= j < adjncy@.len() ==> (#[trigger] adjncy@[j] as int) < n,
            forall|v: int| 0 <= v < i ==> #[trigger] xadj@[v + 1] - xadj@[v] == path_degree(n as int, v),
            forall|v: int| 0 < v < i ==> #[trigger] adjncy@[xadj@[v] as int] == v - 1,
            forall|v: int| 0 <= v < i && v < n - 1 ==> #[trigger] adjncy@[xadj@[v + 1] - 1] == v + 1,
        decreases n - i,
    {
        let ghost a0 = adjncy@;
        let ghost x0 = xadj@;
        if i > 0 {
            adjncy.push((i - 1) as u32);
        }
        if i + 1 < n {
            adjncy.push((i + 1) as u32);
        }
        xadj.push(adjncy.len() as u32);
        proof {
            assert forall|j: int| 0 <= j < a0.len() implies #[trigger] adjncy@[j] == a0[j] by {}
            assert forall|v: int| 0 <= v <= i implies #[trigger] xadj@[v] == x0[v] by {}
            assert forall|v: int| 0 < v < i + 1 implies #[trigger] adjncy@[xadj@[v] as int] == v - 1 by {
                if v < i {
                    assert(x0[v] < x0[v + 1] <= x0[i as int]);
                    assert(adjncy@[x0[v] as int] == a0[x0[v] as int]);
                }
            }
            assert forall|v: int| 0 <= v < i + 1 && v < n - 1 implies #[trigger] adjncy@[xadj@[v + 1] - 1] == v + 1 by {
                if v < i {
                    assert(x0[v] < x0[v + 1] <= x0[i as int]);
                    assert(adjncy@[x0[v + 1] - 1] == a0[x0[v + 1] - 1]);
                }
            }
        }
        i += 1;
    }
    let mut vwgt: Vec<i32> = Vec::new();
    let mut v: usize = 0;
    while v < n
        invariant
            0 <= v <= n,
            vwgt@.len() == v,
            forall|u: int| 0 <= u < v ==> #[trigger] vwgt@[u] == 1,
        decreases n - v,
    {
        vwgt.push(1);
        v += 1;
    }
    let g = CsrGraph::from_sound_parts(xadj, adjncy, 1, vwgt, None);
    proof {
        assert forall|u: int| 0 <= u < n implies #[trigger] g@.vw(u, 0) == 1 by {
            assert(u * 1 + 0 == u);
        }
    }
    g
}

/// The triangle on vertices 0, 1, 2 with unit weights.
pub fn triangle() -> (g: CsrGraph)
    ensures
        g@.xadj == seq![0u32, 2, 4, 6],
        g@.adjncy == seq![1u32, 2, 0, 2, 0, 1],
        g@.ncon == 1,
        g@.vwgt == seq![1i32, 1, 1],
        g@.adjwgt is None,
{
    let mut xadj: Vec<u32> = Vec::new();
    xadj.push(0);
    xadj.push(2);
    xadj.push(4);
    xadj.push(6);
    let mut adjncy: Vec<u32> = Vec::new();
    adjncy.push(1);
    adjncy.push(2);
    adjncy.push(0);
    adjncy.push(2);
    adjncy.push(0);
    adjncy.push(1);
    let mut vwgt: Vec<i32> = Vec::new();
    vwgt.push(1);
    vwgt.push(1);
    vwgt.push(1);
    proof {
        assert(xadj@ =~= seq![0u32, 2, 4, 6]);
        assert(adjncy@ =~= seq![1u32, 2, 0, 2, 0, 1]);
        assert(vwgt@ =~= seq![1i32, 1, 1]);
    }
    CsrGraph::from_sound_parts(xadj, adjncy, 1, vwgt, None)
}

/// The path graph on five vertices.
pub fn path5() -> (g: CsrGraph)
    ensures
        is_path(g@, 5),
{
    path_graph(5)
}

/// Heavy-edge matching over a random visiting order.
pub struct HeavyEdgeMatch;

/// Heavy-edge matching that stops once the graph has at most
/// `max(coarsen_to * k, 40)` vertices.
pub struct HeavyEdgeMatchWithParams {
    pub coarsen_to: u32,
    pub k: u32,
}

/// Contract `g` by a greedy heavy-edge matching that visits the vertices in
/// `order`, a permutation of the vertices.
pub fn heavy_edge_coarsen(g: &CsrGraph, order: &[usize]) -> (r: (CsrGraph, CoarseMap))
    requires
        g@.sound(),
        is_permutation(order@, g@.n()),
    ensures
        r.1@ == heavy_run(g@, order@, g@.n()).cmap,
        r.0@.n() == heavy_run(g@, order@, g@.n()).count,
        coarsens(g@, r.1@, r.0@),
        g@.valid() && g@.n() >= 2 ==> r.0@.n() < g@.n(),
{
    let ghost gv = g@;
    let vlen = g.vwgt().len();
    let (cmap, cn) = match_heavy(g, order);
    proof {
        lemma_heavy_matching(gv, order@);
        if gv.valid() && gv.n() >= 2 {
            lemma_heavy_shrinks(gv, order@);
        }
        let s = heavy_run(gv, order@, gv.n());
        assert(s.count <= gv.n());
        assert(cn * gv.ncon <= gv.n() * gv.ncon) by (nonlinear_arith)
            requires
                cn <= gv.n(),
        ;
        assert(vlen == gv.n() * gv.ncon);
    }
    build_coarse_graph(g, cmap.as_slice(), cn)
}

/// Seed of the visiting order of heavy-edge matching.
pub const HEM_SEED: u64 = 0x1234_5678_9ABC_DEF0;

/// Heavy-edge coarsening with the visiting order shuffled by a PCG generator
/// seeded with `seed`.
pub(crate) fn hem_coarsen(g: &CsrGraph, seed: u64) -> (r: (CsrGraph, CoarseMap))
    requires
        g@.sound(),
    ensures
        exists|order: Seq<usize>|
            is_permutation(order, g@.n()) && #[trigger] heavy_run(g@, order, g@.n()).cmap == r.1@
                && heavy_run(g@, order, g@.n()).count == r.0@.n(),
        coarsens(g@, r.1@, r.0@),
        g@.valid() && g@.n() >= 2 ==> r.0@.n() < g@.n(),
{
    let mut rng = seeded_rng(seed);
    let order = shuffled_indices(&mut rng, g.n());
    heavy_edge_coarsen(g, order.as_slice())
}

impl Coarsener for HeavyEdgeMatch {
    fn coarsen(&self, g: &CsrGraph) -> (r: (CsrGraph, CoarseMap))
        ensures
            exists|order: Seq<usize>|
                is_permutation(order, g@.n()) && #[trigger] heavy_run(g@, order, g@.n()).cmap == r.1@
                    && heavy_run(g@, order, g@.n()).count == r.0@.n(),
    {
        let r = hem_coarsen(g, HEM_SEED);
        proof {
            crate::coarsen::lemma_coarsening_keeps_contractible(g@, r.1@, r.0@);
        }
        r
    }

    /// The visiting order is drawn from a seeded generator, so nothing here
    /// fixes the result.
    open spec fn determined(&self, g: GraphView) -> Option<(GraphView, Seq<u32>)> {
        None
    }

    open spec fn stops(&self, g: GraphView) -> bool {
        g.n() <= 40
    }

    fn should_stop(&self, g: &CsrGraph) -> (r: bool) {
        g.n() <= 40
    }
}

impl Coarsener for HeavyEdgeMatchWithParams {
    fn coarsen(&self, g: &CsrGraph) -> (r: (CsrGraph, CoarseMap))
        ensures
            exists|order: Seq<usize>|
                is_permutation(order, g@.n()) && #[trigger] heavy_run(g@, order, g@.n()).cmap == r.1@
                    && heavy_run(g@, order, g@.n()).count == r.0@.n(),
    {
        let r = hem_coarsen(g, HEM_SEED);
        proof {
            crate::coarsen::lemma_coarsening_keeps_contractible(g@, r.1@, r.0@);
        }
        r
    }

    /// The visiting order is drawn from a seeded generator, so nothing here
    /// fixes the result.
    open spec fn determined(&self, g: GraphView) -> Option<(GraphView, Seq<u32>)> {
        None
    }

    open spec fn stops(&self, g: GraphView) -> bool {
        g.n() <= stop_threshold(self.coarsen_to, self.k)
    }

    fn should_stop(&self, g: &CsrGraph) -> (r: bool) {
        below_threshold(g.n(), self.coarsen_to, self.k)
    }
}

} // verus!
