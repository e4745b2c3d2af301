use vstd::prelude::*;

use crate::coarsen::hem::heavy_edge_coarsen;
use crate::coarsen::matching::heavy_run;
use crate::coarsen::coarse_graph::lemma_is_contraction_graph;
use crate::coarsen::{coarsens, run_level, Coarsener};
use crate::graph::csr::{CsrGraph, GraphView};
use crate::graph::partition::CoarseMap;
use crate::random::is_permutation;
use crate::util::{key_before, key_sorted, lemma_sorted_order, order_by_key, sorted_order};

verus! {

/// Sort keys that put the vertices in increasing order of degree, ties by
/// increasing index.
pub open spec fn degree_keys(g: GraphView) -> Seq<u64> {
    Seq::new(g.n() as nat, |v: int| (g.hi(v) - g.lo(v)) as u64)
}

/// `order` lists vertices by non-decreasing degree (the length of their row
/// in `xadj`), ties by increasing index.
pub open spec fn by_degree(g: GraphView, order: Seq<usize>) -> bool {
    forall|i: int, j: int|
        0 <= i < j < order.len() ==> {
            let a = #[trigger] order[i] as int;
            let b = #[trigger] order[j] as int;
            g.xadj[a + 1] - g.xadj[a] < g.xadj[b + 1] - g.xadj[b] || (g.xadj[a + 1] - g.xadj[a] == g.xadj[b + 1]
                - g.xadj[b] && a < b)
        }
}

/// A listing sorted by the degree keys lists the vertices by non-decreasing
/// degree, ties by increasing index.
pub proof fn lemma_degree_keys_order(g: GraphView, order: Seq<usize>)
    requires
        g.sound(),
        forall|t: int| 0 <= t < order.len() ==> (#[trigger] order[t] as int) < g.n(),
        key_sorted(degree_keys(g), order),
    ensures
        by_degree(g, order),
{
    assert forall|i: int, j: int| 0 <= i < j < order.len() implies {
        let a = #[trigger] order[i] as int;
        let b = #[trigger] order[j] as int;
        g.xadj[a + 1] - g.xadj[a] < g.xadj[b + 1] - g.xadj[b] || (g.xadj[a + 1] - g.xadj[a] == g.xadj[b + 1]
            - g.xadj[b] && a < b)
    } by {
        let a = order[i] as int;
        let b = order[j] as int;
        assert(g.xadj[a] <= g.xadj[a + 1]);
        assert(g.xadj[b] <= g.xadj[b + 1]);
        assert(key_before(degree_keys(g), order[i], order[j]));
    }
}

/// The vertices in increasing order of degree, ties by increasing index.
pub fn min_degree_order(g: &CsrGraph) -> (order: Vec<usize>)
    requires
        g@.sound(),
    ensures
        is_permutation(order@, g@.n()),
        key_sorted(degree_keys(g@), order@),
        by_degree(g@, order@),
{
    let ghost gv = g@;
    let n = g.n();
    let xadj = g.xadj();
    let mut keys: Vec<u64> = Vec::new();
    let mut v: usize = 0;
    while v < n
        invariant
            gv == g@,
            gv.sound(),
            n == gv.n(),
            xadj@ == gv.xadj,
            0 <= v <= n,
            keys@.len() == v,
            forall|u: int| 0 <= u < v ==> #[trigger] keys@[u] == (gv.hi(u) - gv.lo(u)) as u64,
        decreases n - v,
    {
        proof {
            assert(gv.xadj[v as int] <= gv.xadj[v as int + 1]);
        }
        keys.push((xadj[v + 1] - xadj[v]) as u64);
        v += 1;
    }
    proof {
        assert(keys@ =~= degree_keys(gv));
    }
    let order = order_by_key(keys.as_slice());
    proof {
        lemma_degree_keys_order(gv, order@);
    }
    order
}

/// Heavy-edge matching that visits the vertices in increasing order of degree.
pub struct MinDegreeMatch;

fn mindegree_coarsen(g: &CsrGraph) -> (r: (CsrGraph, CoarseMap))
    requires
        g@.sound(),
    ensures
        exists|order: Seq<usize>|
            is_permutation(order, g@.n()) && key_sorted(degree_keys(g@), order) && by_degree(g@, order) && #[trigger] heavy_run(
                g@,
                order,
                g@.n(),
            ).cmap == r.1@ && heavy_run(g@, order, g@.n()).count == r.0@.n(),
        coarsens(g@, r.1@, r.0@),
        g@.valid() && g@.n() >= 2 ==> r.0@.n() < g@.n(),
{
    let order = min_degree_order(g);
    heavy_edge_coarsen(g, order.as_slice())
}

impl Coarsener for MinDegreeMatch {
    fn coarsen(&self, g: &CsrGraph) -> (r: (CsrGraph, CoarseMap))
        ensures
            exists|order: Seq<usize>|
                is_permutation(order, g@.n()) && key_sorted(degree_keys(g@), order) && by_degree(g@, order) && #[trigger] heavy_run(
                    g@,
                    order,
                    g@.n(),
                ).cmap == r.1@ && heavy_run(g@, order, g@.n()).count == r.0@.n(),
    {
        let r = mindegree_coarsen(g);
        proof {
            crate::coarsen::lemma_coarsening_keeps_contractible(g@, r.1@, r.0@);
            let order = choose|order: Seq<usize>|
                is_permutation(order, g@.n()) && key_sorted(degree_keys(g@), order) && by_degree(g@, order) && #[trigger] heavy_run(
                    g@,
                    order,
                    g@.n(),
                ).cmap == r.1@ && heavy_run(g@, order, g@.n()).count == r.0@.n();
            lemma_sorted_order(degree_keys(g@), g@.n(), order);
            lemma_is_contraction_graph(g@, r.1@, r.0@);
        }
        r
    }

    open spec fn determined(&self, g: GraphView) -> Option<(GraphView, Seq<u32>)> {
        Some(run_level(g, heavy_run(g, sorted_order(degree_keys(g), g.n()), g.n())))
    }

    open spec fn stops(&self, g: GraphView) -> bool {
        g.n() <= 40
    }

    fn should_stop(&self, g: &CsrGraph) -> (r: bool) {
        g.n() <= 40
    }
}

} // verus!
