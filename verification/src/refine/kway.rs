use vstd::prelude::*;

use crate::graph::csr::CsrGraph;
use crate::graph::partition::Partition;
use crate::graph::contiguity::contiguity_result;
use crate::refine::fm::{fm_local_opt, loads_balanced, FiducciaMattheyses, ObjectiveType};
use crate::refine::Refiner;

verus! {

/// Greedy k-way refinement: FM with contiguity checks and the edge-cut
/// objective.
pub struct GreedyKWay {
    niter: u32,
}

impl GreedyKWay {
    /// Number of FM passes allowed.
    pub closed spec fn passes(&self) -> u32 {
        self.niter
    }

    pub fn new(niter: u32) -> (r: Self)
        ensures
            r.passes() == niter,
    {
        GreedyKWay { niter }
    }

    pub fn niter(&self) -> (r: u32)
        ensures
            r == self.passes(),
    {
        self.niter
    }
}

impl Refiner for GreedyKWay {
    /// FM with contiguity checks, the edge-cut objective, no balancing
    /// sweeps and an imbalance of 5 thousandths: the cut never grows, parts
    /// that start contiguous on a valid graph stay so, and part loads that
    /// start inside their windows stay inside.
    fn refine(&self, g: &CsrGraph, p: Partition) -> (r: Partition)
        ensures
            crate::graph::metrics::edge_cut(g@, r@.assignment) <= crate::graph::metrics::edge_cut(g@, p@.assignment),
            r@.tpwgts is None,
            g@.valid() && contiguity_result(g@, p@) is Ok ==> contiguity_result(g@, r@) is Ok,
            g@.positive() && loads_balanced(g@, p@.assignment, p@.k, p@.tpwgts, 5) ==> loads_balanced(
                g@,
                r@.assignment,
                p@.k,
                p@.tpwgts,
                5,
            ),
            p@.k == 2 && g@.valid() && g@.simple() ==> fm_local_opt(g@, r@.assignment, 2, p@.tpwgts, 5, true)
                || crate::graph::metrics::edge_cut(g@, r@.assignment) + self.passes() <= crate::graph::metrics::edge_cut(
                g@,
                p@.assignment,
            ),
    {
        let fm = FiducciaMattheyses {
            niter: self.niter,
            contig_fm: true,
            objective: ObjectiveType::Cut,
            lp_iter: 0,
            ufactor: 5,
        };
        fm.refine(g, p)
    }
}

} // verus!
