use vstd::prelude::*;

use crate::graph::csr::{copy_u32, CsrGraph, GraphView};
use crate::graph::partition::{opt_u32_view, Partition};
use crate::graph::repair::repair_contiguity;
use crate::init::InitialPartitioner;
use crate::multilevel::hierarchy::CoarseningHierarchy;
use crate::refine::Refiner;

verus! {

/// Stage of a pipeline whose coarsest level has no partition yet.
pub struct NeedsPartition;

/// Stage of a pipeline that holds a partition of its coarsest level.
pub struct NeedsRefinement {
    pub partition: Partition,
}

/// Stage of a pipeline that holds the final partition of the input graph.
pub struct Complete {
    pub partition: Partition,
}

/// The uncoarsening half of the multilevel scheme, moved from stage to stage:
/// partition the coarsest level, then refine and project back level by level.
pub struct Pipeline<S> {
    pub hierarchy: CoarseningHierarchy,
    /// Whether each projected partition is made contiguous before refinement.
    pub repair_contiguity: bool,
    pub state: S,
}

/// In a well-formed hierarchy whose input graph has a vertex, every level has one.
pub proof fn lemma_levels_nonempty(h: &CoarseningHierarchy, i: int)
    requires
        h.wf(),
        h.level(0).n() >= 1,
        0 <= i < h.levels@.len(),
    ensures
        h.level(i).n() >= 1,
    decreases i,
{
    if i > 0 {
        lemma_levels_nonempty(h, i - 1);
        let cm = h.cmaps@[i - 1]@;
        assert((cm[0] as int) < h.level(i).n());
    }
}

impl Pipeline<NeedsPartition> {
    pub fn new(h: CoarseningHierarchy) -> (r: Self)
        ensures
            r.hierarchy == h,
            r.repair_contiguity,
    {
        Pipeline { hierarchy: h, repair_contiguity: true, state: NeedsPartition }
    }

    pub fn with_contiguity_repair(self, enabled: bool) -> (r: Self)
        ensures
            r.hierarchy == self.hierarchy,
            r.repair_contiguity == enabled,
    {
        Pipeline { hierarchy: self.hierarchy, repair_contiguity: enabled, state: NeedsPartition }
    }

    /// Partition the coarsest level into `k` parts with `init`.
    pub fn initial_partition<I: InitialPartitioner>(self, init: &I, k: u32, seed: u64) -> (r: Pipeline<NeedsRefinement>)
        requires
            self.hierarchy.wf(),
            self.hierarchy.level(0).n() >= 1,
            k >= 1,
        ensures
            r.hierarchy == self.hierarchy,
            r.repair_contiguity == self.repair_contiguity,
            r.state.partition@.fits(self.hierarchy.level(self.hierarchy.levels@.len() - 1)),
            r.state.partition@.k == k,
            r.state.partition@.tpwgts is None,
    {
        proof {
            lemma_levels_nonempty(&self.hierarchy, self.hierarchy.levels@.len() - 1);
        }
        let p = init.partition(self.hierarchy.coarsest(), k, seed);
        Pipeline {
            hierarchy: self.hierarchy,
            repair_contiguity: self.repair_contiguity,
            state: NeedsRefinement { partition: p },
        }
    }
}

impl Pipeline<NeedsRefinement> {
    pub fn from_initial_partition(hierarchy: CoarseningHierarchy, partition: Partition, repair_contiguity: bool) -> (r: Self)
        ensures
            r.hierarchy == hierarchy,
            r.repair_contiguity == repair_contiguity,
            r.state.partition == partition,
    {
        Pipeline { hierarchy, repair_contiguity, state: NeedsRefinement { partition } }
    }

    /// Walk back from the coarsest level to the input graph: at each level
    /// refine, then hand every fine vertex the part of its coarse vertex;
    /// when repair is on, make the parts contiguous on the coarsest level and
    /// after each projection. Ends with a refinement on the input graph.
    pub fn refine_and_project<R: Refiner>(self, refiner: &R) -> (r: Pipeline<Complete>)
        requires
            self.hierarchy.wf(),
            self.state.partition@.fits(self.hierarchy.level(self.hierarchy.levels@.len() - 1)),
            self.state.partition@.tpwgts matches Some(t) ==> t.len() == self.state.partition@.k,
        ensures
            r.hierarchy == self.hierarchy,
            r.repair_contiguity == self.repair_contiguity,
            r.state.partition@.fits(self.hierarchy.level(0)),
            r.state.partition@.k == self.state.partition@.k,
    {
        let ghost h = self.hierarchy;
        let depth = self.hierarchy.depth();
        let k = self.state.partition.k();
        let mut current = self.state.partition;
        if self.repair_contiguity {
            repair_contiguity(self.hierarchy.coarsest(), &mut current);
        }
        let mut lev = depth;
        while lev > 0
            invariant
                h == self.hierarchy,
                h.wf(),
                depth == h.levels@.len() - 1,
                0 <= lev <= depth,
                current@.fits(h.level(lev as int)),
                current@.k == k,
                current@.tpwgts matches Some(t) ==> t.len() == k,
            decreases lev,
        {
            lev -= 1;
            let refined = refiner.refine(&self.hierarchy.levels[lev + 1], current);
            proof {
                assert(crate::coarsen::coarsens(h.level(lev as int), h.cmaps@[lev as int]@, h.level(lev + 1)));
            }
            let fine = self.hierarchy.project_up(lev, refined.assignment());
            let tp = match refined.tpwgts() {
                Some(t) => Some(copy_u32(t)),
                None => None,
            };
            proof {
                assert forall|v: int| 0 <= v < fine@.len() implies #[trigger] fine@[v] < k by {
                    let c = h.cmaps@[lev as int]@[v] as int;
                    assert(refined@.assignment[c] < k);
                }
            }
            current = Partition::from_parts(fine, refined.k(), tp);
            if self.repair_contiguity {
                repair_contiguity(&self.hierarchy.levels[lev], &mut current);
            }
        }
        let last = refiner.refine(&self.hierarchy.levels[0], current);
        Pipeline {
            hierarchy: self.hierarchy,
            repair_contiguity: self.repair_contiguity,
            state: Complete { partition: last },
        }
    }
}

impl Pipeline<Complete> {
    pub fn into_partition(self) -> (r: Partition)
        ensures
            r == self.state.partition,
    {
        self.state.partition
    }
}

} // verus!
