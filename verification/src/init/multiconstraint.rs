use vstd::prelude::*;

use crate::graph::csr::CsrGraph;
use crate::graph::contiguity::contiguity_result;
use crate::graph::partition::{all_parts_present, Partition};
use crate::init::grow::GrowKway;
use crate::init::InitialPartitioner;

verus! {

/// Initial partitioning for graphs with several vertex weights: grows the
/// parts as `GrowKway` does; balance over all constraints is left to
/// refinement.
pub struct MultiConstraintInit;

impl InitialPartitioner for MultiConstraintInit {
    fn partition(&self, g: &CsrGraph, k: u32, seed: u64) -> (r: Partition)
        ensures
            k <= g@.n() ==> all_parts_present(r@.assignment, k as int),
            g@.valid() ==> contiguity_result(g@, r@) is Ok,
    {
        GrowKway.partition(g, k, seed)
    }
}

} // verus!
