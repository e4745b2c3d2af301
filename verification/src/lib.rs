pub mod advanced;
pub mod api;
pub mod coarsen;
pub mod error;
pub mod graph;
pub mod init;
pub mod multilevel;
pub mod random;
pub mod refine;
pub mod util;

use vstd::prelude::*;

pub use api::{CoarseningMethod, MetisParams, MetisPartitioner, ObjectiveType, Partitioner};
pub use error::PartitionError;
pub use graph::{check_contiguity, extract_subgraph, CoarseMap, CsrGraph, Partition};
pub use graph::repair_contiguity;

use crate::api::{input_error, is_input_error, method_stalls, target_error};
use crate::coarsen::shem::SortedHeavyEdgeMatchWithParams;
use crate::graph::partition::opt_u32_view;
use crate::coarsen::stop_threshold;
use crate::graph::csr::{csr_input_view, validation_error};

verus! {

/// What `part_recursive` and `part_kway` promise for `nparts` parts of the
/// graph that the CSR slices describe: a defective graph is refused as
/// `from_csr` refuses it; otherwise the input checks of `split` decide the
/// error, and an assignment has one part below `nparts` per vertex.
pub open spec fn entry_point_result(
    xadj: &[u32],
    adjncy: &[u32],
    vwgt: &[i32],
    adjwgt: &[i32],
    nparts: u32,
    r: Result<Vec<u32>, PartitionError>,
) -> bool {
    let gv = csr_input_view(xadj, adjncy, vwgt, adjwgt);
    match gv.defect() {
        Some(d) => r == Err::<Vec<u32>, PartitionError>(validation_error(d)),
        None => {
            &&& input_error(gv, nparts as int) matches Some(e) ==> r == Err::<Vec<u32>, PartitionError>(e)
            &&& r matches Ok(a) ==> a@.len() == gv.n() && forall|v: int|
                0 <= v < a@.len() ==> #[trigger] a@[v] < nparts
        },
    }
}

/// The errors the entry points can end with: the refusal of a defective
/// graph, an input check, a target-share check, a stalled coarsening, or on
/// the recursive path an input check of a bisected half.
pub open spec fn entry_point_error(
    xadj: &[u32],
    adjncy: &[u32],
    vwgt: &[i32],
    adjwgt: &[i32],
    nparts: u32,
    tpwgts: Option<Vec<u32>>,
    e: PartitionError,
) -> bool {
    let gv = csr_input_view(xadj, adjncy, vwgt, adjwgt);
    match gv.defect() {
        Some(d) => e == validation_error(d),
        None => {
            ||| input_error(gv, nparts as int) == Some(e)
            ||| target_error(opt_u32_view(tpwgts), nparts, true) == Some(e)
            ||| target_error(opt_u32_view(tpwgts), nparts, false) == Some(e)
            ||| e == PartitionError::CoarseningStalled
            ||| is_input_error(e)
        },
    }
}

/// Partition a graph given as CSR slices by multilevel recursive bisection
/// (empty `vwgt` or `adjwgt`: unit weights). Recursion is switched on, and
/// the default single trial becomes four.
pub fn part_recursive(
    xadj: &[u32],
    adjncy: &[u32],
    vwgt: &[i32],
    adjwgt: &[i32],
    nparts: u32,
    params: MetisParams,
) -> (r: Result<Vec<u32>, PartitionError>)
    ensures
        entry_point_result(xadj, adjncy, vwgt, adjwgt, nparts, r),
        r matches Err(e) ==> entry_point_error(xadj, adjncy, vwgt, adjwgt, nparts, params.tpwgts, e),
        ({
            let gv = csr_input_view(xadj, adjncy, vwgt, adjwgt);
            gv.defect() is None && input_error(gv, nparts as int) is None ==> match target_error(
                opt_u32_view(params.tpwgts),
                nparts,
                true,
            ) {
                Some(e) => r == Err::<Vec<u32>, PartitionError>(e),
                None => true,
            }
        }),
        ({
            let gv = csr_input_view(xadj, adjncy, vwgt, adjwgt);
            gv.defect() is None && input_error(gv, nparts as int) is None && target_error(
                opt_u32_view(params.tpwgts),
                nparts,
                true,
            ) is None && nparts <= 2 && params.coarsen_method == CoarseningMethod::Shem && gv.n() <= stop_threshold(
                params.coarsen_to,
                nparts,
            ) ==> r is Ok
        }),
        ({
            let gv = csr_input_view(xadj, adjncy, vwgt, adjwgt);
            gv.defect() is None && input_error(gv, nparts as int) is None && target_error(
                opt_u32_view(params.tpwgts),
                nparts,
                true,
            ) is None && nparts <= 2 ==> (r matches Err(e) ==> e == PartitionError::CoarseningStalled && method_stalls(
                &(SortedHeavyEdgeMatchWithParams { coarsen_to: params.coarsen_to, k: nparts }),
                params.coarsen_method,
                params.coarsen_to,
                gv,
                nparts,
            ))
        }),
{
    let mut params = params;
    let defaults = MetisParams::default();
    if params.ncuts == defaults.ncuts {
        params.ncuts = MetisParams::recursive().ncuts;
    }
    params.use_recursive = true;
    let g = match CsrGraph::from_csr(xadj, adjncy, vwgt, adjwgt) {
        Ok(g) => g,
        Err(e) => {
            return Err(e);
        },
    };
    proof {
        crate::graph::csr::lemma_valid_facts(g@);
    }
    match MetisPartitioner::with_params(params, nparts).split(&g, nparts, None) {
        Ok(p) => Ok(p.into_assignment()),
        Err(e) => Err(e),
    }
}

/// Partition a graph given as CSR slices by direct multilevel k-way
/// partitioning (empty `vwgt` or `adjwgt`: unit weights); recursion is
/// switched off.
pub fn part_kway(
    xadj: &[u32],
    adjncy: &[u32],
    vwgt: &[i32],
    adjwgt: &[i32],
    nparts: u32,
    params: MetisParams,
) -> (r: Result<Vec<u32>, PartitionError>)
    ensures
        entry_point_result(xadj, adjncy, vwgt, adjwgt, nparts, r),
        r matches Err(e) ==> entry_point_error(xadj, adjncy, vwgt, adjwgt, nparts, params.tpwgts, e),
        ({
            let gv = csr_input_view(xadj, adjncy, vwgt, adjwgt);
            gv.defect() is None && input_error(gv, nparts as int) is None ==> match target_error(
                opt_u32_view(params.tpwgts),
                nparts,
                false,
            ) {
                Some(e) => r == Err::<Vec<u32>, PartitionError>(e),
                None => true,
            }
        }),
        ({
            let gv = csr_input_view(xadj, adjncy, vwgt, adjwgt);
            gv.defect() is None && input_error(gv, nparts as int) is None && target_error(
                opt_u32_view(params.tpwgts),
                nparts,
                false,
            ) is None && params.coarsen_method == CoarseningMethod::Shem && gv.n()
                <= stop_threshold(params.coarsen_to, nparts) ==> r is Ok
        }),
        ({
            let gv = csr_input_view(xadj, adjncy, vwgt, adjwgt);
            gv.defect() is None && input_error(gv, nparts as int) is None && target_error(
                opt_u32_view(params.tpwgts),
                nparts,
                false,
            ) is None ==> (r matches Err(e) ==> e == PartitionError::CoarseningStalled && method_stalls(
                &(SortedHeavyEdgeMatchWithParams { coarsen_to: params.coarsen_to, k: nparts }),
                params.coarsen_method,
                params.coarsen_to,
                gv,
                nparts,
            ))
        }),
{
    let mut params = params;
    params.use_recursive = false;
    let g = match CsrGraph::from_csr(xadj, adjncy, vwgt, adjwgt) {
        Ok(g) => g,
        Err(e) => {
            return Err(e);
        },
    };
    proof {
        crate::graph::csr::lemma_valid_facts(g@);
    }
    match MetisPartitioner::with_params(params, nparts).split(&g, nparts, None) {
        Ok(p) => Ok(p.into_assignment()),
        Err(e) => Err(e),
    }
}

} // verus!
