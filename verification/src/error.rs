use vstd::prelude::*;

verus! {

/// Errors reported by graph construction, partition validation and the
/// partitioning pipeline.
#[derive(Debug, Clone, Copy, PartialEq, Eq)]
pub enum PartitionError {
    InvalidGraph(&'static str),
    InvalidPartition(&'static str),
    InvalidParams(&'static str),
    BadXadjLength,
    BadXadjStart,
    BadXadjTerminator,
    NonMonotonicXadj,
    InvalidNeighbor,
    AsymmetricAdjacency,
    AsymmetricEdgeWeight,
    DisconnectedGraph,
    NonPositiveVertexWeight,
    NonPositiveEdgeWeight,
    TargetWeightLength { len: usize, k: u32 },
    InvalidTargetWeight,
    TargetWeightsDoNotSum,
    NonPositiveParam { name: &'static str },
    ParamOutOfRange { name: &'static str },
    ZeroParts,
    TooManyParts { k: u32, n: usize },
    CoarseningStalled,
    PartitioningFailed,
    WeightOverflow,
    EmptyGraph,
}

} // verus!
