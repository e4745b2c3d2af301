use metis_core::{CsrGraph, PartitionError};

#[test]
fn asymmetric_csr_is_rejected_with_typed_error() {
    let result = CsrGraph::from_csr_strict(&[0, 1, 1], &[1], &[], &[]);
    assert!(matches!(result, Err(PartitionError::AsymmetricAdjacency)));
}
