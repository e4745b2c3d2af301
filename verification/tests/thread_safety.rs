use metis_core::api::{MetisParams, MetisPartitioner, Partitioner};
use metis_core::graph::{CoarseMap, CsrGraph, Partition};

fn assert_send_sync<T: Send + Sync>() {}

#[test]
fn public_partitioning_types_are_send_sync() {
    assert_send_sync::<CsrGraph>();
    assert_send_sync::<Partition>();
    assert_send_sync::<CoarseMap>();
    assert_send_sync::<MetisParams>();
    assert_send_sync::<MetisPartitioner>();
    assert_send_sync::<Box<dyn Partitioner>>();
}
