pub mod contiguity;
pub mod csr;
pub mod metrics;
pub mod partition;
pub mod repair;
pub mod subgraph;
pub mod topology;

pub use contiguity::check_contiguity;
pub use csr::{CsrGraph, GraphDefect, GraphView};
pub use partition::{CoarseMap, Partition, PartitionView};
pub use repair::repair_contiguity;
pub use subgraph::extract_subgraph;
