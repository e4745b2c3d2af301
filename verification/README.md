# metis_core

Multilevel graph partitioning in Rust, specified and proved with Verus.

A graph in compressed-sparse-row form is split into `k` parts of balanced
weight with few edges between them: the graph is coarsened by matchings,
the coarsest graph is partitioned, and the partition is projected back and
refined level by level.

## Layout

- `src/graph` — the CSR graph and its validation, partitions, edge cut,
  reachability, contiguity checks and repair, subgraph extraction.
- `src/coarsen` — matchings (heavy edge, sorted heavy edge, two-hop, minimum
  degree) and the contraction that builds a coarse graph.
- `src/init` — initial partitioners: breadth-first growing, random bisection,
  recursive bisection.
- `src/refine` — Fiduccia-Mattheyses refinement with its gain table,
  label-propagation balancing, rebalancing to the imbalance limit and
  connectivity reduction.
- `src/multilevel` — the coarsening hierarchy and the pipeline that walks it.
- `src/api.rs`, `src/lib.rs` — parameters, the partitioner and the two entry
  points `part_kway` and `part_recursive`.
- `src/random.rs` — the seeded generator behind the random choices; the only
  calls into `rand` and `rand_pcg`.
- `app/` — the error type with its `Display` and `Error` impls and the entry
  points that report it.
- `tests/` — scenarios on concrete graphs.

Contracts speak of views (`GraphView`, `PartitionView`) and spec functions
over them; the proof functions named `lemma_*` that are public state laws of
the library, such as that contraction keeps a graph symmetric and connected,
or that moving a whole disconnected piece into a neighbouring part lowers the
number of pieces.
