use metis_core::graph::{check_contiguity, extract_subgraph, repair_contiguity, CoarseMap, CsrGraph, Partition};
use metis_core::PartitionError;

fn path_parts(n: usize) -> (Vec<u32>, Vec<u32>) {
    let mut xadj = vec![0u32];
    let mut adjncy = Vec::new();
    for i in 0..n {
        if i > 0 {
            adjncy.push((i - 1) as u32);
        }
        if i < n - 1 {
            adjncy.push((i + 1) as u32);
        }
        xadj.push(adjncy.len() as u32);
    }
    (xadj, adjncy)
}

fn path_graph(n: usize) -> CsrGraph {
    let (xadj, adjncy) = path_parts(n);
    CsrGraph::new(xadj, adjncy, 1, vec![1i32; n], None).unwrap()
}

fn part(assignment: Vec<u32>, k: u32) -> Partition {
    Partition::from_parts(assignment, k, None)
}

#[test]
fn valid_path_graph() {
    assert!(path_graph(5).is_valid());
}

#[test]
fn new_accepts_valid_graph() {
    let (xadj, adjncy) = path_parts(5);
    let built = CsrGraph::new(xadj, adjncy, 1, vec![1i32; 5], None).expect("valid path graph should construct");
    assert_eq!(built.n(), 5);
}

#[test]
fn new_rejects_invalid_graph() {
    let result = CsrGraph::new(vec![0, 1, 2], vec![1, 2], 1, vec![1, 1], None);
    assert!(matches!(result, Err(PartitionError::InvalidGraph(_))));
}

#[test]
fn from_csr_defaults_empty_weights_to_unit_weights() {
    let g = path_graph(4);
    let built = CsrGraph::from_csr(g.xadj(), g.adjncy(), &[], &[]).expect("valid unweighted path graph should construct");
    assert_eq!(built.vwgt(), &[1, 1, 1, 1]);
    assert!(built.adjwgt().is_none());
}

#[test]
fn invalid_self_loop() {
    let (xadj, mut adjncy) = path_parts(4);
    adjncy[0] = 0;
    assert!(CsrGraph::new(xadj, adjncy, 1, vec![1i32; 4], None).is_err());
}

#[test]
fn invalid_out_of_bounds_adjncy() {
    let (xadj, mut adjncy) = path_parts(4);
    adjncy[0] = 99;
    assert!(CsrGraph::new(xadj, adjncy, 1, vec![1i32; 4], None).is_err());
}

#[test]
fn invalid_zero_vwgt() {
    let (xadj, adjncy) = path_parts(4);
    let mut vwgt = vec![1i32; 4];
    vwgt[1] = 0;
    assert!(CsrGraph::new(xadj, adjncy, 1, vwgt, None).is_err());
}

#[test]
fn invalid_negative_vwgt() {
    let (xadj, adjncy) = path_parts(4);
    let mut vwgt = vec![1i32; 4];
    vwgt[1] = -1;
    assert!(CsrGraph::new(xadj, adjncy, 1, vwgt, None).is_err());
}

#[test]
fn invalid_disconnected() {
    let r = CsrGraph::new(vec![0, 1, 2, 3, 4], vec![1, 0, 3, 2], 1, vec![1; 4], None);
    assert!(r.is_err());
}

#[test]
fn invalid_adjwgt_wrong_len() {
    let (xadj, adjncy) = path_parts(4);
    assert!(CsrGraph::new(xadj, adjncy, 1, vec![1i32; 4], Some(vec![1i32; 3])).is_err());
}

#[test]
fn invalid_trailing_adjncy() {
    let result = CsrGraph::new(vec![0, 1, 2], vec![1, 0, 0], 1, vec![1; 2], None);
    assert!(matches!(result, Err(PartitionError::InvalidGraph(_))));
}

#[test]
fn invalid_directed_adjncy() {
    let result = CsrGraph::new(vec![0, 1, 2, 2], vec![1, 2], 1, vec![1; 3], None);
    assert!(matches!(result, Err(PartitionError::InvalidGraph(_))));
}

#[test]
fn invalid_zero_adjwgt() {
    let (xadj, adjncy) = path_parts(4);
    let mut w = vec![1i32; adjncy.len()];
    w[0] = 0;
    assert!(CsrGraph::new(xadj, adjncy, 1, vec![1i32; 4], Some(w)).is_err());
}

#[test]
fn invalid_asymmetric_adjwgt() {
    let result = CsrGraph::new(vec![0, 1, 2], vec![1, 0], 1, vec![1; 2], Some(vec![1, 2]));
    assert!(matches!(result, Err(PartitionError::InvalidGraph(_))));
}

#[test]
fn valid_multi_constraint() {
    let (xadj, adjncy) = path_parts(4);
    let g = CsrGraph::new(xadj, adjncy, 2, vec![1, 2, 3, 4, 5, 6, 7, 8], None).unwrap();
    assert!(g.is_valid());
}

#[test]
fn extract_subgraph_contains_correct_vertices() {
    let g = path_graph(4);
    let assignment = [0u32, 0, 1, 1];
    let (sub, _g2l, l2g) = extract_subgraph(&g, &assignment, 0);
    assert_eq!(l2g, vec![0, 1], "left subgraph should contain vertices 0 and 1");
    assert!(sub.is_valid());
    assert_eq!(sub.n(), 2);
    assert_eq!(sub.adjncy().len(), 2, "one internal edge 0-1 = 2 directed entries");
}

#[test]
fn extract_subgraph_preserves_edge_weights() {
    let (xadj, adjncy) = path_parts(4);
    let m = adjncy.len();
    let g = CsrGraph::new(xadj, adjncy, 1, vec![1i32; 4], Some(vec![3i32; m])).unwrap();
    let assignment = [0u32, 0, 1, 1];
    let (sub, _, _) = extract_subgraph(&g, &assignment, 0);
    assert!(sub.adjwgt().is_some());
    assert!(sub.adjwgt().unwrap().iter().all(|&w| w == 3), "edge weight must survive into subgraph");
}

#[test]
fn extract_subgraph_unweighted_stays_unweighted() {
    let g = path_graph(4);
    let assignment = [0u32, 0, 1, 1];
    let (sub, _, _) = extract_subgraph(&g, &assignment, 0);
    assert!(sub.adjwgt().is_none());
}

#[test]
fn extract_subgraph_single_vertex_no_edges() {
    let g = path_graph(4);
    let assignment = [0u32, 1, 0, 0];
    let (sub, _, l2g) = extract_subgraph(&g, &assignment, 1);
    assert_eq!(l2g, vec![1]);
    assert_eq!(sub.n(), 1);
    assert_eq!(sub.adjncy().len(), 0, "isolated vertex has no internal edges");
}

#[test]
fn extract_subgraph_multiconstraint_weight_layout() {
    let (xadj, adjncy) = path_parts(4);
    let g = CsrGraph::new(xadj, adjncy, 2, vec![1, 2, 3, 4, 5, 6, 7, 8], None).unwrap();
    let assignment = [0u32, 0, 1, 1];
    let (sub, _, _) = extract_subgraph(&g, &assignment, 0);
    assert_eq!(sub.ncon(), 2);
    assert_eq!(sub.vwgt().len(), 4, "2 vertices × 2 constraints");
    assert_eq!(&sub.vwgt()[0..2], &[1, 2], "vertex 0 weights");
    assert_eq!(&sub.vwgt()[2..4], &[3, 4], "vertex 1 weights");
}

#[test]
fn check_contiguity_path_bisect_is_ok() {
    let g = path_graph(4);
    let p = part(vec![0, 0, 1, 1], 2);
    assert!(check_contiguity(&g, &p).is_ok());
}

#[test]
fn check_contiguity_disconnected_returns_err_with_part_id() {
    let g = path_graph(5);
    let p = part(vec![0, 0, 1, 1, 0], 2);
    let err = check_contiguity(&g, &p);
    assert!(err.is_err(), "disconnected part must return Err");
    assert_eq!(err.unwrap_err(), 0, "err value must be the disconnected part ID");
}

#[test]
fn partition_validate_for_graph_accepts_valid_partition() {
    let g = path_graph(4);
    let p = Partition::from_parts(vec![0, 0, 1, 1], 2, Some(vec![1, 1]));
    assert!(p.validate_for_graph(&g).is_ok());
}

#[test]
fn partition_validate_for_graph_rejects_short_assignment() {
    let g = path_graph(4);
    let p = part(vec![0, 1, 1], 2);
    assert!(matches!(p.validate_for_graph(&g), Err(PartitionError::InvalidPartition(_))));
}

#[test]
fn partition_validate_for_graph_rejects_out_of_range_part() {
    let g = path_graph(4);
    let p = part(vec![0, 0, 1, 2], 2);
    assert!(matches!(p.validate_for_graph(&g), Err(PartitionError::InvalidPartition(_))));
}

#[test]
fn coarse_map_new_accepts_surjective_in_range_map() {
    let cmap = CoarseMap::new(vec![0, 0, 1, 1], 4, 2).expect("valid fine-to-coarse map should construct");
    assert_eq!(cmap.as_slice(), &[0, 0, 1, 1]);
}

#[test]
fn coarse_map_new_rejects_malformed_maps() {
    assert!(matches!(CoarseMap::new(vec![0, 1], 3, 2), Err(PartitionError::InvalidGraph(_))));
    assert!(matches!(CoarseMap::new(vec![0, 2], 2, 2), Err(PartitionError::InvalidGraph(_))));
    assert!(matches!(CoarseMap::new(vec![0, 0], 2, 2), Err(PartitionError::InvalidGraph(_))));
}

#[test]
fn check_contiguity_rejects_invalid_partition_without_panic() {
    let g = path_graph(4);
    let p = part(vec![0, 0, 1, 2], 2);
    assert_eq!(check_contiguity(&g, &p), Err(u32::MAX));
}

#[test]
fn repair_contiguity_fixes_disconnected_part() {
    let g = path_graph(5);
    let mut p = part(vec![0, 0, 1, 1, 0], 2);
    assert!(check_contiguity(&g, &p).is_err(), "pre-condition: must be non-contiguous");
    let moved = repair_contiguity(&g, &mut p);
    assert!(moved > 0, "must have moved at least one vertex");
    assert!(check_contiguity(&g, &p).is_ok(), "must be contiguous after repair");
}

#[test]
fn repair_contiguity_noop_when_already_contiguous() {
    let g = path_graph(4);
    let mut p = part(vec![0, 0, 1, 1], 2);
    let orig = p.assignment().to_vec();
    let moved = repair_contiguity(&g, &mut p);
    assert_eq!(moved, 0, "no vertices should move when partition is already contiguous");
    assert_eq!(p.assignment(), orig.as_slice());
}

#[test]
fn repair_contiguity_handles_k1() {
    let g = path_graph(6);
    let mut p = part(vec![0; 6], 1);
    let moved = repair_contiguity(&g, &mut p);
    assert_eq!(moved, 0, "k=1 is trivially contiguous — no repair needed");
}

// ── own checks ───────────────────────────────────────────────────────────

#[test]
fn repair_moves_smaller_piece_to_neighbouring_part() {
    // Part 0 = {0,1} and {4}; the single vertex 4 joins part 1.
    let g = path_graph(5);
    let mut p = part(vec![0, 0, 1, 1, 0], 2);
    let moved = repair_contiguity(&g, &mut p);
    assert_eq!(moved, 1);
    assert_eq!(p.assignment(), &[0, 0, 1, 1, 1]);
}

#[test]
fn compute_cut_counts_each_crossing_edge_once() {
    let g = path_graph(5);
    assert_eq!(metis_core::graph::metrics::compute_cut(&g, &[0, 1, 0, 1, 0]), 4);
    assert_eq!(metis_core::graph::metrics::compute_cut(&g, &[0, 0, 0, 1, 1]), 1);
}

#[test]
fn strict_constructor_names_the_rule() {
    let r = CsrGraph::from_csr_strict(&[0, 1, 2, 3, 4], &[1, 0, 3, 2], &[], &[]);
    assert!(matches!(r, Err(PartitionError::DisconnectedGraph)));
}

fn grid_graph(rows: usize, cols: usize) -> CsrGraph {
    let mut xadj = vec![0u32];
    let mut adjncy = Vec::new();
    for r in 0..rows {
        for c in 0..cols {
            if r > 0 {
                adjncy.push(((r - 1) * cols + c) as u32);
            }
            if c > 0 {
                adjncy.push((r * cols + c - 1) as u32);
            }
            if c + 1 < cols {
                adjncy.push((r * cols + c + 1) as u32);
            }
            if r + 1 < rows {
                adjncy.push(((r + 1) * cols + c) as u32);
            }
            xadj.push(adjncy.len() as u32);
        }
    }
    CsrGraph::new(xadj, adjncy, 1, vec![1i32; rows * cols], None).unwrap()
}

#[test]
fn repair_contiguity_joins_scattered_pieces_of_three_parts() {
    let g = grid_graph(4, 4);
    // Diagonal stripes: every part falls apart into several pieces.
    let a: Vec<u32> = (0..16u32).map(|v| ((v / 4) + (v % 4)) % 3).collect();
    let mut p = part(a, 3);
    assert!(check_contiguity(&g, &p).is_err());
    let moved = repair_contiguity(&g, &mut p);
    assert!(moved > 0);
    assert_eq!(check_contiguity(&g, &p), Ok(()));
    assert_eq!(p.k(), 3);
}

#[test]
fn repair_contiguity_checkerboard_ends_contiguous() {
    let g = grid_graph(3, 5);
    let a: Vec<u32> = (0..15u32).map(|v| ((v / 5) + (v % 5)) % 2).collect();
    let mut p = part(a, 2);
    repair_contiguity(&g, &mut p);
    assert_eq!(check_contiguity(&g, &p), Ok(()));
}

#[test]
fn repair_moves_only_the_smaller_piece() {
    let g = path_graph(5);
    let mut p = part(vec![0, 0, 1, 1, 0], 2);
    let moved = repair_contiguity(&g, &mut p);
    assert_eq!(moved, 1);
    assert_eq!(p.assignment(), &[0, 0, 1, 1, 1]);
}

#[test]
fn repair_contiguity_moves_the_smaller_piece() {
    let g = path_graph(5);
    let mut p = part(vec![0, 0, 1, 1, 0], 2);
    let moved = repair_contiguity(&g, &mut p);
    assert_eq!(moved, 1);
    assert_eq!(p.assignment(), &[0, 0, 1, 1, 1]);
}

#[test]
fn repair_contiguity_keeps_the_last_largest_piece() {
    // Part 0 first: {0} goes to part 1. Then part 1 has two pieces of two
    // vertices; the later one, {4, 5}, stays and {0, 1} joins part 0.
    let g = path_graph(6);
    let mut p = part(vec![0, 1, 0, 0, 1, 1], 2);
    let moved = repair_contiguity(&g, &mut p);
    assert_eq!(moved, 3);
    assert_eq!(p.assignment(), &[0, 0, 0, 0, 1, 1]);
}
