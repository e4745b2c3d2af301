use metis_core::api::{MetisParams, MetisPartitioner, ObjectiveType, Partitioner};
use metis_core::coarsen::hem::path_graph;
use metis_core::graph::{check_contiguity, CsrGraph, Partition};
use metis_core::init::random::RandomBisect;
use metis_core::init::InitialPartitioner;
use metis_core::refine::boundary::BoundarySet;
use metis_core::refine::fm::{best_volume_gain, compute_volume_gain, would_disconnect, FiducciaMattheyses, FmState};
use metis_core::refine::gain::GainTable;
use metis_core::refine::kway::GreedyKWay;
use metis_core::refine::lp::{best_rebalance_move, lp_balance, rebalance_to_ufactor};
use metis_core::refine::minconn::minimize_connectivity;
use metis_core::refine::Refiner;

fn grid(rows: usize, cols: usize, ncon: u32) -> CsrGraph {
    let n = rows * cols;
    let mut xadj = vec![0u32];
    let mut adjncy = Vec::new();
    for r in 0..rows {
        for c in 0..cols {
            let mut nbrs = Vec::new();
            if r > 0 {
                nbrs.push((r - 1) * cols + c);
            }
            if r < rows - 1 {
                nbrs.push((r + 1) * cols + c);
            }
            if c > 0 {
                nbrs.push(r * cols + (c - 1));
            }
            if c < cols - 1 {
                nbrs.push(r * cols + (c + 1));
            }
            for &u in &nbrs {
                adjncy.push(u as u32);
            }
            xadj.push(adjncy.len() as u32);
        }
    }
    CsrGraph::new(xadj, adjncy, ncon, vec![1i32; n * ncon as usize], None).unwrap()
}

fn dumbbell_graph() -> CsrGraph {
    let n = 10usize;
    let mut xadj = vec![0u32];
    let mut adjncy = Vec::new();
    for v in 0..n {
        let mut nbrs: Vec<usize> = Vec::new();
        let clique = if v < 5 { 0..5 } else { 5..10 };
        for u in clique {
            if u != v {
                nbrs.push(u);
            }
        }
        if v == 4 {
            nbrs.push(5);
        }
        if v == 5 {
            nbrs.push(4);
        }
        for &u in &nbrs {
            adjncy.push(u as u32);
        }
        xadj.push(adjncy.len() as u32);
    }
    CsrGraph::new(xadj, adjncy, 1, vec![1i32; n], None).unwrap()
}

fn cut_of(g: &CsrGraph, assignment: &[u32]) -> u32 {
    let mut cut = 0u32;
    for v in 0..g.n() {
        for j in g.xadj()[v] as usize..g.xadj()[v + 1] as usize {
            let u = g.adjncy()[j] as usize;
            if assignment[v] != assignment[u] {
                cut += 1;
            }
        }
    }
    cut / 2
}

fn part(assignment: Vec<u32>, k: u32) -> Partition {
    Partition::from_parts(assignment, k, None)
}

fn fm(niter: u32) -> FiducciaMattheyses {
    FiducciaMattheyses { niter, contig_fm: true, objective: ObjectiveType::Cut, lp_iter: 0, ufactor: 5 }
}

fn pwgtss(g: &CsrGraph, p: &Partition) -> Vec<i64> {
    let mut wgts = vec![0i64; p.k() as usize];
    for v in 0..g.n() {
        wgts[p.assignment()[v] as usize] += g.vwgt()[v] as i64;
    }
    wgts
}

fn max_imbalance(wgts: &[i64], target: i64) -> i64 {
    wgts.iter().map(|&p| (p - target).abs()).max().unwrap_or(0)
}

fn count_subdomain_pairs(g: &CsrGraph, p: &Partition) -> usize {
    let mut pairs: Vec<(u32, u32)> = Vec::new();
    let a = p.assignment();
    for v in 0..g.n() {
        for j in g.xadj()[v] as usize..g.xadj()[v + 1] as usize {
            let u = g.adjncy()[j] as usize;
            if a[v] != a[u] {
                let pair = (a[v].min(a[u]), a[v].max(a[u]));
                if !pairs.contains(&pair) {
                    pairs.push(pair);
                }
            }
        }
    }
    pairs.len()
}

// ── FM state and refinement ──────────────────────────────────────────────

#[test]
fn fm_state_cut_path3_split() {
    let g = path_graph(3);
    let state = FmState::new(&g, part(vec![0, 0, 1], 2), ObjectiveType::Cut);
    assert_eq!(state.cut(), 1);
}

#[test]
fn fm_state_checkpoint_restore() {
    let g = path_graph(4);
    let mut state = FmState::new(&g, part(vec![0, 0, 1, 1], 2), ObjectiveType::Cut);
    let cp = state.checkpoint();
    assert_eq!(cp.cut, state.cut());
    state.assignment[1] = 1;
    assert_ne!(state.assignment[1], cp.assignment[1]);
    state.restore(&cp);
    assert_eq!(state.assignment, cp.assignment);
}

#[test]
fn fm_does_not_increase_cut() {
    let g = grid(4, 4, 1);
    let p_init = RandomBisect.partition(&g, 2, 0);
    let cut_before = cut_of(&g, p_init.assignment());
    let p = fm(10).refine(&g, p_init);
    let cut_after = cut_of(&g, p.assignment());
    assert!(cut_after <= cut_before, "FM must not increase cut: before={cut_before} after={cut_after}");
}

#[test]
fn fm_oracle_dumbbell_bisect() {
    let g = dumbbell_graph();
    let p_init = RandomBisect.partition(&g, 2, 42);
    let p = fm(20).refine(&g, p_init);
    let cut = cut_of(&g, p.assignment());
    assert_eq!(cut, 1, "dumbbell bisect optimal cut is 1, got {cut}");
}

#[test]
fn fm_preserves_population_balance() {
    let g = grid(4, 4, 1);
    let total: i64 = g.vwgt().iter().map(|&w| w as i64).sum();
    let target = total / 2;
    let eps = (target * 5 + 999) / 1000;
    let p_init = RandomBisect.partition(&g, 2, 99);
    let p = fm(10).refine(&g, p_init);
    for part in 0..2u32 {
        let wgt: i64 = (0..g.n()).filter(|&v| p.assignment()[v] == part).map(|v| g.vwgt()[v] as i64).sum();
        assert!((wgt - target).abs() <= eps, "part {part} wgt {wgt} violates balance (target {target} ± {eps})");
    }
}

#[test]
fn fm_multi_constraint_balance() {
    let g = grid(4, 4, 2);
    let p_init = RandomBisect.partition(&g, 2, 42);
    let p = fm(10).refine(&g, p_init);
    assert_eq!(p.assignment().len(), 16);
    let target = 8i64;
    let eps = (target * 5 + 999) / 1000;
    for part in 0..2u32 {
        let wgt0: i64 = (0..16).filter(|&v| p.assignment()[v] == part).map(|v| g.vwgt()[v * 2] as i64).sum();
        let wgt1: i64 = (0..16).filter(|&v| p.assignment()[v] == part).map(|v| g.vwgt()[v * 2 + 1] as i64).sum();
        assert!((wgt0 - target).abs() <= eps, "part {part} constraint 0 wgt {wgt0} violates balance");
        assert!((wgt1 - target).abs() <= eps, "part {part} constraint 1 wgt {wgt1} violates balance");
    }
}

#[test]
fn would_disconnect_path_interior_vertex() {
    let g = path_graph(5);
    let assignment = vec![0u32, 0, 1, 1, 1];
    assert!(!would_disconnect(&g, &assignment, 2, 1), "path interior: {{3,4}} still connected after removing 2");
}

#[test]
fn would_disconnect_endpoint_safe() {
    let g = path_graph(5);
    let assignment = vec![0u32, 0, 0, 1, 1];
    assert!(!would_disconnect(&g, &assignment, 3, 1), "removing endpoint 3 leaves {{4}} which is trivially connected");
}

#[test]
fn would_disconnect_star_center() {
    let n = 6usize;
    let mut xadj = vec![0u32];
    let mut adjncy = Vec::new();
    for i in 1..n {
        adjncy.push(i as u32);
    }
    xadj.push(adjncy.len() as u32);
    for _ in 1..n {
        adjncy.push(0u32);
        xadj.push(adjncy.len() as u32);
    }
    let g = CsrGraph::new(xadj, adjncy, 1, vec![1i32; n], None).unwrap();
    let assignment = vec![0u32; n];
    assert!(would_disconnect(&g, &assignment, 0, 0), "removing star center must disconnect leaves");
}

#[test]
fn would_disconnect_triangle_no_cut_vertex() {
    let g = CsrGraph::new(vec![0u32, 2, 4, 6], vec![1u32, 2, 0, 2, 0, 1], 1, vec![1i32; 3], None).unwrap();
    let assignment = vec![0u32, 0, 0];
    for v in 0..3 {
        assert!(!would_disconnect(&g, &assignment, v, 0), "triangle: removing vertex {v} must not disconnect");
    }
}

#[test]
fn contig_fm_preserves_contiguity_path() {
    let g = path_graph(5);
    let result = fm(20).refine(&g, part(vec![0u32, 0, 1, 1, 0], 2));
    for p in 0..2u32 {
        let members: Vec<usize> = (0..g.n()).filter(|&v| result.assignment()[v] == p).collect();
        if members.is_empty() {
            continue;
        }
        let mut visited = vec![false; g.n()];
        let mut queue = vec![members[0]];
        visited[members[0]] = true;
        let mut head = 0;
        while head < queue.len() {
            let u = queue[head];
            head += 1;
            for j in g.xadj()[u] as usize..g.xadj()[u + 1] as usize {
                let w = g.adjncy()[j] as usize;
                if !visited[w] && result.assignment()[w] == p {
                    visited[w] = true;
                    queue.push(w);
                }
            }
        }
        let reached = members.iter().filter(|&&v| visited[v]).count();
        assert_eq!(reached, members.len(), "part {p} is disconnected after contig_fm refinement");
    }
}

#[test]
fn compute_volume_gain_path_move_boundary() {
    let g = path_graph(4);
    let assignment = vec![0u32, 0, 1, 1];
    let gain = compute_volume_gain(&g, &assignment, 1, 0, 1);
    let _ = gain;
}

#[test]
fn volume_objective_produces_valid_partition() {
    let g = grid(4, 4, 1);
    let params = MetisParams { objective: ObjectiveType::Volume, ..MetisParams::default() };
    let p = MetisPartitioner::with_params(params, 4).split(&g, 4, Some(0)).unwrap();
    assert_eq!(p.assignment().len(), 16);
    for part in 0..4u32 {
        assert!(p.assignment().contains(&part), "part {part} is missing from assignment");
    }
}

#[test]
fn volume_objective_valid_bisection() {
    let g = path_graph(10);
    let params = MetisParams { objective: ObjectiveType::Volume, ..MetisParams::default() };
    let p = MetisPartitioner::with_params(params, 2).split(&g, 2, Some(42)).unwrap();
    assert_eq!(p.assignment().len(), 10);
    assert_eq!(p.k(), 2);
    assert!(p.assignment().contains(&0), "part 0 missing");
    assert!(p.assignment().contains(&1), "part 1 missing");
}

#[test]
fn best_volume_gain_boundary_vertex() {
    let g = path_graph(4);
    let assignment = vec![0u32, 0, 1, 1];
    let g_val = best_volume_gain(&g, &assignment, 1, 0, 2);
    let _ = g_val;
}

#[test]
fn best_volume_gain_interior_vertex_is_zero() {
    let g = path_graph(3);
    let assignment = vec![0u32, 0, 0];
    assert_eq!(best_volume_gain(&g, &assignment, 1, 0, 2), 0);
}

// ── gain table ───────────────────────────────────────────────────────────

#[test]
fn gain_table_max_is_correct() {
    let mut gt = GainTable::new(5, 10);
    gt.insert(0, 3);
    gt.insert(1, -2);
    gt.insert(2, 7);
    let (v, g) = gt.peek_max().unwrap();
    assert_eq!((v, g), (2, 7));
}

#[test]
fn gain_table_remove_max() {
    let mut gt = GainTable::new(5, 10);
    gt.insert(0, 5);
    gt.insert(1, 3);
    gt.insert(2, 8);
    let (v, g) = gt.pop_max().unwrap();
    assert_eq!((v, g), (2, 8));
    let (v2, g2) = gt.pop_max().unwrap();
    assert_eq!((v2, g2), (0, 5));
}

#[test]
fn gain_table_update_gain() {
    let mut gt = GainTable::new(3, 5);
    gt.insert(0, 2);
    gt.update(0, 4);
    let (v, g) = gt.peek_max().unwrap();
    assert_eq!((v, g), (0, 4));
}

#[test]
fn gain_table_negative_gain() {
    let mut gt = GainTable::new(3, 5);
    gt.insert(0, -3);
    gt.insert(1, -1);
    let (v, _) = gt.peek_max().unwrap();
    assert_eq!(v, 1, "vertex 1 has gain -1 which is > -3");
}

#[test]
fn gain_table_empty_returns_none() {
    let gt = GainTable::new(4, 10);
    assert!(gt.peek_max().is_none());
    assert!(gt.is_empty());
}

#[test]
fn gain_table_large_range_uses_sparse_storage() {
    let mut gt = GainTable::new(3, i32::MAX);
    gt.insert(0, i32::MAX);
    gt.insert(1, -i32::MAX);
    gt.insert(2, 7);
    assert_eq!(gt.peek_max(), Some((0, i32::MAX)));
    assert_eq!(gt.pop_max(), Some((0, i32::MAX)));
    assert_eq!(gt.peek_max(), Some((2, 7)));
}

// ── boundary set ─────────────────────────────────────────────────────────

#[test]
fn boundary_contains_cross_part_vertices() {
    let g = path_graph(3);
    let b = BoundarySet::from_partition(&g, &part(vec![0, 0, 1], 2));
    assert!(b.contains(1), "vertex 1 should be on boundary");
    assert!(b.contains(2), "vertex 2 should be on boundary");
    assert!(!b.contains(0), "vertex 0 should NOT be on boundary");
}

#[test]
fn boundary_all_same_part_empty() {
    let g = path_graph(5);
    let b = BoundarySet::from_partition(&g, &part(vec![0; 5], 1));
    for v in 0..5u32 {
        assert!(!b.contains(v));
    }
}

#[test]
fn boundary_insert_and_remove() {
    let g = path_graph(4);
    let mut b = BoundarySet::from_partition(&g, &part(vec![0, 0, 1, 1], 2));
    assert!(!b.contains(0), "vertex 0 should not be on boundary");
    b.insert(0);
    assert!(b.contains(0), "after insert, vertex 0 must be on boundary");
    b.remove(0);
    assert!(!b.contains(0), "after remove, vertex 0 must not be on boundary");
}

#[test]
fn boundary_iter_yields_all_boundary_vertices() {
    let g = path_graph(4);
    let b = BoundarySet::from_partition(&g, &part(vec![0, 0, 1, 1], 2));
    let mut boundary_verts: Vec<u32> = b.iter();
    boundary_verts.sort();
    assert_eq!(boundary_verts, vec![1, 2], "only vertices 1 and 2 are on the boundary of a middle bisection");
}

#[test]
fn boundary_is_empty_and_len() {
    let g = path_graph(4);
    let b_full = BoundarySet::from_partition(&g, &part(vec![0, 0, 1, 1], 2));
    let b_none = BoundarySet::from_partition(&g, &part(vec![0; 4], 1));
    assert!(!b_full.is_empty(), "bisected graph has boundary vertices");
    assert_eq!(b_full.len(), 2, "exactly 2 boundary vertices");
    assert!(b_none.is_empty(), "all-same-part has no boundary");
    assert_eq!(b_none.len(), 0);
}

// ── greedy k-way ─────────────────────────────────────────────────────────

#[test]
fn greedy_kway_does_not_increase_cut() {
    let g = path_graph(10);
    let p_bad = part((0..10u32).map(|i| i % 2).collect(), 2);
    let cut_before = cut_of(&g, p_bad.assignment());
    let p_ref = GreedyKWay::new(10).refine(&g, p_bad);
    let cut_after = cut_of(&g, p_ref.assignment());
    assert!(cut_after <= cut_before, "GreedyKWay must not increase cut: before={cut_before} after={cut_after}");
}

#[test]
fn greedy_kway_output_valid_k4() {
    let g = path_graph(12);
    let p_init = part((0..12).map(|i| (i / 3) as u32).collect(), 4);
    let p = GreedyKWay::new(10).refine(&g, p_init);
    assert_eq!(p.assignment().len(), 12);
    assert!(p.assignment().iter().all(|&a| a < 4), "all assignments must be in [0, k)");
}

// ── label propagation ────────────────────────────────────────────────────

#[test]
fn lp_zero_iter_is_noop() {
    let g = path_graph(10);
    let mut p = part(vec![0, 0, 0, 0, 0, 1, 1, 1, 1, 1], 2);
    let before = p.assignment().to_vec();
    lp_balance(&g, &mut p, 5, 0);
    assert_eq!(p.assignment(), before.as_slice());
}

#[test]
fn lp_balanced_partition_unchanged() {
    let g = path_graph(10);
    let mut p = part(vec![0, 0, 0, 0, 0, 1, 1, 1, 1, 1], 2);
    let before = p.assignment().to_vec();
    lp_balance(&g, &mut p, 5, 10);
    assert_eq!(p.assignment(), before.as_slice(), "perfectly balanced partition must not be changed by LP");
}

#[test]
fn lp_respects_ufactor_tolerance() {
    let g = path_graph(10);
    let assignment = vec![0, 0, 0, 0, 0, 0, 1, 1, 1, 1];
    let mut strict = part(assignment.clone(), 2);
    lp_balance(&g, &mut strict, 0, 10);
    let mut loose = part(assignment, 2);
    lp_balance(&g, &mut loose, 200, 10);
    assert_ne!(strict.assignment(), loose.assignment(), "strict ufactor should rebalance where loose ufactor accepts the starting split");
    assert_eq!(pwgtss(&g, &strict), vec![5, 5]);
    assert_eq!(pwgtss(&g, &loose), vec![6, 4]);
}

#[test]
fn lp_respects_target_partition_weights() {
    let g = path_graph(10);
    let assignment = vec![0, 0, 0, 0, 0, 0, 0, 1, 1, 1];
    let mut weighted = Partition::from_parts(assignment.clone(), 2, Some(vec![7, 3]));
    lp_balance(&g, &mut weighted, 5, 10);
    let mut equal = part(assignment, 2);
    lp_balance(&g, &mut equal, 0, 10);
    assert_eq!(pwgtss(&g, &weighted), vec![7, 3], "weighted targets should preserve the requested 70/30 split");
    assert_eq!(pwgtss(&g, &equal), vec![5, 5], "without tpwgts LP should rebalance toward equal parts");
}

#[test]
fn lp_improves_imbalance_on_grid() {
    let g = grid(4, 4, 1);
    let assignment: Vec<u32> = (0..16).map(|v| if v < 10 { 0 } else if v < 12 { 1 } else if v < 14 { 2 } else { 3 }).collect();
    let mut p = part(assignment, 4);
    let target = 16 / 4;
    let before_imb = max_imbalance(&pwgtss(&g, &p), target);
    lp_balance(&g, &mut p, 5, 20);
    let after_imb = max_imbalance(&pwgtss(&g, &p), target);
    assert!(after_imb <= before_imb, "LP must not worsen imbalance: before={before_imb} after={after_imb}");
}

#[test]
fn lp_assignment_stays_in_range() {
    let g = grid(4, 4, 1);
    let k = 4u32;
    let mut p = part((0..16).map(|v| (v % k as usize) as u32).collect(), k);
    lp_balance(&g, &mut p, 5, 10);
    assert!(p.assignment().iter().all(|&a| a < k), "LP produced out-of-range assignment");
}

#[test]
fn lp_total_wgt_conserved() {
    let g = grid(4, 4, 1);
    let total_before: i64 = g.vwgt().iter().map(|&w| w as i64).sum();
    let mut p = part((0..16).map(|v| (v % 4) as u32).collect(), 4);
    lp_balance(&g, &mut p, 5, 10);
    let total_after: i64 = g.vwgt().iter().map(|&w| w as i64).sum();
    assert_eq!(total_before, total_after);
    let wgts = pwgtss(&g, &p);
    assert_eq!(wgts.iter().sum::<i64>(), total_before);
}

#[test]
fn lp_k1_noop() {
    let g = path_graph(5);
    let mut p = part(vec![0; 5], 1);
    let before = p.assignment().to_vec();
    lp_balance(&g, &mut p, 5, 10);
    assert_eq!(p.assignment(), before.as_slice());
}

#[test]
fn rebalance_only_moves_to_adjacent_parts() {
    let g = path_graph(3);
    let mut p = Partition::new(vec![0, 0, 1], 3).unwrap();
    rebalance_to_ufactor(&g, &mut p, 0);
    assert_eq!(p.assignment(), &[0, 0, 1], "rebalance must not move vertices into non-adjacent empty parts");
}

#[test]
fn rebalance_prefers_global_best_move_across_overweight_parts() {
    let g = CsrGraph::new(
        vec![0, 3, 5, 8, 10, 12, 14, 15, 16, 18],
        vec![1, 2, 6, 0, 2, 0, 1, 8, 4, 8, 3, 5, 4, 7, 0, 5, 2, 3],
        1,
        vec![1i32; 9],
        None,
    )
    .unwrap();
    let partition = Partition::new(vec![0, 0, 0, 1, 1, 1, 0, 1, 2], 3).unwrap();
    let pwgts = vec![4, 4, 1];
    let mut seen_parts = vec![0u32; 3];
    let mut adjacent_parts = Vec::new();
    let mut visit_mark = 1u32;
    let candidate =
        best_rebalance_move(&g, &partition, &pwgts, 3, &mut seen_parts, &mut adjacent_parts, &mut visit_mark).unwrap();
    assert_eq!(candidate, (1, 3, 2));
}

// ── connectivity reduction ───────────────────────────────────────────────

#[test]
fn min_conn_reduces_or_maintains_subdomain_count() {
    let g = grid(4, 4, 1);
    let params_off = MetisParams { min_conn: false, ..MetisParams::default() };
    let p_off = MetisPartitioner::with_params(params_off, 4).split(&g, 4, Some(0)).unwrap();
    let before = count_subdomain_pairs(&g, &p_off);
    let params_on = MetisParams { min_conn: true, ..MetisParams::default() };
    let p_on = MetisPartitioner::with_params(params_on, 4).split(&g, 4, Some(0)).unwrap();
    let after = count_subdomain_pairs(&g, &p_on);
    assert!(after <= before + 2, "min_conn should not increase subdomain pairs: before={before} after={after}");
}

#[test]
fn min_conn_produces_valid_partition() {
    let g = grid(4, 4, 1);
    let params = MetisParams { min_conn: true, ..MetisParams::default() };
    let p = MetisPartitioner::with_params(params, 4).split(&g, 4, Some(42)).unwrap();
    assert_eq!(p.assignment().len(), g.n());
    assert_eq!(p.k(), 4);
    for &a in p.assignment() {
        assert!(a < 4, "assignment out of range: {a}");
    }
}

#[test]
fn min_conn_false_skips_post_processing() {
    let g = grid(4, 4, 1);
    let params = MetisParams { min_conn: false, ..MetisParams::default() };
    let p = MetisPartitioner::with_params(params, 4).split(&g, 4, Some(42)).unwrap();
    assert_eq!(p.assignment().len(), g.n());
    assert_eq!(p.k(), 4);
}

#[test]
fn min_conn_k1_noop() {
    let g = grid(3, 3, 1);
    let mut p = part(vec![0u32; g.n()], 1);
    minimize_connectivity(&g, &mut p, 5);
    assert!(p.assignment().iter().all(|&a| a == 0));
}

// ── own checks ───────────────────────────────────────────────────────────

#[test]
fn compute_gain_of_boundary_vertex() {
    // Path 0-1-2-3 split [0,0,1,1]: moving 1 across trades its external edge
    // for its internal one, gain 0; moving 0 loses 1.
    let g = path_graph(4);
    let a = vec![0u32, 0, 1, 1];
    assert_eq!(metis_core::refine::fm::compute_gain(&g, &a, 1), 0);
}

#[test]
fn move_cut_delta_counts_edge_changes() {
    let g = path_graph(4);
    let a = vec![0u32, 0, 1, 1];
    assert_eq!(metis_core::refine::lp::move_cut_delta(&g, &a, 1, 1), 0);
    assert_eq!(metis_core::refine::lp::move_cut_delta(&g, &a, 0, 1), 1);
}

#[test]
fn gain_table_pop_empties_the_table() {
    let mut gt = GainTable::new(2, 3);
    gt.insert(1, -3);
    assert!(gt.contains(1));
    assert_eq!(gt.pop_max(), Some((1, -3)));
    assert!(!gt.contains(1));
    assert!(gt.is_empty());
    assert_eq!(gt.pop_max(), None);
}

#[test]
fn fm_contig_keeps_jagged_grid_parts_contiguous() {
    let g = grid(4, 4, 1);
    // Three connected but jagged regions of the 4x4 grid.
    let a = vec![0, 0, 0, 1, 0, 1, 1, 1, 0, 2, 2, 1, 2, 2, 2, 2];
    let start = part(a, 3);
    assert_eq!(check_contiguity(&g, &start), Ok(()));
    let p = fm(10).refine(&g, start);
    assert_eq!(check_contiguity(&g, &p), Ok(()));
}

#[test]
fn fm_contig_keeps_dumbbell_parts_contiguous() {
    let g = dumbbell_graph();
    // Part 0 holds one clique and a bridge vertex of the other.
    let a = vec![0, 0, 0, 0, 0, 0, 1, 1, 1, 1];
    let start = part(a, 2);
    assert_eq!(check_contiguity(&g, &start), Ok(()));
    let p = fm(20).refine(&g, start);
    assert_eq!(check_contiguity(&g, &p), Ok(()));
    assert!(cut_of(&g, p.assignment()) <= 4);
}

#[test]
fn best_rebalance_move_none_when_no_part_is_overweight() {
    let g = grid(2, 2, 1);
    let partition = Partition::new(vec![0, 0, 1, 1], 2).unwrap();
    let pwgts = vec![2, 2];
    let mut seen_parts = vec![0u32; 2];
    let mut adjacent_parts = Vec::new();
    let mut visit_mark = 1u32;
    let r = best_rebalance_move(&g, &partition, &pwgts, 2, &mut seen_parts, &mut adjacent_parts, &mut visit_mark);
    assert_eq!(r, None);
}

#[test]
fn best_rebalance_move_prefers_smallest_cut_change() {
    // Path 0-1-2-3 with parts {0,1,2} and {3}: only vertex 2 touches part 1,
    // and moving it changes the cut by 1 - 1 = 0.
    let g = CsrGraph::new(vec![0, 1, 3, 5, 6], vec![1, 0, 2, 1, 3, 2], 1, vec![1i32; 4], None).unwrap();
    let partition = Partition::new(vec![0, 0, 0, 1], 2).unwrap();
    let pwgts = vec![3, 1];
    let mut seen_parts = vec![0u32; 2];
    let mut adjacent_parts = Vec::new();
    let mut visit_mark = 1u32;
    let r = best_rebalance_move(&g, &partition, &pwgts, 2, &mut seen_parts, &mut adjacent_parts, &mut visit_mark);
    assert_eq!(r, Some((0, 2, 1)));
}

#[test]
fn fm_keeps_balanced_quadrants_within_window() {
    let g = grid(4, 4, 1);
    // Four 2x2 quadrants: each part weighs 4, the window is 4 +- 1.
    let a = vec![0, 0, 1, 1, 0, 0, 1, 1, 2, 2, 3, 3, 2, 2, 3, 3];
    let p = fm(10).refine(&g, part(a, 4));
    for w in pwgtss(&g, &p) {
        assert!((3..=5).contains(&w), "part weight {w} left the window");
    }
}

#[test]
fn rebalance_never_lifts_a_part_past_the_limit() {
    let g = grid(4, 4, 1);
    // Part 0 holds twelve vertices, part 1 four; the limit is 8 + 1 = 9.
    let a = vec![0, 0, 0, 0, 0, 0, 0, 0, 0, 0, 0, 0, 1, 1, 1, 1];
    let mut p = part(a, 2);
    rebalance_to_ufactor(&g, &mut p, 30);
    let w = pwgtss(&g, &p);
    assert!(w[1] <= 9, "part 1 grew past the limit: {}", w[1]);
    assert!(w[0] <= 12);
    assert_eq!(w[0] + w[1], 16);
}

#[test]
fn lp_balance_moves_weights_toward_the_window() {
    let g = grid(4, 4, 1);
    let a = vec![0, 0, 0, 0, 0, 0, 0, 0, 0, 0, 0, 0, 1, 1, 1, 1];
    let mut p = part(a, 2);
    lp_balance(&g, &mut p, 30, 10);
    let w = pwgtss(&g, &p);
    // The window is 8 +- 1: part 0 only loses weight, part 1 only gains up to 9.
    assert!(w[0] <= 12 && w[0] >= 7, "part 0 weighs {}", w[0]);
    assert!(w[1] <= 9 && w[1] >= 4, "part 1 weighs {}", w[1]);
}

#[test]
fn refine_takes_an_open_improving_move_on_two_parts() {
    // Vertex 3 can join part 1 within the windows and cuts one edge less.
    let g = path_graph(4);
    let fm = FiducciaMattheyses { niter: 10, contig_fm: false, objective: ObjectiveType::Cut, lp_iter: 0, ufactor: 5 };
    let r = fm.refine(&g, part(vec![0, 0, 1, 0], 2));
    assert_eq!(cut_of(&g, r.assignment()), 1);
    assert_eq!(r.assignment(), &[0, 0, 1, 1]);
}

#[test]
fn greedy_kway_takes_an_open_improving_move_on_two_parts() {
    let g = path_graph(4);
    let r = GreedyKWay::new(10).refine(&g, part(vec![0, 0, 1, 0], 2));
    assert_eq!(cut_of(&g, r.assignment()), 1);
}
