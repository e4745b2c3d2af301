use metis_core::api::best_trial;
use metis_core::api::{CoarseningMethod, MetisParams, MetisPartitioner, ObjectiveType, Partitioner, RustMetisPartitioner};
use metis_core::coarsen::shem::SortedHeavyEdgeMatchWithParams;
use metis_core::coarsen::Coarsener;
use metis_core::graph::metrics::compute_cut;
use metis_core::graph::{CoarseMap, CsrGraph, GraphView, Partition};
use metis_core::init::grow::GrowBisect;
use metis_core::init::InitialPartitioner;
use metis_core::refine::fm::FiducciaMattheyses;
use metis_core::refine::Refiner;
use metis_core::{part_kway, part_recursive, PartitionError};

fn path_parts(n: usize) -> (Vec<u32>, Vec<u32>) {
    let mut xadj = vec![0u32];
    let mut adjncy = Vec::new();
    for i in 0..n {
        if i > 0 {
            adjncy.push((i - 1) as u32);
        }
        if i < n - 1 {
            adjncy.push((i + 1) as u32);
        }
        xadj.push(adjncy.len() as u32);
    }
    (xadj, adjncy)
}

fn make_path_graph(n: usize) -> CsrGraph {
    let (xadj, adjncy) = path_parts(n);
    CsrGraph::new(xadj, adjncy, 1, vec![1i32; n], None).unwrap()
}

/// Keeps every graph as it is and asks to stop at once.
struct AlwaysTrivial;

impl Coarsener for AlwaysTrivial {
    fn coarsen(&self, g: &CsrGraph) -> (CsrGraph, CoarseMap) {
        let n = g.n();
        (g.duplicate(), CoarseMap::new((0..n as u32).collect(), n, n).unwrap())
    }
    fn stops(&self, _: GraphView) -> bool {
        true
    }
    fn should_stop(&self, _: &CsrGraph) -> bool {
        true
    }
}

/// Everything in part 0.
struct AllZeroPartitioner;

impl InitialPartitioner for AllZeroPartitioner {
    fn partition(&self, g: &CsrGraph, _k: u32, _seed: u64) -> Partition {
        Partition::from_parts(vec![0; g.n()], 1, None)
    }
}

/// Even seeds: all but the last vertex in part 0; odd seeds: round robin.
struct SeedParityPartitioner;

impl InitialPartitioner for SeedParityPartitioner {
    fn partition(&self, g: &CsrGraph, k: u32, seed: u64) -> Partition {
        let assignment = if seed % 2 == 0 {
            let mut assignment = vec![0; g.n()];
            if let Some(last) = assignment.last_mut() {
                *last = 1;
            }
            assignment
        } else {
            (0..g.n()).map(|v| (v % k as usize) as u32).collect()
        };
        Partition::from_parts(assignment, k, None)
    }
}

/// Hands the partition back unchanged.
struct IdentityRefiner;

impl Refiner for IdentityRefiner {
    fn refine(&self, _g: &CsrGraph, p: Partition) -> Partition {
        p
    }
}

#[test]
fn mock_traits_compile() {
    let _c: &dyn Coarsener = &AlwaysTrivial;
    let _i: &dyn InitialPartitioner = &AllZeroPartitioner;
    let _r: &dyn Refiner = &IdentityRefiner;
}

#[test]
fn metis_params_default() {
    let p = MetisParams::default();
    assert_eq!(p.ufactor, 5);
    assert_eq!(p.niter, 10);
    assert_eq!(p.seed, None);
    assert_eq!(p.coarsen_to, 20);
    assert_eq!(p.ncuts, 1);
    assert!(p.tpwgts.is_none());
}

#[test]
fn full_pipeline_path10_k2() {
    let g = make_path_graph(10);
    let partitioner = RustMetisPartitioner {
        coarsener: SortedHeavyEdgeMatchWithParams { coarsen_to: 20, k: 2 },
        init: GrowBisect,
        refiner: FiducciaMattheyses { niter: 10, contig_fm: true, objective: ObjectiveType::Cut, lp_iter: 0, ufactor: 5 },
        params: MetisParams::default(),
    };
    let p = partitioner.split(&g, 2, Some(42)).unwrap();
    assert_eq!(p.assignment().len(), 10);
    assert_eq!(p.k(), 2);
    assert!(p.assignment().contains(&0));
    assert!(p.assignment().contains(&1));
}

#[test]
fn split_weighted_empty_fracs_errors() {
    let g = make_path_graph(10);
    let p = MetisPartitioner::with_params(MetisParams::default(), 1).split_weighted(&g, &[], Some(0));
    assert!(matches!(p, Err(PartitionError::ZeroParts)));
}

#[test]
fn split_zero_k_errors() {
    let g = make_path_graph(10);
    let partitioner = MetisPartitioner::with_params(MetisParams::default(), 2);
    let result = partitioner.split(&g, 0, None);
    assert!(matches!(result, Err(PartitionError::ZeroParts)));
}

#[test]
fn split_too_many_parts_errors() {
    let g = make_path_graph(3);
    let partitioner = MetisPartitioner::with_params(MetisParams::default(), 10);
    let result = partitioner.split(&g, 10, None);
    assert!(matches!(result, Err(PartitionError::TooManyParts { k: 10, n: 3 })));
}

#[test]
fn metis_partitioner_with_params_works() {
    let g = make_path_graph(20);
    let partitioner = MetisPartitioner::with_params(MetisParams::default(), 2);
    let p = partitioner.split(&g, 2, Some(7)).unwrap();
    assert_eq!(p.assignment().len(), 20);
    assert_eq!(p.k(), 2);
}

#[test]
fn metis_partitioner_new_uses_default_params() {
    let partitioner = MetisPartitioner::new(2);
    assert_eq!(partitioner.params(), &MetisParams::default());
}

#[test]
fn metis_partitioner_threads_ufactor_into_refiner() {
    let params = MetisParams { ufactor: 30, ..MetisParams::default() };
    let partitioner = MetisPartitioner::with_params(params, 4);
    assert_eq!(partitioner.refiner.ufactor, 30);
}

#[test]
fn split_weighted_equal_fracs_produces_k2() {
    let g = make_path_graph(10);
    let partitioner = MetisPartitioner::with_params(MetisParams::default(), 2);
    let p = partitioner.split_weighted(&g, &[50, 50], Some(0)).unwrap();
    assert_eq!(p.assignment().len(), 10);
    assert_eq!(p.k(), 2);
}

#[test]
fn split_weighted_all_zero_fracs_errors() {
    let g = make_path_graph(10);
    let p = MetisPartitioner::with_params(MetisParams::default(), 2).split_weighted(&g, &[0u32, 0u32], Some(0));
    assert!(matches!(p, Err(PartitionError::ZeroParts)));
}

#[test]
fn split_weighted_asymmetric_fracs() {
    let g = make_path_graph(17);
    let partitioner = MetisPartitioner::with_params(MetisParams::default(), 2);
    let p = partitioner.split_weighted(&g, &[8u32, 9u32], Some(42)).unwrap();
    assert_eq!(p.assignment().len(), 17);
    assert_eq!(p.k(), 2);
    assert!(p.assignment().contains(&0), "part 0 is empty");
    assert!(p.assignment().contains(&1), "part 1 is empty");
    let sz0 = p.assignment().iter().filter(|&&x| x == 0).count();
    let sz1 = p.assignment().iter().filter(|&&x| x == 1).count();
    assert!((3..=14).contains(&sz0), "part 0 size unreasonable: {sz0}");
    assert!((3..=14).contains(&sz1), "part 1 size unreasonable: {sz1}");
}

#[test]
fn split_weighted_proportional_balance() {
    let g = make_path_graph(17);
    let total = 17i64;
    let target0 = (total * 8 + 8) / 17;
    let target1 = total - target0;
    let eps = 2i64;
    let p = MetisPartitioner::with_params(MetisParams::default(), 2).split_weighted(&g, &[8u32, 9u32], Some(42)).unwrap();
    assert_eq!(p.assignment().len(), 17);
    assert_eq!(p.k(), 2);
    let wgt0: i64 = p.assignment().iter().filter(|&&x| x == 0).count() as i64;
    let wgt1: i64 = total - wgt0;
    assert!((wgt0 - target0).abs() <= eps, "part 0: expected ~{target0}, got {wgt0}");
    assert!((wgt1 - target1).abs() <= eps, "part 1: expected ~{target1}, got {wgt1}");
}

#[test]
fn ncuts_zero_treated_as_one() {
    let g = make_path_graph(10);
    let params = MetisParams { ncuts: 0, ..MetisParams::default() };
    let p = MetisPartitioner::with_params(params, 2).split(&g, 2, Some(42)).unwrap();
    assert_eq!(p.assignment().len(), 10);
    assert_eq!(p.k(), 2);
}

#[test]
fn ncuts_four_produces_valid_partition() {
    let g = make_path_graph(20);
    let params = MetisParams { ncuts: 4, ..MetisParams::default() };
    let p = MetisPartitioner::with_params(params, 2).split(&g, 2, Some(99)).unwrap();
    assert_eq!(p.assignment().len(), 20);
    assert_eq!(p.k(), 2);
    assert!(p.assignment().contains(&0));
    assert!(p.assignment().contains(&1));
}

#[test]
fn ncuts_four_split_weighted_valid() {
    let g = make_path_graph(20);
    let params = MetisParams { ncuts: 4, ..MetisParams::default() };
    let p = MetisPartitioner::with_params(params, 2).split_weighted(&g, &[10u32, 10u32], Some(7)).unwrap();
    assert_eq!(p.assignment().len(), 20);
    assert_eq!(p.k(), 2);
    assert!(p.assignment().contains(&0));
    assert!(p.assignment().contains(&1));
}

#[test]
fn ncuts_deterministic_with_fixed_seed() {
    let g = make_path_graph(20);
    let run = |ncuts: u32| {
        let params = MetisParams { ncuts, seed: Some(42), ..MetisParams::default() };
        MetisPartitioner::with_params(params, 2).split(&g, 2, None).unwrap().into_assignment()
    };
    assert_eq!(run(1), run(1), "ncuts=1 not deterministic");
    assert_eq!(run(4), run(4), "ncuts=4 not deterministic");
}

#[test]
fn ncuts_four_cut_le_single_trial() {
    let g = make_path_graph(40);
    let cut = |ncuts: u32| {
        let params = MetisParams { ncuts, seed: Some(0), ..MetisParams::default() };
        let p = MetisPartitioner::with_params(params, 2).split(&g, 2, None).unwrap();
        compute_cut(&g, p.assignment())
    };
    let cut1 = cut(1);
    let cut4 = cut(4);
    assert!(cut4 <= cut1, "ncuts=4 cut ({cut4}) should be ≤ ncuts=1 cut ({cut1})");
}

#[test]
fn ncuts_prefers_balanced_trial_before_cut_for_weighted_split() {
    let g = make_path_graph(8);
    let partitioner = RustMetisPartitioner {
        coarsener: AlwaysTrivial,
        init: SeedParityPartitioner,
        refiner: IdentityRefiner,
        params: MetisParams { ncuts: 2, seed: Some(0), ufactor: 0, lp_refine: false, ..MetisParams::default() },
    };
    let p = partitioner.split_weighted(&g, &[1, 1], None).expect("weighted split should succeed");
    let part0 = p.assignment().iter().filter(|&&part| part == 0).count();
    let part1 = p.assignment().iter().filter(|&&part| part == 1).count();
    assert_eq!((part0, part1), (4, 4), "best-of-ncuts must prefer balance over a lower-cut imbalanced trial");
}

#[test]
fn recursive_bisect_grid_k4_valid() {
    let g = make_path_graph(16);
    let params = MetisParams { use_recursive: true, ..MetisParams::default() };
    let p = MetisPartitioner::with_params(params, 4).split(&g, 4, Some(0)).unwrap();
    assert_eq!(p.assignment().len(), 16);
    for part in 0..4u32 {
        assert!(p.assignment().contains(&part));
    }
}

#[test]
fn recursive_bisect_k2_works() {
    let g = make_path_graph(10);
    let params = MetisParams { use_recursive: true, ..MetisParams::default() };
    let p = MetisPartitioner::with_params(params, 2).split(&g, 2, Some(42)).unwrap();
    assert_eq!(p.assignment().len(), 10);
    assert!(p.assignment().contains(&0));
    assert!(p.assignment().contains(&1));
}

#[test]
fn coarsen_method_hem_produces_valid_partition() {
    let g = make_path_graph(10);
    let params = MetisParams { coarsen_method: CoarseningMethod::Hem, ..MetisParams::default() };
    let p = MetisPartitioner::with_params(params, 2).split(&g, 2, Some(0)).unwrap();
    assert_eq!(p.assignment().len(), 10, "HEM must produce assignment for all vertices");
    assert!(p.assignment().iter().all(|&a| a < 2), "all HEM part IDs must be < k");
}

#[test]
fn coarsen_method_mindegree_produces_valid_partition() {
    let g = make_path_graph(10);
    let params = MetisParams { coarsen_method: CoarseningMethod::MinDegree, ..MetisParams::default() };
    let p = MetisPartitioner::with_params(params, 2).split(&g, 2, Some(0)).unwrap();
    assert_eq!(p.assignment().len(), 10);
    assert!(p.assignment().iter().all(|&a| a < 2));
}

#[test]
fn coarsen_method_twohop_produces_valid_partition() {
    let g = make_path_graph(10);
    let params = MetisParams { coarsen_method: CoarseningMethod::TwoHop, ..MetisParams::default() };
    let p = MetisPartitioner::with_params(params, 2).split(&g, 2, Some(0)).unwrap();
    assert_eq!(p.assignment().len(), 10);
    assert!(p.assignment().iter().all(|&a| a < 2));
}

#[test]
fn all_coarsen_methods_agree_on_coverage() {
    let g = make_path_graph(12);
    for method in [CoarseningMethod::Shem, CoarseningMethod::Hem, CoarseningMethod::MinDegree, CoarseningMethod::TwoHop] {
        let params = MetisParams { coarsen_method: method, ..MetisParams::default() };
        let p = MetisPartitioner::with_params(params, 3).split(&g, 3, Some(0)).unwrap();
        assert_eq!(p.assignment().len(), 12, "{method:?}: wrong assignment length");
        assert!(p.assignment().iter().all(|&a| a < 3), "{method:?}: invalid part ID");
    }
}

// ── entry points ─────────────────────────────────────────────────────────

#[test]
fn part_recursive_bisects_path() {
    let (xadj, adjncy) = path_parts(10);
    let result = part_recursive(&xadj, &adjncy, &[], &[], 2, MetisParams::default());
    let assignment = result.expect("part_recursive must succeed on valid path graph");
    assert_eq!(assignment.len(), 10, "assignment length must equal vertex count");
    assert!(assignment.contains(&0) && assignment.contains(&1), "both parts must be present");
}

#[test]
fn part_kway_four_parts_path() {
    let (xadj, adjncy) = path_parts(16);
    let assignment = part_kway(&xadj, &adjncy, &[], &[], 4, MetisParams::default()).expect("part_kway must succeed");
    assert_eq!(assignment.len(), 16);
    for part in 0..4u32 {
        assert!(assignment.contains(&part), "part {part} must be present");
    }
}

#[test]
fn part_recursive_with_vertex_weights() {
    let (xadj, adjncy) = path_parts(6);
    let vwgt = vec![2i32, 1, 3, 1, 2, 1];
    let assignment = part_recursive(&xadj, &adjncy, &vwgt, &[], 2, MetisParams::default())
        .expect("part_recursive must handle non-uniform vertex weights");
    assert_eq!(assignment.len(), 6);
    assert!(assignment.iter().all(|&a| a < 2));
}

#[test]
fn part_kway_with_edge_weights() {
    let (xadj, adjncy) = path_parts(8);
    let adjwgt = vec![5i32; adjncy.len()];
    let assignment = part_kway(&xadj, &adjncy, &[], &adjwgt, 2, MetisParams::default()).expect("part_kway must handle edge weights");
    assert_eq!(assignment.len(), 8);
}

#[test]
fn part_recursive_k1_all_same_part() {
    let (xadj, adjncy) = path_parts(8);
    let assignment = part_recursive(&xadj, &adjncy, &[], &[], 1, MetisParams::default()).expect("k=1 must succeed");
    assert!(assignment.iter().all(|&a| a == 0), "k=1 must assign all vertices to part 0");
}

#[test]
fn metis_params_recursive_defaults_match_pmetis() {
    let params = MetisParams::recursive();
    assert!(params.use_recursive);
    assert_eq!(params.ncuts, 4);
}

#[test]
fn part_recursive_promotes_default_ncuts_even_with_seed() {
    let params = MetisParams { seed: Some(7), ..MetisParams::default() };
    let defaults = MetisParams::default();
    assert_eq!(params.ncuts, defaults.ncuts);
    let (xadj, adjncy) = path_parts(10);
    let assignment = part_recursive(&xadj, &adjncy, &[], &[], 2, params).expect("recursive partition should succeed");
    assert_eq!(assignment.len(), 10);
}

#[test]
fn metis_params_kway_defaults_match_kmetis() {
    let params = MetisParams::kway();
    assert!(!params.use_recursive);
    assert_eq!(params.ncuts, 1);
}

// ── own checks ───────────────────────────────────────────────────────────

#[test]
fn split_rejects_an_empty_graph() {
    let g = CsrGraph::new(vec![0], vec![], 1, vec![], None).unwrap();
    let r = MetisPartitioner::new(2).split(&g, 2, Some(1));
    assert!(matches!(r, Err(PartitionError::EmptyGraph)));
}

#[test]
fn part_kway_reports_graph_defects() {
    let r = part_kway(&[0, 1, 2], &[1, 2], &[], &[], 2, MetisParams::default());
    assert!(matches!(r, Err(PartitionError::InvalidGraph(_))));
}

#[test]
fn split_weighted_more_parts_than_vertices() {
    let g = make_path_graph(2);
    let r = MetisPartitioner::new(3).split_weighted(&g, &[1, 1, 1], Some(0));
    assert!(matches!(r, Err(PartitionError::TooManyParts { k: 3, n: 2 })));
}

#[test]
fn default_coarsening_method_is_shem() {
    assert_eq!(CoarseningMethod::default(), CoarseningMethod::Shem);
}

#[test]
fn weight_balance_check_accepts_even_split_only() {
    let g = make_path_graph(10);
    let even = Partition::from_parts(vec![0, 0, 0, 0, 0, 1, 1, 1, 1, 1], 2, None);
    let uneven = Partition::from_parts(vec![0, 0, 0, 0, 0, 0, 1, 1, 1, 1], 2, None);
    assert!(metis_core::api::weight_balance_check(&even, &g));
    // target 5, allowance (10 * 5 + 999) / 1000 = 1: a 6/4 split is just inside
    assert!(metis_core::api::weight_balance_check(&uneven, &g));
    let worse = Partition::from_parts(vec![0, 0, 0, 0, 0, 0, 0, 1, 1, 1], 2, None);
    assert!(!metis_core::api::weight_balance_check(&worse, &g));
}

#[test]
fn recursive_split_rejects_target_weights() {
    let g = metis_core::coarsen::hem::path_graph(12);
    let params = MetisParams { use_recursive: true, tpwgts: Some(vec![1, 1, 2]), ..MetisParams::default() };
    let r = MetisPartitioner::with_params(params, 3).split(&g, 3, Some(1));
    assert!(matches!(r, Err(PartitionError::InvalidParams(_))));
}

#[test]
fn direct_split_uses_target_weights() {
    let g = metis_core::coarsen::hem::path_graph(12);
    let params = MetisParams { tpwgts: Some(vec![1, 3]), ..MetisParams::default() };
    let p = MetisPartitioner::with_params(params, 2).split(&g, 2, Some(1)).unwrap();
    assert_eq!(p.assignment().len(), 12);
    assert_eq!(p.k(), 2);
    let bad = MetisParams { tpwgts: Some(vec![1, 0]), ..MetisParams::default() };
    let r = MetisPartitioner::with_params(bad, 2).split(&g, 2, Some(1));
    assert!(matches!(r, Err(PartitionError::InvalidTargetWeight)));
    let short = MetisParams { tpwgts: Some(vec![1]), ..MetisParams::default() };
    let r = MetisPartitioner::with_params(short, 2).split(&g, 2, Some(1));
    assert!(matches!(r, Err(PartitionError::TargetWeightLength { len: 1, k: 2 })));
}

#[test]
fn best_trial_prefers_least_excess_then_cut_then_earliest() {
    assert_eq!(best_trial(&[(3, 1), (0, 7), (0, 7)]), 1);
    assert_eq!(best_trial(&[(0, 9), (0, 2), (1, 0)]), 1);
    assert_eq!(best_trial(&[(5, 5)]), 0);
}

fn star_of(n: usize) -> CsrGraph {
    let mut xadj = vec![0u32];
    let mut adjncy = Vec::new();
    for i in 1..n {
        adjncy.push(i as u32);
    }
    xadj.push(adjncy.len() as u32);
    for _ in 1..n {
        adjncy.push(0u32);
        xadj.push(adjncy.len() as u32);
    }
    CsrGraph::new(xadj, adjncy, 1, vec![1i32; n], None).unwrap()
}

#[test]
fn mindegree_split_of_large_star_stalls() {
    let params = MetisParams { coarsen_method: CoarseningMethod::MinDegree, ..MetisParams::default() };
    let part = MetisPartitioner::with_params(params, 2);
    let r = part.split(&star_of(101), 2, Some(7));
    assert!(matches!(r, Err(PartitionError::CoarseningStalled)));
}

#[test]
fn mindegree_split_of_small_star_succeeds() {
    let params = MetisParams { coarsen_method: CoarseningMethod::MinDegree, ..MetisParams::default() };
    let part = MetisPartitioner::with_params(params, 2);
    let p = part.split(&star_of(60), 2, Some(7)).unwrap();
    assert_eq!(p.assignment().len(), 60);
    assert!(p.assignment().iter().all(|&q| q < 2));
}

#[test]
fn target_shares_follow_coarsen_method() {
    let params = MetisParams {
        coarsen_method: CoarseningMethod::MinDegree,
        tpwgts: Some(vec![1, 1]),
        ..MetisParams::default()
    };
    let part = MetisPartitioner::with_params(params, 2);
    let r = part.split(&star_of(101), 2, Some(7));
    assert!(matches!(r, Err(PartitionError::CoarseningStalled)));
}

#[test]
fn params_builders_set_their_fields() {
    let p = MetisParams::kway().with_coarsening_method(CoarseningMethod::TwoHop).with_ncuts(3).with_seed(7);
    assert_eq!(p.coarsen_method, CoarseningMethod::TwoHop);
    assert_eq!(p.ncuts, 3);
    assert_eq!(p.seed, Some(7));
    assert!(p.validate_for_k(2).is_ok());
}

#[test]
fn target_weights_builder_checks_shares() {
    let ok = MetisParams::kway().with_target_weights(2, vec![1, 3]).unwrap();
    assert_eq!(ok.tpwgts, Some(vec![1, 3]));
    assert!(ok.validate_for_k(2).is_ok());
    assert!(ok.validate_for_k(3).is_err());
    assert!(MetisParams::kway().with_target_weights(2, vec![1]).is_err());
    assert!(MetisParams::kway().with_target_weights(2, vec![0, 1]).is_err());
    assert!(MetisParams::recursive().with_target_weights(4, vec![1, 1, 1, 1]).is_err());
}

#[test]
fn from_csr_metis_matches_from_csr() {
    let xadj = vec![0u32, 2, 4, 6, 8];
    let adjncy = vec![1, 3, 0, 2, 1, 3, 0, 2];
    let a = CsrGraph::from_csr_metis(&xadj, &adjncy, &[], &[]).unwrap();
    let b = CsrGraph::from_csr(&xadj, &adjncy, &[], &[]).unwrap();
    assert_eq!(a.xadj(), b.xadj());
    assert_eq!(a.adjncy(), b.adjncy());
    assert!(CsrGraph::from_csr_metis(&[0, 1], &[0], &[], &[]).is_err());
}
