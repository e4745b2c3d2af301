use metis_core::coarsen::hem::path_graph;
use metis_core::coarsen::mindegree::MinDegreeMatch;
use metis_core::coarsen::shem::{SortedHeavyEdgeMatch, SortedHeavyEdgeMatchWithParams};
use metis_core::coarsen::Coarsener;
use metis_core::graph::{CoarseMap, CsrGraph, GraphView};
use metis_core::init::grow::GrowBisect;
use metis_core::multilevel::hierarchy::CoarseningHierarchy;
use metis_core::multilevel::pipeline::Pipeline;
use metis_core::refine::fm::FiducciaMattheyses;
use metis_core::{ObjectiveType, PartitionError};

/// Shrinks like sorted heavy-edge matching but never asks to stop.
struct NeverStops;

impl Coarsener for NeverStops {
    fn coarsen(&self, g: &CsrGraph) -> (CsrGraph, CoarseMap) {
        SortedHeavyEdgeMatch.coarsen(g)
    }
    fn stops(&self, _: GraphView) -> bool {
        false
    }
    fn should_stop(&self, _: &CsrGraph) -> bool {
        false
    }
}

fn fm() -> FiducciaMattheyses {
    FiducciaMattheyses { niter: 10, contig_fm: true, objective: ObjectiveType::Cut, lp_iter: 0, ufactor: 5 }
}

#[test]
fn hierarchy_builds_from_path() {
    let g = path_graph(100);
    let coarsener = SortedHeavyEdgeMatchWithParams { coarsen_to: 20, k: 2 };
    let h = CoarseningHierarchy::build(&g, &coarsener).unwrap();
    assert!(h.levels.len() >= 2, "should have at least 2 levels");
    assert!(h.coarsest().n() <= 40, "coarsest must satisfy should_stop threshold (<=40)");
    assert!(h.coarsest().is_valid(), "coarsest graph must be valid");
    assert_eq!(h.cmaps.len(), h.levels.len() - 1, "one cmap per coarsening step");
}

#[test]
fn hierarchy_stalls_returns_error() {
    let g = path_graph(10);
    let result = CoarseningHierarchy::build(&g, &NeverStops);
    assert!(
        matches!(result, Err(PartitionError::CoarseningStalled)),
        "NeverStops coarsener must return CoarseningStalled error, got: {:?}",
        result.map(|_| ())
    );
}

#[test]
fn project_up_correct() {
    let g = path_graph(100);
    let coarsener = SortedHeavyEdgeMatchWithParams { coarsen_to: 20, k: 2 };
    let h = CoarseningHierarchy::build(&g, &coarsener).unwrap();
    let depth = h.depth();
    let coarse_assign: Vec<u32> = vec![0; h.coarsest().n()];
    let fine = h.project_up(depth - 1, &coarse_assign);
    assert_eq!(fine.len(), h.levels[depth - 1].n(), "projected partition must match finer level vertex count");
    assert!(fine.iter().all(|&a| a == 0), "all-zero coarse assignment must project to all-zero fine assignment");
}

#[test]
fn pipeline_path10_k2_produces_valid_partition() {
    let g = path_graph(10);
    let coarsener = SortedHeavyEdgeMatchWithParams { coarsen_to: 20, k: 2 };
    let hierarchy = CoarseningHierarchy::build(&g, &coarsener).unwrap();
    let p = Pipeline::new(hierarchy).initial_partition(&GrowBisect, 2, 42).refine_and_project(&fm()).into_partition();
    assert_eq!(p.assignment().len(), 10);
    assert_eq!(p.k(), 2);
    assert!(p.assignment().iter().all(|&x| x < 2));
    assert!(p.assignment().contains(&0));
    assert!(p.assignment().contains(&1));
}

#[test]
fn pipeline_path100_k4_produces_valid_partition() {
    let g = path_graph(100);
    let coarsener = SortedHeavyEdgeMatchWithParams { coarsen_to: 20, k: 4 };
    let hierarchy = CoarseningHierarchy::build(&g, &coarsener).unwrap();
    let p = Pipeline::new(hierarchy).initial_partition(&GrowBisect, 4, 99).refine_and_project(&fm()).into_partition();
    assert_eq!(p.assignment().len(), 100);
    assert_eq!(p.k(), 4);
    assert!(p.assignment().iter().all(|&x| x < 4));
}

#[test]
fn pipeline_no_coarsening_still_works() {
    let g = path_graph(5);
    let coarsener = SortedHeavyEdgeMatchWithParams { coarsen_to: 20, k: 2 };
    let hierarchy = CoarseningHierarchy::build(&g, &coarsener).unwrap();
    assert_eq!(hierarchy.depth(), 0, "should not have coarsened");
    let p = Pipeline::new(hierarchy).initial_partition(&GrowBisect, 2, 0).refine_and_project(&fm()).into_partition();
    assert_eq!(p.assignment().len(), 5);
    assert_eq!(p.k(), 2);
}

// ── own checks ───────────────────────────────────────────────────────────

#[test]
fn project_up_follows_the_map() {
    let g = path_graph(100);
    let coarsener = SortedHeavyEdgeMatchWithParams { coarsen_to: 20, k: 2 };
    let h = CoarseningHierarchy::build(&g, &coarsener).unwrap();
    let coarse_n = h.levels[1].n();
    let coarse_assign: Vec<u32> = (0..coarse_n as u32).collect();
    let fine = h.project_up(0, &coarse_assign);
    assert_eq!(fine.as_slice(), h.cmaps[0].as_slice());
}

#[test]
fn coarsening_keeps_total_vertex_weight_at_every_level() {
    let g = path_graph(100);
    let coarsener = SortedHeavyEdgeMatchWithParams { coarsen_to: 20, k: 1 };
    let h = CoarseningHierarchy::build(&g, &coarsener).unwrap();
    for level in h.levels() {
        let total: i64 = level.vwgt().iter().map(|&w| w as i64).sum();
        assert_eq!(total, 100);
    }
}

/// A ring of `n` vertices whose edge `i -- i+1` weighs `i % 7 + 1`.
fn weighted_ring(n: u32) -> CsrGraph {
    let mut xadj = vec![0u32];
    let mut adjncy = Vec::new();
    let mut adjwgt = Vec::new();
    for v in 0..n {
        let prev = (v + n - 1) % n;
        let next = (v + 1) % n;
        let (a, b) = if prev < next { (prev, next) } else { (next, prev) };
        for u in [a, b] {
            adjncy.push(u);
            let edge = if (u + 1) % n == v { u } else { v };
            adjwgt.push((edge % 7 + 1) as i32);
        }
        xadj.push(adjncy.len() as u32);
    }
    CsrGraph::from_csr(&xadj, &adjncy, &[], &adjwgt).unwrap()
}

#[test]
fn weighted_levels_stay_valid_and_never_gain_edge_weight() {
    let g = weighted_ring(64);
    let coarsener = SortedHeavyEdgeMatchWithParams { coarsen_to: 4, k: 2 };
    let h = CoarseningHierarchy::build(&g, &coarsener).unwrap();
    assert!(h.levels.len() >= 2);
    let mut previous: i64 = i64::MAX;
    for level in h.levels() {
        assert!(level.is_valid());
        let w = level.adjwgt().expect("edge weights are kept");
        let total: i64 = w.iter().map(|&x| x as i64).sum();
        assert!(total <= previous);
        previous = total;
    }
}

fn star(n: usize) -> CsrGraph {
    let mut xadj = vec![0u32];
    let mut adjncy = Vec::new();
    for i in 1..n {
        adjncy.push(i as u32);
    }
    xadj.push(adjncy.len() as u32);
    for _ in 1..n {
        adjncy.push(0u32);
        xadj.push(adjncy.len() as u32);
    }
    CsrGraph::new(xadj, adjncy, 1, vec![1i32; n], None).unwrap()
}

#[test]
fn mindegree_star_hierarchy_stalls() {
    // Each min-degree step merges the hub with one leaf only, so 101
    // vertices are still 51 after the last allowed step.
    let g = star(101);
    let result = CoarseningHierarchy::build(&g, &MinDegreeMatch);
    assert!(matches!(result, Err(PartitionError::CoarseningStalled)));
}

#[test]
fn mindegree_small_star_hierarchy_builds() {
    let g = star(60);
    let h = CoarseningHierarchy::build(&g, &MinDegreeMatch).unwrap();
    assert_eq!(h.depth(), 20);
    assert_eq!(h.coarsest().n(), 40);
}

#[test]
fn fixed_coarsener_builds_same_hierarchy() {
    let g = path_graph(120);
    let a = CoarseningHierarchy::build(&g, &MinDegreeMatch).unwrap();
    let b = CoarseningHierarchy::build(&g, &MinDegreeMatch).unwrap();
    assert_eq!(a.levels.len(), b.levels.len());
    for (x, y) in a.levels.iter().zip(b.levels.iter()) {
        assert_eq!(x.xadj(), y.xadj());
        assert_eq!(x.adjncy(), y.adjncy());
        assert_eq!(x.vwgt(), y.vwgt());
    }
    for (x, y) in a.cmaps.iter().zip(b.cmaps.iter()) {
        assert_eq!(x.as_slice(), y.as_slice());
    }
}
