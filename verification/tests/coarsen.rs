use metis_core::coarsen::hem::{path5, path_graph, triangle, HeavyEdgeMatch, HeavyEdgeMatchWithParams};
use metis_core::coarsen::mindegree::MinDegreeMatch;
use metis_core::coarsen::shem::{SortedHeavyEdgeMatch, SortedHeavyEdgeMatchWithParams};
use metis_core::coarsen::twohop::{TwoHopMatch, TwoHopMatchWithParams};
use metis_core::coarsen::Coarsener;
use metis_core::CsrGraph;

fn star_graph(n: usize) -> CsrGraph {
    assert!(n >= 2);
    let mut xadj = vec![0u32];
    let mut adjncy = Vec::new();
    for i in 1..n {
        adjncy.push(i as u32);
    }
    xadj.push(adjncy.len() as u32);
    for _ in 1..n {
        adjncy.push(0u32);
        xadj.push(adjncy.len() as u32);
    }
    CsrGraph::new(xadj, adjncy, 1, vec![1i32; n], None).unwrap()
}

fn weighted_path4() -> CsrGraph {
    CsrGraph::new(vec![0, 1, 3, 5, 6], vec![1, 0, 2, 1, 3, 2], 1, vec![1; 4], Some(vec![10, 10, 1, 1, 10, 10]))
        .unwrap()
}

fn with_unit_edge_weights(g: &CsrGraph) -> CsrGraph {
    CsrGraph::new(
        g.xadj().to_vec(),
        g.adjncy().to_vec(),
        g.ncon(),
        g.vwgt().to_vec(),
        Some(vec![1i32; g.adjncy().len()]),
    )
    .unwrap()
}

// ── heavy-edge matching ──────────────────────────────────────────────────

#[test]
fn coarsened_strictly_smaller() {
    let (c, _) = HeavyEdgeMatch.coarsen(&path5());
    assert!(c.n() < 5, "coarsened graph must be strictly smaller");
    assert!(c.is_valid(), "coarsened graph must be valid");
}

#[test]
fn cmap_length_equals_fine_n() {
    let g = path5();
    let (_, cmap) = HeavyEdgeMatch.coarsen(&g);
    assert_eq!(cmap.as_slice().len(), g.n());
}

#[test]
fn cmap_targets_in_range() {
    let g = path5();
    let (c, cmap) = HeavyEdgeMatch.coarsen(&g);
    assert!(cmap.as_slice().iter().all(|&t| (t as usize) < c.n()));
}

#[test]
fn should_stop_small_graph() {
    let hem = HeavyEdgeMatchWithParams { coarsen_to: 20, k: 2 };
    assert!(hem.should_stop(&path5()));
}

#[test]
fn should_stop_large_graph() {
    let hem = HeavyEdgeMatchWithParams { coarsen_to: 20, k: 53 };
    assert!(hem.should_stop(&path5()));
}

#[test]
fn triangle_coarsens_to_at_most_2() {
    let (c, _) = HeavyEdgeMatch.coarsen(&triangle());
    assert!(c.n() <= 2, "triangle must coarsen to <= 2 vertices");
    assert!(c.is_valid());
}

#[test]
fn unweighted_stays_unweighted() {
    let (c, _) = HeavyEdgeMatch.coarsen(&path5());
    assert!(c.adjwgt().is_none(), "unweighted input must produce unweighted coarsened graph");
}

#[test]
fn weighted_stays_weighted() {
    let g = with_unit_edge_weights(&path5());
    let (c, _) = HeavyEdgeMatch.coarsen(&g);
    assert!(c.adjwgt().is_some(), "weighted input must produce weighted coarsened graph");
}

// ── minimum-degree matching ──────────────────────────────────────────────

#[test]
fn mindegree_valid_output() {
    let g = star_graph(6);
    let (c, cmap) = MinDegreeMatch.coarsen(&g);
    assert!(c.is_valid(), "coarsened graph must be valid");
    assert_eq!(cmap.as_slice().len(), 6);
    assert!(c.n() < 6);
}

#[test]
fn mindegree_unweighted_stays_unweighted() {
    let (c, _) = MinDegreeMatch.coarsen(&path5());
    assert!(c.adjwgt().is_none());
}

#[test]
fn mindegree_cmap_targets_in_range() {
    let g = star_graph(6);
    let (c, cmap) = MinDegreeMatch.coarsen(&g);
    assert!(cmap.as_slice().iter().all(|&t| (t as usize) < c.n()));
}

#[test]
fn mindegree_strictly_smaller() {
    let (c, _) = MinDegreeMatch.coarsen(&path5());
    assert!(c.n() < 5);
}

// ── sorted heavy-edge matching ───────────────────────────────────────────

#[test]
fn shem_coarsened_valid() {
    let (c, cmap) = SortedHeavyEdgeMatch.coarsen(&weighted_path4());
    assert!(c.is_valid(), "coarsened graph must be valid");
    assert_eq!(cmap.as_slice().len(), 4);
    assert!(c.n() < 4);
}

#[test]
fn shem_prefers_heavy_edges() {
    let (_, cmap) = SortedHeavyEdgeMatch.coarsen(&weighted_path4());
    let m = cmap.as_slice();
    assert_eq!(m[0], m[1], "vertices 0 and 1 (connected by weight-10 edge) should be matched");
    assert_eq!(m[2], m[3], "vertices 2 and 3 (connected by weight-10 edge) should be matched");
}

#[test]
fn shem_unweighted_valid() {
    let (c, cmap) = SortedHeavyEdgeMatch.coarsen(&path5());
    assert!(c.is_valid());
    assert_eq!(cmap.as_slice().len(), 5);
    assert!(c.n() < 5);
}

#[test]
fn shem_unweighted_stays_unweighted() {
    let (c, _) = SortedHeavyEdgeMatch.coarsen(&path5());
    assert!(c.adjwgt().is_none(), "unweighted input must produce unweighted output");
}

#[test]
fn shem_weighted_stays_weighted() {
    let (c, _) = SortedHeavyEdgeMatch.coarsen(&weighted_path4());
    assert!(c.adjwgt().is_some(), "weighted input must produce weighted output");
}

#[test]
fn shem_with_params_should_stop() {
    let shem = SortedHeavyEdgeMatchWithParams { coarsen_to: 20, k: 2 };
    assert!(shem.should_stop(&path5()), "path5 (5 vertices) < threshold max(40, 20*2)=40 → should stop");
}

#[test]
fn shem_strictly_smaller() {
    let (c, _) = SortedHeavyEdgeMatch.coarsen(&path5());
    assert!(c.n() < path5().n());
}

// ── two-hop matching ─────────────────────────────────────────────────────

#[test]
fn twohop_valid_output_path() {
    let (c, cmap) = TwoHopMatch.coarsen(&path_graph(10));
    assert!(c.is_valid());
    assert_eq!(cmap.as_slice().len(), 10);
    assert!(c.n() < 10);
}

#[test]
fn twohop_valid_output_star() {
    let g = star_graph(8);
    let (c, cmap) = TwoHopMatch.coarsen(&g);
    assert!(c.is_valid());
    assert_eq!(cmap.as_slice().len(), 8);
    assert!(c.n() < 8);
}

#[test]
fn twohop_unweighted_stays_unweighted() {
    let (c, _) = TwoHopMatch.coarsen(&path_graph(8));
    assert!(c.adjwgt().is_none());
}

#[test]
fn twohop_strictly_smaller() {
    let (c, _) = TwoHopMatch.coarsen(&path_graph(12));
    assert!(c.n() < 12);
}

#[test]
fn twohop_with_params_should_stop() {
    let c = TwoHopMatchWithParams { coarsen_to: 20, k: 2 };
    assert!(c.should_stop(&path_graph(5)));
}

#[test]
fn twohop_better_ratio_than_shem_on_star() {
    let g = star_graph(8);
    let (c, _) = TwoHopMatch.coarsen(&g);
    assert!(c.n() <= 5, "2-hop should coarsen star better: got {} coarse vertices", c.n());
}

#[test]
fn coarsening_terminates_path255() {
    let g = path_graph(255);
    let coarsener = SortedHeavyEdgeMatchWithParams { coarsen_to: 20, k: 1 };
    let mut current = g;
    for level in 0..50usize {
        if coarsener.should_stop(&current) {
            return;
        }
        let (next, _) = coarsener.coarsen(&current);
        assert!(next.is_valid(), "invalid at level {level}");
        assert!(next.n() < current.n(), "did not shrink at level {level}");
        current = next;
    }
    panic!("did not reach should_stop within 50 levels");
}

// ── own checks ───────────────────────────────────────────────────────────

#[test]
fn shem_path4_matches_pairs_exactly() {
    // 0 --10-- 1 --1-- 2 --10-- 3: the two heavy edges merge, leaving one
    // coarse edge of weight 1 and two coarse vertices of weight 2.
    let (c, cmap) = SortedHeavyEdgeMatch.coarsen(&weighted_path4());
    assert_eq!(c.n(), 2);
    assert_eq!(cmap.as_slice(), &[0, 0, 1, 1]);
    assert_eq!(c.vwgt(), &[2, 2]);
    assert_eq!(c.adjwgt().unwrap(), &[1, 1]);
}

#[test]
fn heavy_edge_coarsen_follows_visit_order() {
    // Visiting 1 first pairs it with its last heaviest free neighbour 2.
    let g = path_graph(4);
    let (c, cmap) = metis_core::coarsen::hem::heavy_edge_coarsen(&g, &[1, 0, 2, 3]);
    assert_eq!(cmap.as_slice(), &[1, 0, 0, 2]);
    assert_eq!(c.n(), 3);
}

#[test]
fn shem_uses_seeded_heavy_edge_matching_without_distinct_weights() {
    let g = path_graph(9);
    let (cs, ms) = SortedHeavyEdgeMatch.coarsen(&g);
    let (ch, mh) = HeavyEdgeMatch.coarsen(&g);
    assert_eq!(ms.as_slice(), mh.as_slice());
    assert_eq!(cs.n(), ch.n());
    // All edge weights equal: the same fallback.
    let uniform = CsrGraph::new(g.xadj().to_vec(), g.adjncy().to_vec(), 1, vec![1i32; 9], Some(vec![3i32; g.adjncy().len()]))
        .unwrap();
    let (_, mu) = SortedHeavyEdgeMatch.coarsen(&uniform);
    let (_, mhu) = HeavyEdgeMatch.coarsen(&uniform);
    assert_eq!(mu.as_slice(), mhu.as_slice());
}

#[test]
fn shem_visits_heaviest_edges_first_with_distinct_weights() {
    // Path 0-1-2-3 with the middle edge heaviest: 1 and 2 are matched first.
    let g = CsrGraph::new(vec![0, 1, 3, 5, 6], vec![1, 0, 2, 1, 3, 2], 1, vec![1i32; 4], Some(vec![1, 1, 5, 5, 1, 1]))
        .unwrap();
    let (_, m) = SortedHeavyEdgeMatch.coarsen(&g);
    let c = m.as_slice();
    assert_eq!(c[1], c[2]);
    assert_ne!(c[0], c[1]);
    assert_ne!(c[3], c[2]);
}

#[test]
fn weighted_contraction_keeps_edge_weights_symmetric() {
    // A 4-cycle with distinct symmetric edge weights.
    let g = CsrGraph::new(
        vec![0, 2, 4, 6, 8],
        vec![1, 3, 0, 2, 1, 3, 0, 2],
        1,
        vec![1i32; 4],
        Some(vec![5, 2, 5, 7, 7, 3, 2, 3]),
    )
    .unwrap();
    let (c, _) = SortedHeavyEdgeMatch.coarsen(&g);
    assert!(c.is_valid());
    let w = c.adjwgt().unwrap();
    for v in 0..c.n() {
        for j in c.xadj()[v] as usize..c.xadj()[v + 1] as usize {
            let u = c.adjncy()[j] as usize;
            let back = (c.xadj()[u] as usize..c.xadj()[u + 1] as usize).find(|&r| c.adjncy()[r] as usize == v).unwrap();
            assert_eq!(w[j], w[back]);
            assert!(w[j] >= 1);
        }
    }
}

#[test]
fn shem_heavy_pairs_numbered_in_vertex_order() {
    let (c, cmap) = SortedHeavyEdgeMatch.coarsen(&weighted_path4());
    assert_eq!(cmap.as_slice(), &[0, 0, 1, 1]);
    assert_eq!(c.xadj(), &[0, 1, 2]);
    assert_eq!(c.adjncy(), &[1, 0]);
    assert_eq!(c.adjwgt(), Some(&[1, 1][..]));
    assert_eq!(c.vwgt(), &[2, 2]);
}

#[test]
fn twohop_star_map_is_fixed() {
    let g = star_graph(8);
    let (c, cmap) = TwoHopMatch.coarsen(&g);
    assert_eq!(cmap.as_slice(), &[0, 1, 1, 2, 2, 3, 3, 0]);
    assert_eq!(c.n(), 4);
    assert!(c.is_valid());
    assert!(c.adjwgt().is_none());
}

#[test]
fn contraction_stays_valid_when_each_coarse_weight_fits() {
    // The total vertex weight exceeds i32::MAX, yet each coarse vertex fits.
    let g = CsrGraph::new(
        vec![0, 1, 3, 4],
        vec![1, 0, 2, 1],
        1,
        vec![2_000_000_000, 2_000_000_000, 7],
        Some(vec![3, 3, 5, 5]),
    )
    .unwrap();
    let (c, m) = metis_core::coarsen::coarse_graph::build_coarse_graph(&g, &[0, 1, 1], 2);
    assert!(c.is_valid());
    assert_eq!(c.vwgt(), &[2_000_000_000, 2_000_000_007]);
    assert_eq!(c.adjncy(), &[1, 0]);
    assert_eq!(c.adjwgt().unwrap(), &[3, 3]);
    assert_eq!(m.as_slice(), &[0, 1, 1]);
}
