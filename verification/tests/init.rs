use metis_core::api::{MetisParams, MetisPartitioner, Partitioner};
use metis_core::coarsen::hem::path_graph;
use metis_core::graph::{check_contiguity, CsrGraph};
use metis_core::init::grow::{grow_from_seeds, GrowBisect, GrowKway, RecursiveBisect};
use metis_core::init::multiconstraint::MultiConstraintInit;
use metis_core::init::random::RandomBisect;
use metis_core::init::InitialPartitioner;

fn grid_parts(rows: usize, cols: usize) -> (Vec<u32>, Vec<u32>) {
    let mut xadj = vec![0u32];
    let mut adjncy = Vec::new();
    for i in 0..rows {
        for j in 0..cols {
            let mut nbrs = Vec::new();
            if i > 0 {
                nbrs.push((i - 1) * cols + j);
            }
            if i < rows - 1 {
                nbrs.push((i + 1) * cols + j);
            }
            if j > 0 {
                nbrs.push(i * cols + (j - 1));
            }
            if j < cols - 1 {
                nbrs.push(i * cols + (j + 1));
            }
            for &u in &nbrs {
                adjncy.push(u as u32);
            }
            xadj.push(adjncy.len() as u32);
        }
    }
    (xadj, adjncy)
}

fn grid(rows: usize, cols: usize) -> CsrGraph {
    let (xadj, adjncy) = grid_parts(rows, cols);
    CsrGraph::new(xadj, adjncy, 1, vec![1i32; rows * cols], None).unwrap()
}

fn recursive_params() -> MetisParams {
    MetisParams { use_recursive: true, ..MetisParams::default() }
}

#[test]
fn grow_bisect_valid_partition() {
    let g = grid(4, 4);
    let p = GrowBisect.partition(&g, 2, 42);
    assert_eq!(p.assignment().len(), 16);
    assert_eq!(p.k(), 2);
    assert!(p.assignment().iter().all(|&x| x < 2));
    assert!(p.assignment().contains(&0));
    assert!(p.assignment().contains(&1));
}

#[test]
fn grow_bisect_k1_all_zero() {
    let g = path_graph(10);
    let p = GrowBisect.partition(&g, 1, 0);
    assert!(p.assignment().iter().all(|&x| x == 0));
    assert_eq!(p.k(), 1);
}

#[test]
fn grow_kway_valid_k4() {
    let g = grid(4, 4);
    let p = GrowKway.partition(&g, 4, 99);
    assert_eq!(p.assignment().len(), 16);
    assert_eq!(p.k(), 4);
    assert!(p.assignment().iter().all(|&x| x < 4));
    for part in 0..4u32 {
        assert!(p.assignment().contains(&part));
    }
}

#[test]
fn grow_kway_k1_all_zero() {
    let g = path_graph(8);
    let p = GrowKway.partition(&g, 1, 0);
    assert!(p.assignment().iter().all(|&x| x == 0));
}

#[test]
fn recursive_bisect_grid_k4() {
    let g = grid(4, 4);
    let p = MetisPartitioner::with_params(recursive_params(), 4).split(&g, 4, Some(0)).unwrap();
    assert_eq!(p.assignment().len(), 16);
    assert_eq!(p.k(), 4);
    assert!(p.assignment().iter().all(|&x| x < 4));
    for part in 0..4u32 {
        assert!(p.assignment().contains(&part), "part {part} missing from assignment");
    }
}

#[test]
fn recursive_bisect_k2_same_validity_as_direct() {
    let g = path_graph(10);
    let params_kw = MetisParams { use_recursive: false, ..MetisParams::default() };
    let p_rb = MetisPartitioner::with_params(recursive_params(), 2).split(&g, 2, Some(42)).unwrap();
    let p_kw = MetisPartitioner::with_params(params_kw, 2).split(&g, 2, Some(42)).unwrap();
    assert_eq!(p_rb.assignment().len(), p_kw.assignment().len());
    assert_eq!(p_rb.k(), 2);
    assert_eq!(p_kw.k(), 2);
    assert!(p_rb.assignment().contains(&0));
    assert!(p_rb.assignment().contains(&1));
}

#[test]
fn recursive_bisect_k1_all_zero() {
    let g = path_graph(10);
    let p = MetisPartitioner::with_params(recursive_params(), 1).split(&g, 1, Some(0)).unwrap();
    assert!(p.assignment().iter().all(|&x| x == 0));
    assert_eq!(p.k(), 1);
}

#[test]
fn recursive_bisect_k8_valid() {
    let g = grid(8, 8);
    let p = MetisPartitioner::with_params(recursive_params(), 8).split(&g, 8, Some(7)).unwrap();
    assert_eq!(p.assignment().len(), 64);
    assert_eq!(p.k(), 8);
    assert!(p.assignment().iter().all(|&x| x < 8));
    for part in 0..8u32 {
        assert!(p.assignment().contains(&part), "part {part} missing from k=8 assignment");
    }
}

#[test]
fn multi_constraint_respects_ncon() {
    let (xadj, adjncy) = grid_parts(4, 4);
    let g = CsrGraph::new(xadj, adjncy, 2, vec![1; 32], None).unwrap();
    let p = MultiConstraintInit.partition(&g, 4, 0);
    assert_eq!(p.k(), 4);
    assert_eq!(p.assignment().len(), 16);
    assert!(p.assignment().iter().all(|&x| x < 4));
}

#[test]
fn multi_constraint_k1_trivial() {
    let g = path_graph(8);
    let p = MultiConstraintInit.partition(&g, 1, 0);
    assert!(p.assignment().iter().all(|&x| x == 0));
}

#[test]
fn random_bisect_all_parts_present() {
    let g = path_graph(20);
    let p = RandomBisect.partition(&g, 2, 7);
    assert!(p.assignment().contains(&0));
    assert!(p.assignment().contains(&1));
    assert_eq!(p.assignment().len(), 20);
    assert_eq!(p.k(), 2);
}

#[test]
fn random_bisect_k1_all_zero() {
    let g = path_graph(10);
    let p = RandomBisect.partition(&g, 1, 0);
    assert!(p.assignment().iter().all(|&x| x == 0));
}

#[test]
fn random_bisect_deterministic() {
    let g = path_graph(10);
    let p1 = RandomBisect.partition(&g, 2, 42);
    let p2 = RandomBisect.partition(&g, 2, 42);
    assert_eq!(p1.assignment(), p2.assignment(), "same seed must produce same result");
}

// ── own checks ───────────────────────────────────────────────────────────

#[test]
fn grow_bisect_single_vertex_ends_in_part_one() {
    let g = CsrGraph::new(vec![0, 0], vec![], 1, vec![1], None).unwrap();
    let p = GrowBisect.partition(&g, 2, 3);
    assert_eq!(p.assignment(), &[1]);
}

#[test]
fn grow_kway_more_parts_than_vertices_still_fits() {
    let g = path_graph(3);
    let p = GrowKway.partition(&g, 5, 11);
    assert_eq!(p.k(), 5);
    assert_eq!(p.assignment().len(), 3);
    assert!(p.assignment().iter().all(|&x| x < 5));
}

#[test]
fn grow_kway_every_part_present_on_a_path() {
    let g = path_graph(9);
    for seed in 0..20u64 {
        let p = GrowKway.partition(&g, 9, seed);
        for part in 0..9u32 {
            assert!(p.assignment().contains(&part));
        }
    }
}

#[test]
fn recursive_bisect_k1_direct() {
    let g = path_graph(6);
    let p = RecursiveBisect::default().partition_graph(&g, 1, 5).unwrap();
    assert_eq!(p.assignment(), &[0, 0, 0, 0, 0, 0]);
    assert_eq!(p.k(), 1);
}

#[test]
fn grown_parts_are_contiguous_on_a_grid() {
    let g = grid(6, 6);
    for seed in 0..10u64 {
        let p = GrowKway.partition(&g, 5, seed);
        assert_eq!(metis_core::check_contiguity(&g, &p), Ok(()));
        let b = GrowBisect.partition(&g, 2, seed);
        assert_eq!(metis_core::check_contiguity(&g, &b), Ok(()));
    }
}

#[test]
fn grown_parts_cover_every_vertex_by_growth() {
    // On a connected graph no vertex is left to the fallback: every part is
    // reachable from its seed, so a path split into 3 parts gives 3 runs.
    let g = path_graph(12);
    let p = GrowKway.partition(&g, 3, 4);
    let a = p.assignment();
    let mut runs = 1;
    for v in 1..a.len() {
        if a[v] != a[v - 1] {
            runs += 1;
        }
    }
    assert_eq!(runs, 3);
}

#[test]
fn recursive_bisect_k3_parts_contiguous() {
    let g = grid(6, 6);
    let p = RecursiveBisect::default().partition_graph(&g, 3, 11).unwrap();
    assert_eq!(p.k(), 3);
    assert_eq!(check_contiguity(&g, &p), Ok(()));
}

#[test]
fn recursive_split_with_contig_fm_parts_contiguous() {
    let g = grid(8, 8);
    let params = MetisParams { use_recursive: true, contig_fm: true, ..MetisParams::default() };
    let p = MetisPartitioner::with_params(params, 5).split(&g, 5, Some(3)).unwrap();
    assert_eq!(p.k(), 5);
    assert_eq!(check_contiguity(&g, &p), Ok(()));
}

#[test]
fn grow_from_seeds_takes_turns_in_part_order() {
    // Part 0 takes vertex 1 before part 1 gets its turn; part 1 then grows
    // along the rest of the path.
    let g = path_graph(6);
    let a = grow_from_seeds(&g, 2, &vec![0, 2]);
    assert_eq!(a, vec![0, 0, 1, 1, 1, 1]);
}

#[test]
fn grow_from_seeds_three_parts_on_path() {
    let g = path_graph(9);
    let a = grow_from_seeds(&g, 3, &vec![0, 4, 8]);
    assert_eq!(a, vec![0, 0, 0, 1, 1, 1, 2, 2, 2]);
}

#[test]
fn grow_from_seeds_same_seeds_same_parts() {
    let g = path_graph(30);
    let seeds = vec![3, 17, 25];
    assert_eq!(grow_from_seeds(&g, 3, &seeds), grow_from_seeds(&g, 3, &seeds));
}

#[test]
fn grow_bisect_two_parts_match_growth_from_their_seeds() {
    let g = path_graph(6);
    for seed in 0..20u64 {
        let p = GrowBisect.partition(&g, 2, seed);
        let a = p.assignment();
        let sa = a.iter().position(|&x| x == 0).unwrap();
        let sb = a.iter().position(|&x| x == 1).unwrap();
        // Some pair of distinct seeds grows exactly this bisection.
        let found = (0..6usize).any(|x| {
            (0..6usize).any(|y| x != y && grow_from_seeds(&g, 2, &vec![x, y]).as_slice() == a)
        });
        assert!(found, "seed {seed}: {a:?} ({sa}, {sb})");
    }
}
