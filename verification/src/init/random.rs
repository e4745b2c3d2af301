use vstd::prelude::*;

use crate::graph::csr::CsrGraph;
use crate::graph::partition::Partition;
use crate::init::{single_part, InitialPartitioner};
use crate::random::{random_part, seeded_rng};

verus! {

/// Each vertex goes to a part drawn uniformly from `0..k` by a PCG generator
/// seeded with `seed`.
pub struct RandomBisect;

impl InitialPartitioner for RandomBisect {
    fn partition(&self, g: &CsrGraph, k: u32, seed: u64) -> (r: Partition) {
        let n = g.n();
        if k == 1 {
            return single_part(n);
        }
        let mut rng = seeded_rng(seed);
        let mut a: Vec<u32> = Vec::new();
        let mut v: usize = 0;
        while v < n
            invariant
                0 <= v <= n,
                k >= 2,
                a@.len() == v,
                forall|w: int| 0 <= w < v ==> #[trigger] a@[w] < k,
            decreases n - v,
        {
            a.push(random_part(&mut rng, k));
            v += 1;
        }
        Partition::from_parts(a, k, None)
    }
}

} // verus!
