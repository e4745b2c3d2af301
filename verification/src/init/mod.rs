use vstd::prelude::*;

use crate::graph::csr::CsrGraph;
use crate::graph::partition::Partition;

pub mod grow;
pub mod multiconstraint;
pub mod random;

verus! {

/// Computes a first partition of a (coarsest) graph.
pub trait InitialPartitioner: Send + Sync {
    /// Split `g` into `k` parts; every vertex gets a part below `k`, and the
    /// result carries no target shares.
    fn partition(&self, g: &CsrGraph, k: u32, seed: u64) -> (r: Partition)
        requires
            g@.sound(),
            k >= 1,
            k == 1 || g@.n() >= 1,
        ensures
            r@.fits(g@),
            r@.k == k,
            r@.tpwgts is None,
    ;
}

/// Every vertex of an `n`-vertex graph in part 0 of a one-part partition.
pub fn single_part(n: usize) -> (r: Partition)
    ensures
        r@.k == 1,
        r@.assignment == Seq::new(n as nat, |v: int| 0u32),
        r@.tpwgts is None,
{
    let mut a: Vec<u32> = Vec::new();
    let mut v: usize = 0;
    while v < n
        invariant
            0 <= v <= n,
            a@ == Seq::new(v as nat, |w: int| 0u32),
        decreases n - v,
    {
        a.push(0);
        v += 1;
        proof {
            assert(a@ =~= Seq::new(v as nat, |w: int| 0u32));
        }
    }
    Partition::from_parts(a, 1, None)
}

} // verus!
