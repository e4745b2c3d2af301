use vstd::prelude::*;

use crate::graph::csr::CsrGraph;
use crate::graph::partition::Partition;

pub mod boundary;
pub mod fm;
pub mod gain;
pub mod gain_facts;
pub mod gains;
pub mod kway;
pub mod lp;

verus! {

/// Improvement of a partition in place of the graph it describes.
pub trait Refiner: Send + Sync {
    /// Refine `p` on `g`; the result assigns every vertex to one of the same
    /// `k` parts, and its target shares, if any, are one per part.
    fn refine(&self, g: &CsrGraph, p: Partition) -> (r: Partition)
        requires
            g@.sound(),
            p@.fits(g@),
            p@.tpwgts matches Some(t) ==> t.len() == p@.k,
        ensures
            r@.fits(g@),
            r@.k == p@.k,
            r@.tpwgts matches Some(t) ==> t.len() == r@.k,
    ;
}

} // verus!
pub mod minconn;
