use vstd::prelude::*;

use super::csr::{copy_u32, CsrGraph, GraphView};
use crate::error::PartitionError;

verus! {

/// Mathematical model of a partition: the part of each vertex, the number of
/// parts, and optional integer target shares per part.
pub struct PartitionView {
    pub assignment: Seq<u32>,
    pub k: u32,
    pub tpwgts: Option<Seq<u32>>,
}

impl PartitionView {
    /// At least one part and every part id below `k`.
    pub open spec fn wf(self) -> bool {
        &&& self.k >= 1
        &&& forall|v: int| 0 <= v < self.assignment.len() ==> #[trigger] self.assignment[v] < self.k
    }

    /// A well-formed partition with one entry per vertex of `g`.
    pub open spec fn fits(self, g: GraphView) -> bool {
        &&& self.wf()
        &&& self.assignment.len() == g.n()
    }
}

/// Some vertex is in part `p`.
pub open spec fn part_present(a: Seq<u32>, p: int) -> bool {
    exists|v: int| 0 <= v < a.len() && a[v] == p
}

/// Every part below `k` has a vertex.
pub open spec fn all_parts_present(a: Seq<u32>, k: int) -> bool {
    forall|p: int| 0 <= p < k ==> #[trigger] part_present(a, p)
}

pub open spec fn opt_u32_view(w: Option<Vec<u32>>) -> Option<Seq<u32>> {
    match w {
        Some(v) => Some(v@),
        None => None,
    }
}

/// An assignment of vertices to parts `0..k`.
///
/// `tpwgts`, when present, holds one positive integer share per part: part
/// `i` aims for `tpwgts[i] / sum(tpwgts)` of the total vertex weight.
#[derive(Debug, Clone, PartialEq)]
pub struct Partition {
    assignment: Vec<u32>,
    k: u32,
    tpwgts: Option<Vec<u32>>,
}

impl View for Partition {
    type V = PartitionView;

    closed spec fn view(&self) -> PartitionView {
        PartitionView { assignment: self.assignment@, k: self.k, tpwgts: opt_u32_view(self.tpwgts) }
    }
}

/// Error message when `k` is zero.
pub open spec fn msg_k_zero() -> &'static str {
    "k must be at least one"
}

/// Error message when a part id is not below `k`.
pub open spec fn msg_part_range() -> &'static str {
    "assignment contains part id outside 0..k"
}

/// Error message when the assignment does not cover the graph.
pub open spec fn msg_length() -> &'static str {
    "assignment length must equal graph vertex count"
}

/// Error message when the target shares do not match `k`.
pub open spec fn msg_tpwgts_len() -> &'static str {
    "tpwgts length must equal k"
}

/// Error message when a target share is not positive.
pub open spec fn msg_tpwgts_positive() -> &'static str {
    "tpwgts entries must be finite and positive"
}

pub open spec fn all_below(s: Seq<u32>, k: u32) -> bool {
    forall|v: int| 0 <= v < s.len() ==> #[trigger] s[v] < k
}

/// Whether every entry is below `k`.
pub fn all_parts_below(s: &[u32], k: u32) -> (r: bool)
    ensures
        r == all_below(s@, k),
{
    let mut i: usize = 0;
    while i < s.len()
        invariant
            0 <= i <= s.len(),
            forall|v: int| 0 <= v < i ==> #[trigger] s@[v] < k,
        decreases s.len() - i,
    {
        if s[i] >= k {
            proof {
                assert(!(s@[i as int] < k));
            }
            return false;
        }
        i += 1;
    }
    true
}

impl Partition {
    /// Build a partition; `k` must be at least one and every part id below `k`.
    pub fn new(assignment: Vec<u32>, k: u32) -> (r: Result<Self, PartitionError>)
        ensures
            k == 0 ==> r == Err::<Self, PartitionError>(PartitionError::InvalidPartition(msg_k_zero())),
            k >= 1 && !all_below(assignment@, k) ==> r == Err::<Self, PartitionError>(
                PartitionError::InvalidPartition(msg_part_range()),
            ),
            k >= 1 && all_below(assignment@, k) ==> r is Ok && r->Ok_0@ == (PartitionView {
                assignment: assignment@,
                k,
                tpwgts: None,
            }),
    {
        if k == 0 {
            return Err(PartitionError::InvalidPartition("k must be at least one"));
        }
        if !all_parts_below(assignment.as_slice(), k) {
            return Err(PartitionError::InvalidPartition("assignment contains part id outside 0..k"));
        }
        Ok(Partition { assignment, k, tpwgts: None })
    }

    /// Assemble a partition from its parts as they are, unchecked (see
    /// `validate_for_graph`).
    pub fn from_parts(assignment: Vec<u32>, k: u32, tpwgts: Option<Vec<u32>>) -> (r: Self)
        ensures
            r@ == (PartitionView { assignment: assignment@, k, tpwgts: opt_u32_view(tpwgts) }),
    {
        Partition { assignment, k, tpwgts }
    }

    pub fn assignment(&self) -> (r: &[u32])
        ensures
            r@ == self@.assignment,
    {
        self.assignment.as_slice()
    }

    pub fn k(&self) -> (r: u32)
        ensures
            r == self@.k,
    {
        self.k
    }

    pub fn into_assignment(self) -> (r: Vec<u32>)
        ensures
            r@ == self@.assignment,
    {
        self.assignment
    }

    /// The target shares, if any.
    pub fn tpwgts(&self) -> (r: Option<&[u32]>)
        ensures
            match r {
                Some(s) => self@.tpwgts == Some(s@),
                None => self@.tpwgts is None,
            },
    {
        match &self.tpwgts {
            Some(t) => Some(t.as_slice()),
            None => None,
        }
    }

    /// Replace the target shares.
    pub fn set_tpwgts(&mut self, tpwgts: Option<Vec<u32>>)
        ensures
            final(self)@ == (PartitionView {
                assignment: old(self)@.assignment,
                k: old(self)@.k,
                tpwgts: opt_u32_view(tpwgts),
            }),
    {
        self.tpwgts = tpwgts;
    }

    /// Move vertex `v` to part `part`.
    pub(crate) fn set_part(&mut self, v: usize, part: u32)
        requires
            v < old(self)@.assignment.len(),
        ensures
            final(self)@ == (PartitionView {
                assignment: old(self)@.assignment.update(v as int, part),
                k: old(self)@.k,
                tpwgts: old(self)@.tpwgts,
            }),
    {
        self.assignment.set(v, part);
    }

    /// A copy with the same content.
    pub fn duplicate(&self) -> (r: Self)
        ensures
            r@ == self@,
    {
        let tp = match &self.tpwgts {
            Some(t) => Some(copy_u32(t.as_slice())),
            None => None,
        };
        Partition { assignment: copy_u32(self.assignment.as_slice()), k: self.k, tpwgts: tp }
    }

    /// Check that the partition describes `g`: `k >= 1`, one entry per vertex,
    /// part ids below `k`, and target shares (when present) one positive
    /// entry per part.
    pub fn validate_for_graph(&self, g: &CsrGraph) -> (r: Result<(), PartitionError>)
        ensures
            r == partition_check(self@, g@),
    {
        if self.k == 0 {
            return Err(PartitionError::InvalidPartition("k must be at least one"));
        }
        if self.assignment.len() != g.n() {
            return Err(PartitionError::InvalidPartition("assignment length must equal graph vertex count"));
        }
        if !all_parts_below(self.assignment.as_slice(), self.k) {
            return Err(PartitionError::InvalidPartition("assignment contains part id outside 0..k"));
        }
        match &self.tpwgts {
            Some(t) => {
                if t.len() != self.k as usize {
                    return Err(PartitionError::InvalidPartition("tpwgts length must equal k"));
                }
                let mut i: usize = 0;
                while i < t.len()
                    invariant
                        self.k >= 1,
                        self@.assignment.len() == g@.n(),
                        all_below(self@.assignment, self@.k),
                        self@.tpwgts == Some(t@),
                        t@.len() == self@.k,
                        0 <= i <= t.len(),
                        forall|j: int| 0 <= j < i ==> t@[j] > 0,
                    decreases t.len() - i,
                {
                    if t[i] == 0 {
                        proof {
                            assert(t@[i as int] == 0);
                        }
                        return Err(PartitionError::InvalidPartition("tpwgts entries must be finite and positive"));
                    }
                    i += 1;
                }
                Ok(())
            },
            None => Ok(()),
        }
    }
}

/// Result of `Partition::validate_for_graph`.
pub open spec fn partition_check(p: PartitionView, g: GraphView) -> Result<(), PartitionError> {
    if p.k == 0 {
        Err(PartitionError::InvalidPartition(msg_k_zero()))
    } else if p.assignment.len() != g.n() {
        Err(PartitionError::InvalidPartition(msg_length()))
    } else if !all_below(p.assignment, p.k) {
        Err(PartitionError::InvalidPartition(msg_part_range()))
    } else {
        match p.tpwgts {
            Some(t) => if t.len() != p.k {
                Err(PartitionError::InvalidPartition(msg_tpwgts_len()))
            } else if exists|i: int| 0 <= i < t.len() && #[trigger] t[i] == 0 {
                Err(PartitionError::InvalidPartition(msg_tpwgts_positive()))
            } else {
                Ok(())
            },
            None => Ok(()),
        }
    }
}

/// A fine-to-coarse vertex map: entry `v` is the coarse vertex that contains
/// fine vertex `v`.
#[derive(Debug, Clone)]
pub struct CoarseMap {
    cmap: Vec<u32>,
}

impl View for CoarseMap {
    type V = Seq<u32>;

    closed spec fn view(&self) -> Seq<u32> {
        self.cmap@
    }
}

/// Every coarse vertex below `coarse_n` is the image of some fine vertex.
pub open spec fn covers(cmap: Seq<u32>, coarse_n: int) -> bool {
    forall|c: int| 0 <= c < coarse_n ==> #[trigger] targeted(cmap, c)
}

/// Some fine vertex maps to coarse vertex `c`.
pub open spec fn targeted(cmap: Seq<u32>, c: int) -> bool {
    exists|v: int| 0 <= v < cmap.len() && #[trigger] cmap[v] == c
}

/// Result of `CoarseMap::new` on a map and the two vertex counts.
pub open spec fn coarse_map_check(cmap: Seq<u32>, fine_n: int, coarse_n: int) -> Option<&'static str> {
    if cmap.len() != fine_n {
        Some("coarse map length must equal fine vertex count")
    } else if coarse_n == 0 && fine_n > 0 {
        Some("non-empty coarse map must target at least one coarse vertex")
    } else if !(forall|v: int| 0 <= v < cmap.len() ==> (#[trigger] cmap[v] as int) < coarse_n) {
        Some("coarse map target is outside coarse vertex range")
    } else if !covers(cmap, coarse_n) {
        Some("coarse map must target every coarse vertex")
    } else {
        None
    }
}

impl CoarseMap {
    /// Build a fine-to-coarse map: one entry per fine vertex, every target in
    /// `0..coarse_n`, every coarse vertex targeted.
    pub fn new(cmap: Vec<u32>, fine_n: usize, coarse_n: usize) -> (r: Result<Self, PartitionError>)
        ensures
            match coarse_map_check(cmap@, fine_n as int, coarse_n as int) {
                None => r is Ok && r->Ok_0@ == cmap@,
                Some(msg) => r == Err::<Self, PartitionError>(PartitionError::InvalidGraph(msg)),
            },
    {
        if cmap.len() != fine_n {
            return Err(PartitionError::InvalidGraph("coarse map length must equal fine vertex count"));
        }
        if coarse_n == 0 && fine_n > 0 {
            return Err(
                PartitionError::InvalidGraph(
                    "non-empty coarse map must target at least one coarse vertex",
                ),
            );
        }
        let mut i: usize = 0;
        while i < cmap.len()
            invariant
                cmap.len() == fine_n,
                !(coarse_n == 0 && fine_n > 0),
                0 <= i <= cmap.len(),
                forall|v: int| 0 <= v < i ==> (#[trigger] cmap@[v] as int) < coarse_n,
            decreases cmap.len() - i,
        {
            if cmap[i] as usize >= coarse_n {
                proof {
                    assert(!((cmap@[i as int] as int) < coarse_n));
                }
                return Err(PartitionError::InvalidGraph("coarse map target is outside coarse vertex range"));
            }
            i += 1;
        }
        let mut covered: Vec<bool> = vec![false; coarse_n];
        let mut i: usize = 0;
        while i < cmap.len()
            invariant
                cmap.len() == fine_n,
                !(coarse_n == 0 && fine_n > 0),
                0 <= i <= cmap.len(),
                covered@.len() == coarse_n,
                forall|v: int| 0 <= v < cmap.len() ==> (#[trigger] cmap@[v] as int) < coarse_n,
                forall|c: int|
                    0 <= c < coarse_n ==> (#[trigger] covered@[c] <==> exists|v: int|
                        0 <= v < i && #[trigger] cmap@[v] == c),
            decreases cmap.len() - i,
        {
            let t = cmap[i] as usize;
            covered.set(t, true);
            proof {
                assert forall|c: int| 0 <= c < coarse_n implies (#[trigger] covered@[c] <==> exists|v: int|
                    0 <= v < i + 1 && #[trigger] cmap@[v] == c) by {
                    if c == t as int {
                        assert(cmap@[i as int] == c);
                    }
                }
            }
            i += 1;
        }
        let mut c: usize = 0;
        while c < coarse_n
            invariant
                cmap.len() == fine_n,
                !(coarse_n == 0 && fine_n > 0),
                forall|v: int| 0 <= v < cmap.len() ==> (#[trigger] cmap@[v] as int) < coarse_n,
                0 <= c <= coarse_n,
                covered@.len() == coarse_n,
                forall|cc: int|
                    0 <= cc < coarse_n ==> (#[trigger] covered@[cc] <==> exists|v: int|
                        0 <= v < cmap@.len() && #[trigger] cmap@[v] == cc),
                forall|cc: int| 0 <= cc < c ==> #[trigger] covered@[cc],
            decreases coarse_n - c,
        {
            if !covered[c] {
                proof {
                    assert(!covers(cmap@, coarse_n as int)) by {
                        assert(!targeted(cmap@, c as int));
                    }
                }
                return Err(PartitionError::InvalidGraph("coarse map must target every coarse vertex"));
            }
            c += 1;
        }
        proof {
            assert forall|cc: int| 0 <= cc < coarse_n implies #[trigger] targeted(cmap@, cc) by {
                assert(covered@[cc]);
            }
        }
        Ok(CoarseMap { cmap })
    }

    /// Wrap a map already known to be a valid fine-to-coarse map.
    pub(crate) fn from_validated(cmap: Vec<u32>) -> (r: Self)
        ensures
            r@ == cmap@,
    {
        CoarseMap { cmap }
    }

    pub fn as_slice(&self) -> (r: &[u32])
        ensures
            r@ == self@,
    {
        self.cmap.as_slice()
    }

    pub fn len(&self) -> (r: usize)
        ensures
            r == self@.len(),
    {
        self.cmap.len()
    }

    pub fn is_empty(&self) -> (r: bool)
        ensures
            r == (self@.len() == 0),
    {
        self.cmap.len() == 0
    }
}

} // verus!
