use vstd::prelude::*;

use crate::coarsen::matching::{count_true, lemma_count_true_bounds};
use crate::graph::csr::{CsrGraph, GraphView};
use crate::graph::partition::Partition;

verus! {

/// Vertex `v` has a neighbour in another part.
pub open spec fn on_boundary(g: GraphView, a: Seq<u32>, v: int) -> bool {
    exists|j: int| g.lo(v) <= j < g.hi(v) && #[trigger] a[g.nbr(j)] != a[v]
}

/// A set of vertices held as one flag per vertex.
pub struct BoundarySet {
    inner: Vec<bool>,
}

impl View for BoundarySet {
    type V = Seq<bool>;

    closed spec fn view(&self) -> Seq<bool> {
        self.inner@
    }
}

/// Whether some slot of `v` leads into another part.
pub(crate) fn crosses_pub(g: &CsrGraph, a: &[u32], v: usize) -> (r: bool)
    requires
        g@.sound(),
        a@.len() == g@.n(),
        (v as int) < g@.n(),
    ensures
        r == on_boundary(g@, a@, v as int),
{
    let ghost gv = g@;
    let xadj = g.xadj();
    let adjncy = g.adjncy();
    proof {
        assert(gv.xadj[v as int] <= gv.xadj[v as int + 1] <= gv.xadj[gv.n()]);
    }
    let lo = xadj[v] as usize;
    let hi = xadj[v + 1] as usize;
    let mut j = lo;
    while j < hi
        invariant
            gv == g@,
            gv.sound(),
            xadj@ == gv.xadj,
            adjncy@ == gv.adjncy,
            a@.len() == gv.n(),
            (v as int) < gv.n(),
            lo == gv.lo(v as int),
            hi == gv.hi(v as int),
            hi <= gv.m(),
            lo <= j <= hi,
            forall|jj: int| lo <= jj < j ==> #[trigger] a@[gv.nbr(jj)] == a@[v as int],
        decreases hi - j,
    {
        let u = adjncy[j] as usize;
        proof {
            assert((gv.adjncy[j as int] as int) < gv.n());
        }
        if a[u] != a[v] {
            proof {
                assert(a@[gv.nbr(j as int)] != a@[v as int]);
            }
            return true;
        }
        j += 1;
    }
    false
}

/// `true` exactly at the boundary vertices of `a`.
pub fn boundary_flags(g: &CsrGraph, a: &[u32]) -> (r: Vec<bool>)
    requires
        g@.sound(),
        a@.len() == g@.n(),
    ensures
        r@.len() == g@.n(),
        forall|v: int| 0 <= v < g@.n() ==> #[trigger] r@[v] == on_boundary(g@, a@, v),
{
    let n = g.n();
    let mut r: Vec<bool> = Vec::new();
    let mut v: usize = 0;
    while v < n
        invariant
            g@.sound(),
            n == g@.n(),
            a@.len() == g@.n(),
            0 <= v <= n,
            r@.len() == v,
            forall|u: int| 0 <= u < v ==> #[trigger] r@[u] == on_boundary(g@, a@, u),
        decreases n - v,
    {
        r.push(crosses_pub(g, a, v));
        v += 1;
    }
    r
}

impl BoundarySet {
    /// The set whose flags are `inner`.
    pub(crate) fn from_flags(inner: Vec<bool>) -> (b: Self)
        ensures
            b@ == inner@,
    {
        BoundarySet { inner }
    }

    /// The vertices of `g` with a neighbour in another part of `p`.
    pub fn from_partition(g: &CsrGraph, p: &Partition) -> (b: Self)
        requires
            g@.sound(),
            p@.assignment.len() == g@.n(),
        ensures
            b@.len() == g@.n(),
            forall|v: int| 0 <= v < g@.n() ==> #[trigger] b@[v] == on_boundary(g@, p@.assignment, v),
    {
        BoundarySet { inner: boundary_flags(g, p.assignment()) }
    }

    pub fn contains(&self, v: u32) -> (r: bool)
        requires
            (v as int) < self@.len(),
        ensures
            r == self@[v as int],
    {
        self.inner[v as usize]
    }

    pub fn insert(&mut self, v: u32)
        requires
            (v as int) < old(self)@.len(),
        ensures
            final(self)@ == old(self)@.update(v as int, true),
    {
        self.inner.set(v as usize, true);
    }

    pub fn remove(&mut self, v: u32)
        requires
            (v as int) < old(self)@.len(),
        ensures
            final(self)@ == old(self)@.update(v as int, false),
    {
        self.inner.set(v as usize, false);
    }

    /// The members in increasing order.
    pub fn iter(&self) -> (r: Vec<u32>)
        requires
            self@.len() <= 0x1_0000_0000,
        ensures
            forall|i: int, j: int| 0 <= i < j < r@.len() ==> r@[i] < r@[j],
            forall|t: int| 0 <= t < r@.len() ==> (#[trigger] r@[t] as int) < self@.len() && self@[r@[t] as int],
            forall|v: int| 0 <= v < self@.len() && #[trigger] self@[v] ==> r@.contains(v as u32),
            r@.len() == count_true(self@),
    {
        let mut r: Vec<u32> = Vec::new();
        let mut v: usize = 0;
        while v < self.inner.len()
            invariant
                self@.len() <= 0x1_0000_0000,
                0 <= v <= self@.len(),
                forall|i: int, j: int| 0 <= i < j < r@.len() ==> r@[i] < r@[j],
                forall|t: int| 0 <= t < r@.len() ==> (#[trigger] r@[t] as int) < v && self@[r@[t] as int],
                forall|w: int| 0 <= w < v && #[trigger] self@[w] ==> r@.contains(w as u32),
            decreases self@.len() - v,
        {
            if self.inner[v] {
                let ghost r0 = r@;
                r.push(v as u32);
                proof {
                    assert forall|w: int| 0 <= w < v + 1 && #[trigger] self@[w] implies r@.contains(w as u32) by {
                        if w < v {
                            let t = choose|t: int| 0 <= t < r0.len() && r0[t] == w as u32;
                            assert(r@[t] == w as u32);
                        } else {
                            assert(r@[r@.len() - 1] == w as u32);
                        }
                    }
                }
            }
            v += 1;
        }
        proof {
            lemma_listing_count(self@, r@);
        }
        r
    }

    /// Number of members.
    pub fn len(&self) -> (r: usize)
        ensures
            r == count_true(self@),
    {
        let mut c: usize = 0;
        let mut v: usize = 0;
        while v < self.inner.len()
            invariant
                0 <= v <= self@.len(),
                c == count_true(self@.take(v as int)),
                c <= v,
            decreases self@.len() - v,
        {
            proof {
                assert(self@.take(v + 1).drop_last() =~= self@.take(v as int));
            }
            if self.inner[v] {
                c += 1;
            }
            v += 1;
        }
        proof {
            assert(self@.take(self@.len() as int) =~= self@);
        }
        c
    }

    /// True when there are no members: exactly when `len` is zero.
    pub fn is_empty(&self) -> (r: bool)
        ensures
            r == (forall|v: int| 0 <= v < self@.len() ==> !#[trigger] self@[v]),
            r == (count_true(self@) == 0),
    {
        proof {
            lemma_count_true_zero(self@);
        }
        let mut v: usize = 0;
        while v < self.inner.len()
            invariant
                0 <= v <= self@.len(),
                forall|w: int| 0 <= w < v ==> !#[trigger] self@[w],
            decreases self@.len() - v,
        {
            if self.inner[v] {
                proof {
                    assert(self@[v as int]);
                    lemma_count_true_zero(self@);
                }
                return false;
            }
            v += 1;
        }
        true
    }
}

/// An increasing listing of exactly the set flags (as `iter` returns it)
/// has `count_true` entries (what `len` returns), and is empty exactly
/// when no flag is set (what `is_empty` returns).
pub proof fn lemma_listing_count(flags: Seq<bool>, r: Seq<u32>)
    requires
        flags.len() <= 0x1_0000_0000,
        forall|i: int, j: int| 0 <= i < j < r.len() ==> r[i] < r[j],
        forall|t: int| 0 <= t < r.len() ==> (#[trigger] r[t] as int) < flags.len() && flags[r[t] as int],
        forall|v: int| 0 <= v < flags.len() && #[trigger] flags[v] ==> r.contains(v as u32),
    ensures
        r.len() == count_true(flags),
        r.len() == 0 <==> forall|v: int| 0 <= v < flags.len() ==> !#[trigger] flags[v],
    decreases flags.len(),
{
    if r.len() > 0 {
        assert(flags[r[0] as int]);
    }
    if flags.len() == 0 {
        if r.len() > 0 {
            assert((r[0] as int) < 0);
        }
    } else {
        let n = flags.len() - 1;
        let f2 = flags.drop_last();
        if flags[n] {
            assert(r.contains(n as u32));
            let t = choose|t: int| 0 <= t < r.len() && r[t] == n as u32;
            let l = r.len() - 1;
            if t < l {
                assert(r[t] < r[l]);
            }
            assert(r[l] as int == n);
            let r2 = r.drop_last();
            assert forall|tt: int| 0 <= tt < r2.len() implies (#[trigger] r2[tt] as int) < f2.len() && f2[r2[tt] as int] by {
                assert(r[tt] < r[l]);
            }
            assert forall|v: int| 0 <= v < f2.len() && #[trigger] f2[v] implies r2.contains(v as u32) by {
                assert(flags[v]);
                let tt = choose|tt: int| 0 <= tt < r.len() && r[tt] == v as u32;
                assert(tt != l);
                assert(r2[tt] == v as u32);
            }
            lemma_listing_count(f2, r2);
        } else {
            assert forall|tt: int| 0 <= tt < r.len() implies (#[trigger] r[tt] as int) < f2.len() && f2[r[tt] as int] by {
                assert(flags[r[tt] as int]);
            }
            assert forall|v: int| 0 <= v < f2.len() && #[trigger] f2[v] implies r.contains(v as u32) by {
                assert(flags[v]);
            }
            lemma_listing_count(f2, r);
        }
    }
    if r.len() == 0 {
        assert forall|v: int| 0 <= v < flags.len() implies !#[trigger] flags[v] by {
            if flags[v] {
                assert(r.contains(v as u32));
            }
        }
    }
}

/// No flag is set exactly when none is counted.
pub proof fn lemma_count_true_zero(s: Seq<bool>)
    ensures
        count_true(s) == 0 <==> forall|v: int| 0 <= v < s.len() ==> !#[trigger] s[v],
    decreases s.len(),
{
    if s.len() > 0 {
        lemma_count_true_zero(s.drop_last());
        crate::coarsen::matching::lemma_count_true_bounds(s.drop_last());
        if forall|v: int| 0 <= v < s.len() ==> !#[trigger] s[v] {
            assert forall|v: int| 0 <= v < s.drop_last().len() implies !#[trigger] s.drop_last()[v] by {
                assert(!s[v]);
            }
        }
        if count_true(s) == 0 {
            assert forall|v: int| 0 <= v < s.len() implies !#[trigger] s[v] by {
                if v < s.len() - 1 {
                    assert(!s.drop_last()[v]);
                }
            }
        }
    }
}

} // verus!
