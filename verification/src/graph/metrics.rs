use vstd::prelude::*;

use super::csr::{CsrGraph, GraphView};

verus! {

/// Weight of the slots `lo..r` whose neighbour lies in another part than `v`.
pub open spec fn cross_weight(g: GraphView, a: Seq<u32>, v: int, lo: int, r: int) -> int
    decreases r - lo,
{
    if r <= lo {
        0
    } else {
        cross_weight(g, a, v, lo, r - 1) + if a[v] != a[g.nbr(r - 1)] {
            g.ew(r - 1)
        } else {
            0
        }
    }
}

/// Weight of the cut slots of the vertices below `i`; each cut edge is seen
/// from both of its ends.
pub open spec fn cut_total(g: GraphView, a: Seq<u32>, i: int) -> int
    decreases i,
{
    if i <= 0 {
        0
    } else {
        cut_total(g, a, i - 1) + cross_weight(g, a, i - 1, g.lo(i - 1), g.hi(i - 1))
    }
}

/// `x / 2` rounded toward zero.
pub open spec fn half_toward_zero(x: int) -> int {
    if x >= 0 {
        x / 2
    } else {
        -((-x) / 2)
    }
}

/// Edge cut of the assignment `a`: the weight of the cut slots halved.
pub open spec fn edge_cut(g: GraphView, a: Seq<u32>) -> int {
    half_toward_zero(cut_total(g, a, g.n()))
}

/// Weight of the cut slots of vertex `v`.
pub fn vertex_cross_weight(g: &CsrGraph, assignment: &[u32], v: usize) -> (r: i64)
    requires
        g@.sound(),
        assignment@.len() == g@.n(),
        (v as int) < g@.n(),
    ensures
        r == cross_weight(g@, assignment@, v as int, g@.lo(v as int), g@.hi(v as int)),
        -0x8000_0000 * (g@.hi(v as int) - g@.lo(v as int)) <= r <= 0x8000_0000 * (g@.hi(v as int) - g@.lo(
            v as int,
        )),
{
    let ghost gv = g@;
    let xadj = g.xadj();
    let adjncy = g.adjncy();
    proof {
        assert(gv.xadj[v as int] <= gv.xadj[v as int + 1] <= gv.xadj[gv.n()]);
    }
    let lo = xadj[v] as usize;
    let hi = xadj[v + 1] as usize;
    let mut s: i64 = 0;
    let mut j = lo;
    while j < hi
        invariant
            gv == g@,
            gv.sound(),
            xadj@ == gv.xadj,
            adjncy@ == gv.adjncy,
            assignment@.len() == gv.n(),
            (v as int) < gv.n(),
            lo == gv.lo(v as int),
            hi == gv.hi(v as int),
            hi <= gv.m(),
            lo <= j <= hi,
            s == cross_weight(gv, assignment@, v as int, lo as int, j as int),
            -0x8000_0000 * (j - lo) <= s <= 0x8000_0000 * (j - lo),
        decreases hi - j,
    {
        let u = adjncy[j] as usize;
        proof {
            assert((gv.adjncy[j as int] as int) < gv.n());
        }
        if assignment[v] != assignment[u] {
            s = s + g.edge_weight(j) as i64;
        }
        j += 1;
    }
    s
}

/// Edge cut of `assignment`: total weight of the edges whose ends lie in
/// different parts.
pub fn compute_cut(g: &CsrGraph, assignment: &[u32]) -> (r: i64)
    requires
        g@.sound(),
        assignment@.len() == g@.n(),
    ensures
        r == edge_cut(g@, assignment@),
{
    let ghost gv = g@;
    let n = g.n();
    let xadj = g.xadj();
    let mut total: i64 = 0;
    let mut v: usize = 0;
    while v < n
        invariant
            gv == g@,
            gv.sound(),
            n == gv.n(),
            xadj@ == gv.xadj,
            assignment@.len() == gv.n(),
            0 <= v <= n,
            total == cut_total(gv, assignment@, v as int),
            -0x8000_0000 * (gv.xadj[v as int] as int) <= total <= 0x8000_0000 * (gv.xadj[v as int] as int),
        decreases n - v,
    {
        proof {
            assert(gv.xadj[v as int] <= gv.xadj[v as int + 1] <= gv.xadj[gv.n()]);
        }
        let w = vertex_cross_weight(g, assignment, v);
        total = total + w;
        v += 1;
    }
    total / 2
}

} // verus!
