use vstd::prelude::*;

use crate::graph::csr::{CsrGraph, GraphView};
use crate::graph::partition::{Partition, PartitionView};
use crate::refine::fm::{share_target, share_target_of};
use crate::refine::gains::part_weight;
use crate::api::{div_toward_zero, part_weight_sum, share_total};
use crate::refine::fm::epsilon_spec;
use crate::util::{clamp_i64, sat_add, sat_mul};

verus! {

/// The partition `q` is `p` with some vertices moved between parts below `k`.
pub open spec fn reassigned(p: PartitionView, q: PartitionView) -> bool {
    &&& q.k == p.k
    &&& q.tpwgts == p.tpwgts
    &&& q.assignment.len() == p.assignment.len()
    &&& forall|v: int| 0 <= v < q.assignment.len() ==> #[trigger] q.assignment[v] < q.k
}

/// The contents of an optional slice of shares.
pub open spec fn opt_slice_u32_view(t: Option<&[u32]>) -> Option<Seq<u32>> {
    match t {
        Some(s) => Some(s@),
        None => None,
    }
}

/// Running sum of `w[0..i]`, each step saturating.
pub open spec fn sat_weight_total(w: Seq<i32>, i: int) -> int
    decreases i,
{
    if i <= 0 {
        0
    } else {
        clamp_i64(sat_weight_total(w, i - 1) + w[i - 1]) as int
    }
}

/// Limit on a part's weight when rebalancing: `avg = ceil(total / k)` and
/// the allowance `ceil(avg * ufactor / 1000)` added to it, each step
/// saturating and dividing toward zero as the exact-width arithmetic does.
pub open spec fn rebalance_limit(w: Seq<i32>, k: int, ufactor: u32) -> int {
    let total = sat_weight_total(w, w.len() as int);
    let avg = div_toward_zero(clamp_i64(total + k - 1) as int, k);
    let eps = div_toward_zero(clamp_i64(clamp_i64(avg * ufactor) + 999) as int, 1000);
    clamp_i64(avg + eps) as int
}

/// A per-part sum over `i` vertices lies within `i` times the range of one
/// weight.
pub proof fn lemma_part_weight_sum_bounds(w: Seq<i32>, a: Seq<u32>, p: int, i: int)
    requires
        i >= 0,
    ensures
        -0x8000_0000 * i <= part_weight_sum(w, a, p, i) <= 0x7fff_ffff * i,
    decreases i,
{
    if i > 0 {
        lemma_part_weight_sum_bounds(w, a, p, i - 1);
    }
}

/// Moving `v` from its part to `to` moves its weight between the two sums.
pub proof fn lemma_part_weight_sum_move(w: Seq<i32>, a: Seq<u32>, v: int, to: u32, p: int, i: int)
    requires
        0 <= v < a.len(),
        0 <= i <= a.len(),
    ensures
        part_weight_sum(w, a.update(v, to), p, i) == part_weight_sum(w, a, p, i) + if v < i {
            (if to as int == p {
                w[v] as int
            } else {
                0
            }) - (if a[v] as int == p {
                w[v] as int
            } else {
                0
            })
        } else {
            0
        },
    decreases i,
{
    if i > 0 {
        lemma_part_weight_sum_move(w, a, v, to, p, i - 1);
    }
}

/// Sum of `vwgt[0..len]`, with saturation.
fn total_weight(g: &CsrGraph) -> (r: i64)
    requires
        g@.sound(),
    ensures
        r == sat_weight_total(g@.vwgt, g@.vwgt.len() as int),
{
    let vw = g.vwgt();
    let mut t: i64 = 0;
    let mut i: usize = 0;
    while i < vw.len()
        invariant
            0 <= i <= vw@.len(),
            vw@ == g@.vwgt,
            t == sat_weight_total(vw@, i as int),
        decreases vw@.len() - i,
    {
        t = sat_add(t, vw[i] as i64);
        i += 1;
    }
    t
}

/// Weight per part, taking `vwgt[v]` as the weight of vertex `v`.
fn first_weight_per_part(g: &CsrGraph, a: &[u32], k: u32) -> (r: Vec<i64>)
    requires
        g@.sound(),
        a@.len() == g@.n(),
        forall|v: int| 0 <= v < a@.len() ==> #[trigger] a@[v] < k,
    ensures
        r@.len() == k,
        forall|p: int| 0 <= p < k ==> #[trigger] r@[p] == part_weight_sum(g@.vwgt, a@, p, g@.n()),
{
    let n = g.n();
    let vw = g.vwgt();
    let vlen = vw.len();
    let mut r: Vec<i64> = vec![0i64; k as usize];
    let mut v: usize = 0;
    while v < n
        invariant
            g@.sound(),
            n == g@.n(),
            vw@ == g@.vwgt,
            vlen == vw@.len(),
            a@.len() == n,
            forall|u: int| 0 <= u < a@.len() ==> #[trigger] a@[u] < k,
            0 <= v <= n,
            r@.len() == k,
            forall|p: int| 0 <= p < k ==> #[trigger] r@[p] == part_weight_sum(g@.vwgt, a@, p, v as int),
        decreases n - v,
    {
        proof {
            assert(vlen == g@.n() * g@.ncon);
            assert((v as int) < g@.n() * g@.ncon) by (nonlinear_arith)
                requires
                    (v as int) < g@.n(),
                    g@.ncon >= 1,
            ;
        }
        let p = a[v] as usize;
        proof {
            lemma_part_weight_sum_bounds(g@.vwgt, a@, p as int, v + 1);
            assert(g@.n() <= 0x1_0000_0000);
            assert(0x7fff_ffff * (v + 1) <= 0x7fff_ffff * 0x1_0000_0000);
            assert(-0x8000_0000 * (v + 1) >= -0x8000_0000 * 0x1_0000_0000);
        }
        let w = sat_add(r[p], vw[v] as i64);
        r.set(p, w);
        v += 1;
    }
    r
}

/// `ceil(|t| * ufactor / 1000)`, saturating.
fn tolerance(t: i64, ufactor: u32) -> (r: i64)
    ensures
        r == epsilon_spec(t, ufactor),
{
    let a = if t < 0 {
        if t == i64::MIN {
            i64::MAX
        } else {
            -t
        }
    } else {
        t
    };
    sat_add(sat_mul(a, ufactor as i64), 999) / 1000
}

/// Label-propagation target of part `p`: the part's share of the total when
/// there is one share per part, else the total divided by `k`, rounding
/// toward zero.
pub open spec fn lp_target(total: int, k: u32, tpwgts: Option<Seq<u32>>, p: int) -> int {
    match tpwgts {
        Some(t) => if t.len() == k {
            share_target(total, t[p] as int, share_total(t))
        } else {
            div_toward_zero(total, k as int)
        },
        None => div_toward_zero(total, k as int),
    }
}

/// Targets of label propagation: proportional to the shares when there is one
/// per part, else the total divided evenly.
fn lp_targets(total: i64, k: u32, tpwgts: Option<&[u32]>) -> (r: Vec<i64>)
    requires
        k >= 1,
    ensures
        r@.len() == k,
        forall|p: int| 0 <= p < k ==> #[trigger] r@[p] == lp_target(total as int, k, opt_slice_u32_view(tpwgts), p),
{
    let mut r: Vec<i64> = Vec::new();
    let mut sum: u64 = 0;
    let use_shares = match tpwgts {
        Some(t) => t.len() == k as usize,
        None => false,
    };
    if use_shares {
        let t = tpwgts.unwrap();
        let mut p: usize = 0;
        while p < t.len()
            invariant
                0 <= p <= t@.len(),
                t@.len() == k,
                sum <= p * 0xffff_ffff,
                forall|q: int| 0 <= q < p ==> #[trigger] t@[q] <= sum,
                sum == share_total(t@.take(p as int)),
            decreases t@.len() - p,
        {
            proof {
                assert(t@.take(p + 1).drop_last() =~= t@.take(p as int));
            }
            sum = sum + t[p] as u64;
            p += 1;
        }
        proof {
            assert(t@.take(t@.len() as int) =~= t@);
        }
        let mut p: usize = 0;
        while p < t.len()
            invariant
                0 <= p <= t@.len(),
                t@.len() == k,
                forall|q: int| 0 <= q < t@.len() ==> #[trigger] t@[q] <= sum,
                r@.len() == p,
                sum == share_total(t@),
                tpwgts == Some(t),
                forall|q: int| 0 <= q < p ==> #[trigger] r@[q] == lp_target(total as int, k, opt_slice_u32_view(tpwgts), q),
            decreases t@.len() - p,
        {
            r.push(share_target_of(total, t[p], sum));
            p += 1;
        }
    } else {
        let mut p: u32 = 0;
        while p < k
            invariant
                0 <= p <= k,
                r@.len() == p,
                !use_shares,
                use_shares == (match tpwgts {
                    Some(t) => t@.len() == k,
                    None => false,
                }),
                forall|q: int| 0 <= q < p ==> #[trigger] r@[q] == lp_target(total as int, k, opt_slice_u32_view(tpwgts), q),
            decreases k - p,
        {
            r.push(total / (k as i64));
            p += 1;
        }
    }
    r
}

/// The window of part `p` in label propagation: its target less and plus
/// its allowance, the targets taken from the total vertex weight.
pub open spec fn lp_window(g: GraphView, k: u32, tpwgts: Option<Seq<u32>>, ufactor: u32, p: int) -> (int, int) {
    let t = lp_target(sat_weight_total(g.vwgt, g.vwgt.len() as int), k, tpwgts, p);
    let e = epsilon_spec(t as i64, ufactor);
    (clamp_i64(t - e) as int, clamp_i64(t + e) as int)
}

/// A weight that started at `start` and is now `now` has not moved away
/// from the window `lo..=hi`: it is no higher than the larger of its start
/// and `hi`, and no lower than the smaller of its start and `lo`.
pub open spec fn kept_toward(start: int, now: int, lo: int, hi: int) -> bool {
    &&& now <= (if start >= hi {
        start
    } else {
        hi
    })
    &&& now >= (if start <= lo {
        start
    } else {
        lo
    })
}

/// The lightest part, other than `from`, among the neighbours listed in the
/// slots `lo..r` (the first met among equally light ones), or -1 if there is
/// none.
pub open spec fn lightest_adjacent(g: GraphView, a: Seq<u32>, pw: Seq<i64>, from: int, lo: int, r: int) -> int
    decreases r - lo,
{
    if r <= lo {
        -1
    } else {
        let prev = lightest_adjacent(g, a, pw, from, lo, r - 1);
        let to = a[g.nbr(r - 1)] as int;
        if to == from {
            prev
        } else if prev < 0 || pw[to] < pw[prev] {
            to
        } else {
            prev
        }
    }
}

/// Label propagation would move `v` out of `a` as it stands: `v` borders
/// another part, its own part lies above its window, and moving it to the
/// lightest adjacent part keeps its own part at or above its window's low
/// end and the destination at or below its window's high end.
pub open spec fn lp_move_open(g: GraphView, a: Seq<u32>, k: u32, tp: Option<Seq<u32>>, ufactor: u32, v: int) -> bool {
    let pw = loads_of(g.vwgt, a, k as int, g.n());
    let from = a[v] as int;
    let to = lightest_adjacent(g, a, pw, from, g.lo(v), g.hi(v));
    let w = g.vwgt[v] as int;
    &&& to >= 0
    &&& pw[from] > lp_window(g, k, tp, ufactor, from).1
    &&& clamp_i64(pw[from] - w) >= lp_window(g, k, tp, ufactor, from).0
    &&& clamp_i64(pw[to] + w) <= lp_window(g, k, tp, ufactor, to).1
}

/// One step of a sweep: `v` moves to its lightest adjacent part when label
/// propagation would move it, else `a` stays.
pub open spec fn lp_step(g: GraphView, a: Seq<u32>, k: u32, tp: Option<Seq<u32>>, ufactor: u32, v: int) -> Seq<u32> {
    if lp_move_open(g, a, k, tp, ufactor, v) {
        a.update(v, lightest_adjacent(g, a, loads_of(g.vwgt, a, k as int, g.n()), a[v] as int, g.lo(v), g.hi(v)) as u32)
    } else {
        a
    }
}

/// A sweep over the vertices below `v`, in index order: the assignment it
/// leaves and whether it moved a vertex.
pub open spec fn lp_sweep(g: GraphView, a: Seq<u32>, k: u32, tp: Option<Seq<u32>>, ufactor: u32, v: int) -> (Seq<u32>, bool)
    decreases v,
{
    if v <= 0 {
        (a, false)
    } else {
        let prev = lp_sweep(g, a, k, tp, ufactor, v - 1);
        (lp_step(g, prev.0, k, tp, ufactor, v - 1), prev.1 || lp_move_open(g, prev.0, k, tp, ufactor, v - 1))
    }
}

/// The assignment after at most `iters` sweeps from `a`, stopping after a
/// sweep that moves nothing.
pub open spec fn lp_run(g: GraphView, a: Seq<u32>, k: u32, tp: Option<Seq<u32>>, ufactor: u32, iters: nat) -> Seq<u32>
    decreases iters,
{
    if iters == 0 {
        a
    } else {
        let s = lp_sweep(g, a, k, tp, ufactor, g.n());
        if !s.1 {
            s.0
        } else {
            lp_run(g, s.0, k, tp, ufactor, (iters - 1) as nat)
        }
    }
}

/// Label-propagation balancing: for up to `max_iter` sweeps, each boundary
/// vertex of an overloaded part (above target plus tolerance) moves to its
/// lightest adjacent part when both parts stay within target plus or minus
/// tolerance afterwards. A sweep without moves ends the process.
pub fn lp_balance(g: &CsrGraph, partition: &mut Partition, ufactor: u32, max_iter: u32)
    requires
        g@.sound(),
        old(partition)@.fits(g@),
    ensures
        reassigned(old(partition)@, final(partition)@),
        max_iter == 0 || old(partition)@.k <= 1 ==> final(partition)@ == old(partition)@,
        (forall|q: int|
            0 <= q < old(partition)@.k ==> #[trigger] loads_of(g@.vwgt, old(partition)@.assignment, old(partition)@.k as int, g@.n())[q]
                <= lp_window(g@, old(partition)@.k, old(partition)@.tpwgts, ufactor, q).1) ==> final(partition)@.assignment
            == old(partition)@.assignment,
        g@.positive() ==> forall|p: int|
            0 <= p < old(partition)@.k ==> kept_toward(
                part_weight_sum(g@.vwgt, old(partition)@.assignment, p, g@.n()),
                #[trigger] part_weight_sum(g@.vwgt, final(partition)@.assignment, p, g@.n()),
                lp_window(g@, old(partition)@.k, old(partition)@.tpwgts, ufactor, p).0,
                lp_window(g@, old(partition)@.k, old(partition)@.tpwgts, ufactor, p).1,
            ),
        old(partition)@.k >= 2 ==> final(partition)@.assignment == lp_run(
            g@,
            old(partition)@.assignment,
            old(partition)@.k,
            old(partition)@.tpwgts,
            ufactor,
            max_iter as nat,
        ),
        g@.positive() && max_iter >= 1 && old(partition)@.k >= 2 && (exists|v: int|
            0 <= v < g@.n() && #[trigger] lp_move_open(
                g@,
                old(partition)@.assignment,
                old(partition)@.k,
                old(partition)@.tpwgts,
                ufactor,
                v,
            )) ==> exists|p: int|
            0 <= p < old(partition)@.k && part_weight_sum(g@.vwgt, old(partition)@.assignment, p, g@.n()) > lp_window(
                g@,
                old(partition)@.k,
                old(partition)@.tpwgts,
                ufactor,
                p,
            ).1 && #[trigger] part_weight_sum(g@.vwgt, final(partition)@.assignment, p, g@.n()) < part_weight_sum(
                g@.vwgt,
                old(partition)@.assignment,
                p,
                g@.n(),
            ),
{
    proof {
        if forall|q: int|
            0 <= q < partition@.k ==> #[trigger] loads_of(g@.vwgt, partition@.assignment, partition@.k as int, g@.n())[q]
                <= lp_window(g@, partition@.k, partition@.tpwgts, ufactor, q).1 {
            lemma_lp_keeps_balanced(g@, partition@.assignment, partition@.k, partition@.tpwgts, ufactor, max_iter as nat);
        }
    }
    if max_iter == 0 {
        return;
    }
    let n = g.n();
    let k = partition.k();
    if k <= 1 {
        return;
    }
    let ghost p0 = partition@;
    let ghost gv = g@;
    let total = total_weight(g);
    let tp = partition.tpwgts();
    proof {
        assert(opt_slice_u32_view(tp) == p0.tpwgts);
    }
    let targets = lp_targets(total, k, tp);
    let mut eps: Vec<i64> = Vec::new();
    let mut p: usize = 0;
    while p < targets.len()
        invariant
            0 <= p <= targets@.len(),
            eps@.len() == p,
            forall|q: int| 0 <= q < p ==> #[trigger] eps@[q] == epsilon_spec(targets@[q], ufactor),
        decreases targets@.len() - p,
    {
        eps.push(tolerance(targets[p], ufactor));
        p += 1;
    }
    let mut pwgts = first_weight_per_part(g, partition.assignment(), k);
    let vw = g.vwgt();
    let vlen = vw.len();
    let xadj = g.xadj();
    let adjncy = g.adjncy();
    let mut iter: u32 = 0;
    let ghost mut first: int = -1;
    let ghost mut nomove: bool = false;
    while iter < max_iter
        invariant_except_break
            lp_run(gv, p0.assignment, k, p0.tpwgts, ufactor, max_iter as nat) == lp_run(
                gv,
                partition@.assignment,
                k,
                p0.tpwgts,
                ufactor,
                (max_iter - iter) as nat,
            ),
        invariant
            max_iter >= 1,
            iter <= max_iter,
            first < 0 ==> iter == 0 && partition@ == p0,
            first >= 0 ==> 0 <= first < k && (gv.positive() ==> part_weight_sum(gv.vwgt, p0.assignment, first, n as int)
                > lp_window(gv, k, p0.tpwgts, ufactor, first).1 && part_weight_sum(
                gv.vwgt,
                partition@.assignment,
                first,
                n as int,
            ) < part_weight_sum(gv.vwgt, p0.assignment, first, n as int)),
            nomove ==> forall|u: int| 0 <= u < n ==> !#[trigger] lp_move_open(gv, p0.assignment, k, p0.tpwgts, ufactor, u),
            gv == g@,
            gv.sound(),
            n == gv.n(),
            vw@ == gv.vwgt,
            vlen == vw@.len(),
            xadj@ == gv.xadj,
            adjncy@ == gv.adjncy,
            k == p0.k,
            k >= 2,
            reassigned(p0, partition@),
            partition@.assignment.len() == n,
            targets@.len() == k,
            eps@.len() == k,
            pwgts@.len() == k,
            n <= 0x1_0000_0000,
            forall|q: int| 0 <= q < k ==> #[trigger] eps@[q] == epsilon_spec(targets@[q], ufactor),
            forall|q: int|
                0 <= q < k ==> #[trigger] targets@[q] == lp_target(
                    sat_weight_total(gv.vwgt, gv.vwgt.len() as int),
                    k,
                    p0.tpwgts,
                    q,
                ),
            forall|q: int| 0 <= q < k ==> #[trigger] pwgts@[q] == part_weight_sum(gv.vwgt, partition@.assignment, q, n as int),
            gv.positive() ==> forall|q: int|
                0 <= q < k ==> kept_toward(
                    part_weight_sum(gv.vwgt, p0.assignment, q, n as int),
                    #[trigger] part_weight_sum(gv.vwgt, partition@.assignment, q, n as int),
                    lp_window(gv, k, p0.tpwgts, ufactor, q).0,
                    lp_window(gv, k, p0.tpwgts, ufactor, q).1,
                ),
        ensures
            first >= 0 || nomove,
            lp_run(gv, p0.assignment, k, p0.tpwgts, ufactor, max_iter as nat) == partition@.assignment,
        decreases max_iter - iter,
    {
        let mut moved: usize = 0;
        let ghost a_s = partition@.assignment;
        let mut v: usize = 0;
        while v < n
            invariant
                lp_sweep(gv, a_s, k, p0.tpwgts, ufactor, v as int) == (partition@.assignment, moved > 0),
                first < 0 ==> iter == 0 && partition@ == p0 && moved == 0,
                first < 0 ==> forall|u: int| 0 <= u < v ==> !#[trigger] lp_move_open(gv, p0.assignment, k, p0.tpwgts, ufactor, u),
                first >= 0 ==> 0 <= first < k && (gv.positive() ==> part_weight_sum(gv.vwgt, p0.assignment, first, n as int)
                    > lp_window(gv, k, p0.tpwgts, ufactor, first).1 && part_weight_sum(
                    gv.vwgt,
                    partition@.assignment,
                    first,
                    n as int,
                ) < part_weight_sum(gv.vwgt, p0.assignment, first, n as int)),
                gv == g@,
                gv.sound(),
                n == gv.n(),
                vw@ == gv.vwgt,
                vlen == vw@.len(),
                xadj@ == gv.xadj,
                adjncy@ == gv.adjncy,
                k == p0.k,
                reassigned(p0, partition@),
                partition@.assignment.len() == n,
                targets@.len() == k,
                eps@.len() == k,
                pwgts@.len() == k,
                0 <= v <= n,
                moved <= v,
                n <= 0x1_0000_0000,
                forall|q: int| 0 <= q < k ==> #[trigger] eps@[q] == epsilon_spec(targets@[q], ufactor),
                forall|q: int|
                    0 <= q < k ==> #[trigger] targets@[q] == lp_target(
                        sat_weight_total(gv.vwgt, gv.vwgt.len() as int),
                        k,
                        p0.tpwgts,
                        q,
                    ),
                forall|q: int| 0 <= q < k ==> #[trigger] pwgts@[q] == part_weight_sum(gv.vwgt, partition@.assignment, q, n as int),
                gv.positive() ==> forall|q: int|
                    0 <= q < k ==> kept_toward(
                        part_weight_sum(gv.vwgt, p0.assignment, q, n as int),
                        #[trigger] part_weight_sum(gv.vwgt, partition@.assignment, q, n as int),
                        lp_window(gv, k, p0.tpwgts, ufactor, q).0,
                        lp_window(gv, k, p0.tpwgts, ufactor, q).1,
                    ),
            decreases n - v,
        {
            let from = partition.assignment()[v] as usize;
            proof {
                assert(vlen == gv.n() * gv.ncon);
                assert((v as int) < gv.n() * gv.ncon) by (nonlinear_arith)
                    requires
                        (v as int) < gv.n(),
                        gv.ncon >= 1,
                ;
                assert(gv.xadj[v as int] <= gv.xadj[v as int + 1] <= gv.xadj[gv.n()]);
            }
            let w = vw[v] as i64;
            let lo = xadj[v] as usize;
            let hi = xadj[v + 1] as usize;
            // boundary test and lightest adjacent part (first among equals)
            let mut boundary = false;
            let mut best_to: Option<usize> = None;
            let mut j = lo;
            while j < hi
                invariant
                    gv == g@,
                    gv.sound(),
                    xadj@ == gv.xadj,
                    adjncy@ == gv.adjncy,
                    partition@.assignment.len() == n,
                    n == gv.n(),
                    k == partition@.k,
                    forall|u: int| 0 <= u < n ==> #[trigger] partition@.assignment[u] < k,
                    pwgts@.len() == k,
                    lo <= j <= hi,
                    hi <= gv.m(),
                    best_to matches Some(t) ==> t < k && t != from,
                    (v as int) < n,
                    from == partition@.assignment[v as int],
                    lo == gv.lo(v as int),
                    boundary <==> best_to is Some,
                    match best_to {
                        Some(t) => t as int == lightest_adjacent(gv, partition@.assignment, pwgts@, from as int, lo as int, j as int),
                        None => lightest_adjacent(gv, partition@.assignment, pwgts@, from as int, lo as int, j as int) == -1,
                    },
                decreases hi - j,
            {
                let u = adjncy[j] as usize;
                proof {
                    assert((gv.adjncy[j as int] as int) < gv.n());
                }
                let to = partition.assignment()[u] as usize;
                if to != from {
                    boundary = true;
                    let better = match best_to {
                        None => true,
                        Some(b) => pwgts[to] < pwgts[b],
                    };
                    if better {
                        best_to = Some(to);
                    }
                }
                j += 1;
            }
            let ghost cur = partition@.assignment;
            proof {
                if first < 0 {
                    assert(pwgts@ =~= loads_of(gv.vwgt, p0.assignment, k as int, n as int));
                }
                assert(pwgts@ =~= loads_of(gv.vwgt, cur, k as int, n as int));
                assert(eps@[from as int] >= 0);
                assert(targets@[from as int] == lp_target(sat_weight_total(gv.vwgt, gv.vwgt.len() as int), k, p0.tpwgts, from as int));
            }
            if boundary && pwgts[from] > sat_add(targets[from], eps[from]) {
                if let Some(to) = best_to {
                    let neg_w = -w;
                    let new_from = sat_add(pwgts[from], neg_w);
                    let new_to = sat_add(pwgts[to], w);
                    let lo_lim = sat_add(targets[from], if eps[from] == i64::MIN { i64::MAX } else { -eps[from] });
                    let hi_lim = sat_add(targets[to], eps[to]);
                    if new_from >= lo_lim && new_to <= hi_lim {
                        let ghost a_before = partition@.assignment;
                        proof {
                            assert(a_before[v as int] as int == from as int);
                            lemma_part_weight_sum_move(gv.vwgt, a_before, v as int, to as u32, from as int, n as int);
                            lemma_part_weight_sum_move(gv.vwgt, a_before, v as int, to as u32, to as int, n as int);
                            lemma_part_weight_sum_bounds(gv.vwgt, a_before.update(v as int, to as u32), from as int, n as int);
                            lemma_part_weight_sum_bounds(gv.vwgt, a_before.update(v as int, to as u32), to as int, n as int);
                            assert(0x7fff_ffff * n <= 0x7fff_ffff * 0x1_0000_0000);
                            assert(-0x8000_0000 * n >= -0x8000_0000 * 0x1_0000_0000);
                        }
                        partition.set_part(v, to as u32);
                        pwgts.set(from, new_from);
                        pwgts.set(to, new_to);
                        proof {
                            let a2 = partition@.assignment;
                            assert(a2 == a_before.update(v as int, to as u32));
                            assert forall|q: int| 0 <= q < k implies #[trigger] pwgts@[q] == part_weight_sum(
                                gv.vwgt,
                                a2,
                                q,
                                n as int,
                            ) by {
                                lemma_part_weight_sum_move(gv.vwgt, a_before, v as int, to as u32, q, n as int);
                            }
                            if gv.positive() {
                                assert(gv.vwgt[v as int] > 0);
                                assert(eps@[from as int] >= 0);
                                assert forall|q: int| 0 <= q < k implies kept_toward(
                                    part_weight_sum(gv.vwgt, p0.assignment, q, n as int),
                                    #[trigger] part_weight_sum(gv.vwgt, a2, q, n as int),
                                    lp_window(gv, k, p0.tpwgts, ufactor, q).0,
                                    lp_window(gv, k, p0.tpwgts, ufactor, q).1,
                                ) by {
                                    lemma_part_weight_sum_move(gv.vwgt, a_before, v as int, to as u32, q, n as int);
                                    assert(kept_toward(
                                        part_weight_sum(gv.vwgt, p0.assignment, q, n as int),
                                        part_weight_sum(gv.vwgt, a_before, q, n as int),
                                        lp_window(gv, k, p0.tpwgts, ufactor, q).0,
                                        lp_window(gv, k, p0.tpwgts, ufactor, q).1,
                                    ));
                                }
                            }
                        }
                        moved += 1;
                        proof {
                            assert(lp_move_open(gv, cur, k, p0.tpwgts, ufactor, v as int));
                            assert(partition@.assignment == lp_step(gv, cur, k, p0.tpwgts, ufactor, v as int));
                            let a2 = partition@.assignment;
                            lemma_part_weight_sum_move(gv.vwgt, a_before, v as int, to as u32, first, n as int);
                            if first < 0 {
                                first = from as int;
                            }
                        }
                    }
                }
            }
            proof {
                assert(lp_sweep(gv, a_s, k, p0.tpwgts, ufactor, v + 1) == (partition@.assignment, moved > 0));
            }
            v += 1;
        }
        if moved == 0 {
            proof {
                if first < 0 {
                    nomove = true;
                }
                assert(lp_sweep(gv, a_s, k, p0.tpwgts, ufactor, n as int) == (partition@.assignment, false));
                assert(lp_run(gv, a_s, k, p0.tpwgts, ufactor, (max_iter - iter) as nat) == partition@.assignment);
            }
            break;
        }
        proof {
            assert(lp_sweep(gv, a_s, k, p0.tpwgts, ufactor, n as int) == (partition@.assignment, true));
            assert(lp_run(gv, a_s, k, p0.tpwgts, ufactor, (max_iter - iter) as nat) == lp_run(
                gv,
                partition@.assignment,
                k,
                p0.tpwgts,
                ufactor,
                (max_iter - iter - 1) as nat,
            ));
        }
        iter += 1;
    }
}

/// Change in edge cut when `v` moves to `to`: edges to its own part become
/// cut, edges to `to` stop being cut.
pub open spec fn cut_delta(g: GraphView, a: Seq<u32>, v: int, to: u32) -> int {
    let from = a[v];
    if to == from {
        part_weight(g, a, from, g.lo(v), g.hi(v))
    } else {
        part_weight(g, a, from, g.lo(v), g.hi(v)) - part_weight(g, a, to, g.lo(v), g.hi(v))
    }
}

/// Change in edge cut when vertex `v` moves to part `to_part`.
pub fn move_cut_delta(g: &CsrGraph, assignment: &[u32], v: usize, to_part: u32) -> (r: i64)
    requires
        g@.sound(),
        assignment@.len() == g@.n(),
        (v as int) < g@.n(),
    ensures
        r == cut_delta(g@, assignment@, v as int, to_part),
{
    let ghost gv = g@;
    let xadj = g.xadj();
    let adjncy = g.adjncy();
    proof {
        assert(gv.xadj[v as int] <= gv.xadj[v as int + 1] <= gv.xadj[gv.n()]);
    }
    let from = assignment[v];
    let lo = xadj[v] as usize;
    let hi = xadj[v + 1] as usize;
    let mut pf: i64 = 0;
    let mut pt: i64 = 0;
    let mut j = lo;
    while j < hi
        invariant
            gv == g@,
            gv.sound(),
            xadj@ == gv.xadj,
            adjncy@ == gv.adjncy,
            assignment@.len() == gv.n(),
            lo == gv.lo(v as int),
            hi == gv.hi(v as int),
            hi <= gv.m(),
            lo <= j <= hi,
            from == assignment@[v as int],
            pf == part_weight(gv, assignment@, from, lo as int, j as int),
            to_part != from ==> pt == part_weight(gv, assignment@, to_part, lo as int, j as int),
            to_part == from ==> pt == 0,
            -0x8000_0000 * (j - lo) <= pf <= 0x8000_0000 * (j - lo),
            -0x8000_0000 * (j - lo) <= pt <= 0x8000_0000 * (j - lo),
        decreases hi - j,
    {
        let u = adjncy[j] as usize;
        proof {
            assert((gv.adjncy[j as int] as int) < gv.n());
        }
        let up = assignment[u];
        let ew = g.edge_weight(j) as i64;
        if up == from {
            pf = pf + ew;
        } else if up == to_part {
            pt = pt + ew;
        }
        j += 1;
    }
    proof {
        crate::refine::gains::lemma_two_parts_bound_pub(gv, assignment@, from, to_part, lo as int, hi as int);
        crate::refine::gains::lemma_abs_weight_bound_pub(gv, lo as int, hi as int);
        assert(0x8000_0000 * (hi - lo) <= 0x7fff_ffff_8000_0000) by (nonlinear_arith)
            requires
                0 <= hi - lo <= 0xffff_ffff,
        ;
    }
    pf - pt
}

/// Vertex `v` has a neighbour in part `to`.
pub open spec fn touches(g: GraphView, a: Seq<u32>, v: int, to: int) -> bool {
    exists|j: int| g.lo(v) <= j < g.hi(v) && #[trigger] a[g.nbr(j)] as int == to
}

/// The scratch marks all lie below the current mark.
pub open spec fn marks_clean(seen: Seq<u32>, mark: u32) -> bool {
    forall|p: int| 0 <= p < seen.len() ==> #[trigger] seen[p] < mark
}

/// A legal rebalancing move: `v` leaves its part `from`, heavier than
/// `max_wgt`, for a part `to` it has a neighbour in and that stays within
/// `max_wgt` with it (weights added with saturation).
pub open spec fn rebalance_move(
    g: GraphView,
    a: Seq<u32>,
    pwgts: Seq<i64>,
    max_wgt: i64,
    from: int,
    v: int,
    to: int,
) -> bool {
    &&& 0 <= from < pwgts.len()
    &&& 0 <= to < pwgts.len()
    &&& 0 <= v < g.n()
    &&& pwgts[from] > max_wgt
    &&& a[v] as int == from
    &&& to != from
    &&& touches(g, a, v, to)
    &&& clamp_i64(pwgts[to] + g.vwgt[v] as int) <= max_wgt
}

/// Move `(from, v, to)` comes before move `(f2, v2, t2)`: a smaller change of
/// the cut, then a smaller source part, vertex and destination part.
pub open spec fn move_precedes(g: GraphView, a: Seq<u32>, from: int, v: int, to: int, f2: int, v2: int, t2: int) -> bool {
    let d1 = cut_delta(g, a, v, to as u32);
    let d2 = cut_delta(g, a, v2, t2 as u32);
    d1 < d2 || (d1 == d2 && (from < f2 || (from == f2 && (v < v2 || (v == v2 && to < t2)))))
}

/// The best rebalancing move: over the parts heavier than `max_wgt`, their
/// vertices, and the parts adjacent to each vertex that can take it without
/// exceeding `max_wgt`, the move of smallest cut change, ties broken by source
/// part, then vertex, then destination part. `seen_parts`, `adjacent_parts`
/// and `visit_mark` are scratch space: the adjacent parts of a vertex are
/// found by marking them with `visit_mark`, so the search is complete when
/// every entry of `seen_parts` lies below `visit_mark` on entry (as after
/// zeros and a mark of one), and it leaves them so.
pub fn best_rebalance_move(
    g: &CsrGraph,
    partition: &Partition,
    pwgts: &[i64],
    max_wgt: i64,
    seen_parts: &mut [u32],
    adjacent_parts: &mut Vec<usize>,
    visit_mark: &mut u32,
) -> (r: Option<(usize, usize, usize)>)
    requires
        g@.sound(),
        partition@.fits(g@),
        pwgts@.len() == partition@.k,
        old(seen_parts)@.len() == partition@.k,
    ensures
        final(seen_parts)@.len() == old(seen_parts)@.len(),
        r matches Some((from, v, to)) ==> rebalance_move(
            g@,
            partition@.assignment,
            pwgts@,
            max_wgt,
            from as int,
            v as int,
            to as int,
        ),
        marks_clean(old(seen_parts)@, *old(visit_mark)) ==> marks_clean(final(seen_parts)@, *final(visit_mark)),
        marks_clean(old(seen_parts)@, *old(visit_mark)) && r is None ==> forall|f: int, v: int, t: int|
            !#[trigger] rebalance_move(g@, partition@.assignment, pwgts@, max_wgt, f, v, t),
        marks_clean(old(seen_parts)@, *old(visit_mark)) ==> (r matches Some((from, v, to)) ==> forall|
            f: int,
            vv: int,
            t: int,
        |
            #[trigger] rebalance_move(g@, partition@.assignment, pwgts@, max_wgt, f, vv, t) ==> !move_precedes(
                g@,
                partition@.assignment,
                f,
                vv,
                t,
                from as int,
                v as int,
                to as int,
            )),
{
    let ghost gv = g@;
    let ghost clean0 = marks_clean(seen_parts@, *visit_mark);
    let k = partition.k() as usize;
    let n = g.n();
    let a = partition.assignment();
    let vw = g.vwgt();
    let vlen = vw.len();
    let xadj = g.xadj();
    let adjncy = g.adjncy();
    let mut best: Option<(i64, usize, usize, usize)> = None;
    let mut from: usize = 0;
    while from < k
        invariant
            gv == g@,
            gv.sound(),
            n == gv.n(),
            k == partition@.k,
            a@ == partition@.assignment,
            a@.len() == n,
            forall|u: int| 0 <= u < n ==> #[trigger] a@[u] < k,
            vw@ == gv.vwgt,
            vlen == vw@.len(),
            xadj@ == gv.xadj,
            adjncy@ == gv.adjncy,
            pwgts@.len() == k,
            seen_parts@.len() == k,
            0 <= from <= k,
            best matches Some((d, f, v, t)) ==> rebalance_move(gv, a@, pwgts@, max_wgt, f as int, v as int, t as int)
                && d == cut_delta(gv, a@, v as int, t as u32),
            clean0 ==> marks_clean(seen_parts@, *visit_mark),
            clean0 ==> forall|f2: int, v2: int, t2: int|
                #[trigger] rebalance_move(gv, a@, pwgts@, max_wgt, f2, v2, t2) && f2 < from ==> (best matches Some(
                    b,
                ) && !move_precedes(gv, a@, f2, v2, t2, b.1 as int, b.2 as int, b.3 as int)),
        decreases k - from,
    {
        if pwgts[from] > max_wgt {
            let mut v: usize = 0;
            while v < n
                invariant
                    gv == g@,
                    gv.sound(),
                    n == gv.n(),
                    k == partition@.k,
                    a@ == partition@.assignment,
                    a@.len() == n,
                    forall|u: int| 0 <= u < n ==> #[trigger] a@[u] < k,
                    vw@ == gv.vwgt,
                    vlen == vw@.len(),
                    xadj@ == gv.xadj,
                    adjncy@ == gv.adjncy,
                    pwgts@.len() == k,
                    seen_parts@.len() == k,
                    from < k,
                    pwgts@[from as int] > max_wgt,
                    0 <= v <= n,
                    best matches Some((d, f, vv, t)) ==> rebalance_move(
                        gv,
                        a@,
                        pwgts@,
                        max_wgt,
                        f as int,
                        vv as int,
                        t as int,
                    ) && d == cut_delta(gv, a@, vv as int, t as u32),
                    clean0 ==> marks_clean(seen_parts@, *visit_mark),
                    clean0 ==> forall|f2: int, v2: int, t2: int|
                        #[trigger] rebalance_move(gv, a@, pwgts@, max_wgt, f2, v2, t2) && (f2 < from || (f2 == from
                            && v2 < v)) ==> (best matches Some(b) && !move_precedes(
                            gv,
                            a@,
                            f2,
                            v2,
                            t2,
                            b.1 as int,
                            b.2 as int,
                            b.3 as int,
                        )),
                decreases n - v,
            {
                if a[v] as usize == from {
                    proof {
                        assert(vlen == gv.n() * gv.ncon);
                        assert((v as int) < gv.n() * gv.ncon) by (nonlinear_arith)
                            requires
                                (v as int) < gv.n(),
                                gv.ncon >= 1,
                        ;
                        assert(gv.xadj[v as int] <= gv.xadj[v as int + 1] <= gv.xadj[gv.n()]);
                    }
                    let v_wgt = vw[v] as i64;
                    adjacent_parts.clear();
                    let lo = xadj[v] as usize;
                    let hi = xadj[v + 1] as usize;
                    let mark = *visit_mark;
                    let mut j = lo;
                    while j < hi
                        invariant
                            gv == g@,
                            gv.sound(),
                            xadj@ == gv.xadj,
                            adjncy@ == gv.adjncy,
                            a@.len() == n,
                            n == gv.n(),
                            forall|u: int| 0 <= u < n ==> #[trigger] a@[u] < k,
                            seen_parts@.len() == k,
                            (v as int) < n,
                            lo == gv.lo(v as int),
                            hi == gv.hi(v as int),
                            lo <= j <= hi,
                            hi <= gv.m(),
                            mark == *visit_mark,
                            forall|t: int| 0 <= t < adjacent_parts@.len() ==> (#[trigger] adjacent_parts@[t]) < k
                                && adjacent_parts@[t] != from && touches(gv, a@, v as int, adjacent_parts@[t] as int),
                            clean0 ==> forall|p: int|
                                0 <= p < k ==> (#[trigger] seen_parts@[p] == mark <==> adjacent_parts@.contains(
                                    p as usize,
                                )),
                            clean0 ==> forall|p: int| 0 <= p < k ==> #[trigger] seen_parts@[p] <= mark,
                            clean0 ==> forall|jj: int|
                                lo <= jj < j && a@[#[trigger] gv.nbr(jj)] as int != from as int ==> adjacent_parts@.contains(
                                    a@[gv.nbr(jj)] as usize,
                                ),
                        decreases hi - j,
                    {
                        let u = adjncy[j] as usize;
                        proof {
                            assert((gv.adjncy[j as int] as int) < gv.n());
                        }
                        let to = a[u] as usize;
                        if to != from && seen_parts[to] != *visit_mark {
                            let ghost adj0 = adjacent_parts@;
                            let ghost seen0 = seen_parts@;
                            seen_parts[to] = *visit_mark;
                            adjacent_parts.push(to);
                            proof {
                                assert(a@[gv.nbr(j as int)] as int == to as int);
                                assert(adjacent_parts@ == adj0.push(to));
                                assert forall|p: int| 0 <= p < k && clean0 implies (#[trigger] seen_parts@[p] == mark
                                    <==> adjacent_parts@.contains(p as usize)) by {
                                    if p == to as int {
                                        assert(adjacent_parts@[adj0.len() as int] == to);
                                    } else {
                                        assert(seen_parts@[p] == seen0[p]);
                                        if adjacent_parts@.contains(p as usize) {
                                            let i = choose|i: int| 0 <= i < adjacent_parts@.len() && adjacent_parts@[i] == p as usize;
                                            assert(i < adj0.len());
                                            assert(adj0.contains(p as usize));
                                        }
                                        if adj0.contains(p as usize) {
                                            let i = choose|i: int| 0 <= i < adj0.len() && adj0[i] == p as usize;
                                            assert(adjacent_parts@[i] == p as usize);
                                        }
                                    }
                                }
                                assert forall|jj: int|
                                    clean0 && lo <= jj < j + 1 && a@[#[trigger] gv.nbr(jj)] as int != from as int implies adjacent_parts@.contains(
                                        a@[gv.nbr(jj)] as usize,
                                    ) by {
                                    if jj < j {
                                        assert(adj0.contains(a@[gv.nbr(jj)] as usize));
                                        let i = choose|i: int| 0 <= i < adj0.len() && adj0[i] == a@[gv.nbr(jj)] as usize;
                                        assert(adjacent_parts@[i] == a@[gv.nbr(jj)] as usize);
                                    } else {
                                        assert(adjacent_parts@[adj0.len() as int] == to);
                                    }
                                }
                            }
                        } else {
                            proof {
                                assert forall|jj: int|
                                    clean0 && lo <= jj < j + 1 && a@[#[trigger] gv.nbr(jj)] as int != from as int implies adjacent_parts@.contains(
                                        a@[gv.nbr(jj)] as usize,
                                    ) by {
                                    if jj == j {
                                        assert(a@[gv.nbr(jj)] as usize == to);
                                        assert(seen_parts@[to as int] == mark);
                                    }
                                }
                            }
                        }
                        j += 1;
                    }
                    *visit_mark = visit_mark.wrapping_add(1);
                    if *visit_mark == 0 {
                        let mut q: usize = 0;
                        while q < seen_parts.len()
                            invariant
                                0 <= q <= seen_parts@.len(),
                                seen_parts@.len() == k,
                                forall|p: int| 0 <= p < q ==> #[trigger] seen_parts@[p] == 0,
                            decreases seen_parts@.len() - q,
                        {
                            seen_parts[q] = 0;
                            q += 1;
                        }
                        *visit_mark = 1;
                    }
                    proof {
                        if clean0 {
                            if mark < u32::MAX {
                                assert(*visit_mark == mark + 1);
                            }
                            assert(marks_clean(seen_parts@, *visit_mark));
                        }
                    }
                    let ghost best0 = best;
                    let mut t: usize = 0;
                    while t < adjacent_parts.len()
                        invariant
                            gv == g@,
                            gv.sound(),
                            n == gv.n(),
                            a@.len() == n,
                            a@ == partition@.assignment,
                            vw@ == gv.vwgt,
                            (v as int) < vw@.len(),
                            v_wgt == vw@[v as int] as i64,
                            (v as int) < n,
                            a@[v as int] == from,
                            pwgts@.len() == k,
                            from < k,
                            pwgts@[from as int] > max_wgt,
                            forall|tt: int| 0 <= tt < adjacent_parts@.len() ==> (#[trigger] adjacent_parts@[tt]) < k
                                && adjacent_parts@[tt] != from && touches(gv, a@, v as int, adjacent_parts@[tt] as int),
                            0 <= t <= adjacent_parts@.len(),
                            best matches Some((d, f, vv, tt)) ==> rebalance_move(
                                gv,
                                a@,
                                pwgts@,
                                max_wgt,
                                f as int,
                                vv as int,
                                tt as int,
                            ) && d == cut_delta(gv, a@, vv as int, tt as u32),
                            clean0 ==> forall|f2: int, v2: int, t2: int|
                                #[trigger] rebalance_move(gv, a@, pwgts@, max_wgt, f2, v2, t2) && (f2 < from || (f2
                                    == from && v2 < v) || (f2 == from && v2 == v && exists|i: int|
                                    0 <= i < t && adjacent_parts@[i] as int == t2)) ==> (best matches Some(b)
                                    && !move_precedes(gv, a@, f2, v2, t2, b.1 as int, b.2 as int, b.3 as int)),
                        decreases adjacent_parts@.len() - t,
                    {
                        let to = adjacent_parts[t];
                        if sat_add(pwgts[to], v_wgt) <= max_wgt {
                            let delta = move_cut_delta(g, a, v, to as u32);
                            let take = match best {
                                None => true,
                                Some((bd, bf, bv, bt)) => {
                                    delta < bd || (delta == bd && (from < bf || (from == bf && (v < bv || (v
                                        == bv && to < bt)))))
                                },
                            };
                            let ghost prev = best;
                            if take {
                                best = Some((delta, from, v, to));
                            }
                            proof {
                                assert(rebalance_move(gv, a@, pwgts@, max_wgt, from as int, v as int, to as int));
                                if clean0 {
                                    assert forall|f2: int, v2: int, t2: int|
                                        #[trigger] rebalance_move(gv, a@, pwgts@, max_wgt, f2, v2, t2) && (f2 < from
                                            || (f2 == from && v2 < v) || (f2 == from && v2 == v && exists|i: int|
                                            0 <= i < t + 1 && adjacent_parts@[i] as int == t2)) implies (best matches Some(
                                        b,
                                    ) && !move_precedes(gv, a@, f2, v2, t2, b.1 as int, b.2 as int, b.3 as int)) by {
                                        if f2 == from && v2 == v && t2 == to as int {
                                        } else {
                                            if f2 == from && v2 == v && !(exists|i: int|
                                                0 <= i < t && adjacent_parts@[i] as int == t2) {
                                                let i = choose|i: int| 0 <= i < t + 1 && adjacent_parts@[i] as int == t2;
                                                assert(i == t);
                                            }
                                        }
                                    }
                                }
                            }
                        } else {
                            proof {
                                if clean0 {
                                    assert forall|f2: int, v2: int, t2: int|
                                        #[trigger] rebalance_move(gv, a@, pwgts@, max_wgt, f2, v2, t2) && (f2 < from
                                            || (f2 == from && v2 < v) || (f2 == from && v2 == v && exists|i: int|
                                            0 <= i < t + 1 && adjacent_parts@[i] as int == t2)) implies (best matches Some(
                                        b,
                                    ) && !move_precedes(gv, a@, f2, v2, t2, b.1 as int, b.2 as int, b.3 as int)) by {
                                        if f2 == from && v2 == v && t2 == to as int {
                                            assert(false);
                                        } else if f2 == from && v2 == v && !(exists|i: int|
                                            0 <= i < t && adjacent_parts@[i] as int == t2) {
                                            let i = choose|i: int| 0 <= i < t + 1 && adjacent_parts@[i] as int == t2;
                                            assert(i == t);
                                        }
                                    }
                                }
                            }
                        }
                        t += 1;
                    }
                    proof {
                        if clean0 {
                            assert forall|f2: int, v2: int, t2: int|
                                #[trigger] rebalance_move(gv, a@, pwgts@, max_wgt, f2, v2, t2) && (f2 < from || (f2
                                    == from && v2 < v + 1)) implies (best matches Some(b) && !move_precedes(
                                gv,
                                a@,
                                f2,
                                v2,
                                t2,
                                b.1 as int,
                                b.2 as int,
                                b.3 as int,
                            )) by {
                                if f2 == from && v2 == v {
                                    assert(touches(gv, a@, v as int, t2));
                                    let jj = choose|jj: int| gv.lo(v as int) <= jj < gv.hi(v as int) && #[trigger] a@[gv.nbr(jj)] as int == t2;
                                    assert(adjacent_parts@.contains(a@[gv.nbr(jj)] as usize));
                                    let i = choose|i: int| 0 <= i < adjacent_parts@.len() && adjacent_parts@[i] == a@[gv.nbr(jj)] as usize;
                                    assert(adjacent_parts@[i] as int == t2);
                                }
                            }
                        }
                    }
                } else {
                    proof {
                        if clean0 {
                            assert forall|f2: int, v2: int, t2: int|
                                #[trigger] rebalance_move(gv, a@, pwgts@, max_wgt, f2, v2, t2) && (f2 < from || (f2
                                    == from && v2 < v + 1)) implies (best matches Some(b) && !move_precedes(
                                gv,
                                a@,
                                f2,
                                v2,
                                t2,
                                b.1 as int,
                                b.2 as int,
                                b.3 as int,
                            )) by {
                                if f2 == from && v2 == v {
                                    assert(a@[v as int] as int == from as int);
                                }
                            }
                        }
                    }
                }
                v += 1;
            }
        }
        from += 1;
    }
    match best {
        Some((_, f, v, t)) => Some((f, v, t)),
        None => None,
    }
}

/// Loads of the first constraint of the `k` parts of `a` over `n`
/// vertices, as `i64`.
pub open spec fn loads_of(w: Seq<i32>, a: Seq<u32>, k: int, n: int) -> Seq<i64> {
    Seq::new(k as nat, |p: int| part_weight_sum(w, a, p, n) as i64)
}

/// Some rebalancing move is open to `a`: a vertex of a part heavier than
/// `limit` can go to an adjacent part that stays within `limit`.
pub open spec fn rebalance_available(g: GraphView, a: Seq<u32>, k: int, limit: i64) -> bool {
    exists|f: int, v: int, t: int| #[trigger] rebalance_move(g, a, loads_of(g.vwgt, a, k, g.n()), limit, f, v, t)
}

/// The rebalancing move that no other legal move on `a` precedes.
pub open spec fn first_rebalance_move(g: GraphView, a: Seq<u32>, k: int, limit: i64) -> (int, int, int) {
    choose|f: int, v: int, t: int|
        #![trigger rebalance_move(g, a, loads_of(g.vwgt, a, k, g.n()), limit, f, v, t)]
        rebalance_move(g, a, loads_of(g.vwgt, a, k, g.n()), limit, f, v, t) && forall|f2: int, v2: int, t2: int|
            #[trigger] rebalance_move(g, a, loads_of(g.vwgt, a, k, g.n()), limit, f2, v2, t2) ==> !move_precedes(
                g,
                a,
                f2,
                v2,
                t2,
                f,
                v,
                t,
            )
}

/// The assignment after at most `rounds` rebalancing moves from `a`, each
/// the first legal move, stopping when none is left.
pub open spec fn rebalance_run(g: GraphView, a: Seq<u32>, k: int, limit: i64, rounds: nat) -> Seq<u32>
    decreases rounds,
{
    if rounds == 0 || !rebalance_available(g, a, k, limit) {
        a
    } else {
        let m = first_rebalance_move(g, a, k, limit);
        rebalance_run(g, a.update(m.1, m.2 as u32), k, limit, (rounds - 1) as nat)
    }
}

/// Number of moves `rebalance_to_ufactor` allows: `n * k`, or `usize::MAX`
/// when that overflows.
pub open spec fn rebalance_rounds(n: int, k: int) -> nat {
    if n * k <= usize::MAX {
        (n * k) as nat
    } else {
        usize::MAX as nat
    }
}

/// A legal move that no legal move precedes is the first one.
proof fn lemma_first_rebalance_move(g: GraphView, a: Seq<u32>, k: int, limit: i64, f: int, v: int, t: int)
    requires
        rebalance_move(g, a, loads_of(g.vwgt, a, k, g.n()), limit, f, v, t),
        forall|f2: int, v2: int, t2: int|
            #[trigger] rebalance_move(g, a, loads_of(g.vwgt, a, k, g.n()), limit, f2, v2, t2) ==> !move_precedes(
                g,
                a,
                f2,
                v2,
                t2,
                f,
                v,
                t,
            ),
    ensures
        first_rebalance_move(g, a, k, limit) == (f, v, t),
{
    let m = first_rebalance_move(g, a, k, limit);
    assert(rebalance_move(g, a, loads_of(g.vwgt, a, k, g.n()), limit, m.0, m.1, m.2));
    assert(!move_precedes(g, a, m.0, m.1, m.2, f, v, t));
    assert(!move_precedes(g, a, f, v, t, m.0, m.1, m.2));
}

/// Deterministic repair of equal-weight balance: while some part is heavier
/// than `ceil(total / k)` plus tolerance, apply the best rebalancing move
/// (at most `n * k` moves).
#[verifier::rlimit(80)]
#[verifier::spinoff_prover]
pub fn rebalance_to_ufactor(g: &CsrGraph, partition: &mut Partition, ufactor: u32)
    requires
        g@.sound(),
        old(partition)@.fits(g@),
    ensures
        reassigned(old(partition)@, final(partition)@),
        old(partition)@.k <= 1 || g@.n() == 0 ==> final(partition)@ == old(partition)@,
        g@.positive() ==> forall|p: int|
            0 <= p < old(partition)@.k ==> #[trigger] part_weight_sum(g@.vwgt, final(partition)@.assignment, p, g@.n())
                <= if part_weight_sum(g@.vwgt, old(partition)@.assignment, p, g@.n()) >= rebalance_limit(
                g@.vwgt,
                old(partition)@.k as int,
                ufactor,
            ) {
                part_weight_sum(g@.vwgt, old(partition)@.assignment, p, g@.n())
            } else {
                rebalance_limit(g@.vwgt, old(partition)@.k as int, ufactor)
            },
        g@.positive() && rebalance_available(
            g@,
            old(partition)@.assignment,
            old(partition)@.k as int,
            rebalance_limit(g@.vwgt, old(partition)@.k as int, ufactor) as i64,
        ) ==> exists|p: int|
            0 <= p < old(partition)@.k && part_weight_sum(g@.vwgt, old(partition)@.assignment, p, g@.n())
                > rebalance_limit(g@.vwgt, old(partition)@.k as int, ufactor) && #[trigger] part_weight_sum(
                g@.vwgt,
                final(partition)@.assignment,
                p,
                g@.n(),
            ) < part_weight_sum(g@.vwgt, old(partition)@.assignment, p, g@.n()),
        final(partition)@.assignment == rebalance_run(
            g@,
            old(partition)@.assignment,
            old(partition)@.k as int,
            rebalance_limit(g@.vwgt, old(partition)@.k as int, ufactor) as i64,
            rebalance_rounds(g@.n(), old(partition)@.k as int),
        ),
        (forall|q: int|
            0 <= q < old(partition)@.k ==> #[trigger] loads_of(g@.vwgt, old(partition)@.assignment, old(partition)@.k as int, g@.n())[q]
                <= rebalance_limit(g@.vwgt, old(partition)@.k as int, ufactor) as i64) ==> final(partition)@.assignment
            == old(partition)@.assignment,
{
    proof {
        let lim = rebalance_limit(g@.vwgt, partition@.k as int, ufactor) as i64;
        let kk = partition@.k as int;
        let a0 = partition@.assignment;
        assert((forall|q: int| 0 <= q < kk ==> #[trigger] loads_of(g@.vwgt, a0, kk, g@.n())[q] <= lim) ==> rebalance_run(
            g@,
            a0,
            kk,
            lim,
            rebalance_rounds(g@.n(), kk),
        ) == a0) by {
            if forall|q: int| 0 <= q < kk ==> #[trigger] loads_of(g@.vwgt, a0, kk, g@.n())[q] <= lim {
                lemma_rebalance_keeps_balanced(g@, a0, kk, lim, rebalance_rounds(g@.n(), kk));
            }
        }
    }
    let k = partition.k() as usize;
    let n = g.n();
    if k <= 1 || n == 0 {
        return;
    }
    let ghost p0 = partition@;
    let ghost gv = g@;
    let total = total_weight(g);
    let kk = k as i64;
    let avg = sat_add(total, kk - 1) / kk;
    let epsilon = sat_add(sat_mul(avg, ufactor as i64), 999) / 1000;
    let max_wgt = sat_add(avg, epsilon);
    let ghost limit = rebalance_limit(gv.vwgt, k as int, ufactor);
    proof {
        assert(max_wgt == limit);
    }
    let mut pwgts = first_weight_per_part(g, partition.assignment(), k as u32);
    let mut seen_parts: Vec<u32> = vec![0u32; k];
    let mut adjacent_parts: Vec<usize> = Vec::new();
    let mut visit_mark: u32 = 1;
    let vw = g.vwgt();
    let vlen = vw.len();
    let rounds: usize = match n.checked_mul(k) {
        Some(x) => x,
        None => usize::MAX,
    };
    let mut r: usize = 0;
    let ghost mut first: int = -1;
    let ghost mut nomove: bool = false;
    let ghost mut done: bool = false;
    let ghost total_rounds = rebalance_rounds(n as int, k as int);
    proof {
        assert(rounds >= 1) by (nonlinear_arith)
            requires
                rounds == n * k || rounds == usize::MAX,
                n >= 1,
                k >= 2,
        ;
        assert(marks_clean(seen_parts@, visit_mark));
        assert(rounds == total_rounds);
    }
    while r < rounds
        invariant
            gv == g@,
            gv.sound(),
            n == gv.n(),
            k == p0.k,
            k >= 2,
            rounds >= 1,
            rounds == total_rounds,
            r <= rounds,
            marks_clean(seen_parts@, visit_mark),
            rebalance_run(gv, p0.assignment, k as int, limit as i64, total_rounds) == rebalance_run(
                gv,
                partition@.assignment,
                k as int,
                limit as i64,
                (total_rounds - r) as nat,
            ),
            done ==> r < rounds && !rebalance_available(gv, partition@.assignment, k as int, limit as i64),
            first < 0 ==> r == 0 && partition@ == p0 && marks_clean(seen_parts@, visit_mark),
            first >= 0 ==> 0 <= first < k && (gv.positive() ==> part_weight_sum(gv.vwgt, p0.assignment, first, n as int)
                > limit && part_weight_sum(gv.vwgt, partition@.assignment, first, n as int) < part_weight_sum(
                gv.vwgt,
                p0.assignment,
                first,
                n as int,
            )),
            nomove ==> !rebalance_available(gv, p0.assignment, k as int, limit as i64),
            vw@ == gv.vwgt,
            vlen == vw@.len(),
            reassigned(p0, partition@),
            partition@.assignment.len() == n,
            pwgts@.len() == k,
            seen_parts@.len() == k,
            n <= 0x1_0000_0000,
            max_wgt == limit,
            forall|p: int| 0 <= p < k ==> #[trigger] pwgts@[p] == part_weight_sum(gv.vwgt, partition@.assignment, p, n as int),
            gv.positive() ==> forall|p: int|
                0 <= p < k ==> #[trigger] part_weight_sum(gv.vwgt, partition@.assignment, p, n as int) <= if part_weight_sum(
                    gv.vwgt,
                    p0.assignment,
                    p,
                    n as int,
                ) >= limit {
                    part_weight_sum(gv.vwgt, p0.assignment, p, n as int)
                } else {
                    limit
                },
        ensures
            first >= 0 || nomove,
            done || r >= rounds,
        decreases rounds - r,
    {
        let mv = best_rebalance_move(
            g,
            partition,
            pwgts.as_slice(),
            max_wgt,
            seen_parts.as_mut_slice(),
            &mut adjacent_parts,
            &mut visit_mark,
        );
        let ghost cur = partition@.assignment;
        proof {
            assert(pwgts@ =~= loads_of(gv.vwgt, cur, k as int, n as int));
        }
        let (from, v, to) = match mv {
            Some(m) => m,
            None => {
                proof {
                    if first < 0 {
                        assert(pwgts@ =~= loads_of(gv.vwgt, p0.assignment, k as int, n as int));
                        nomove = true;
                    }
                    done = true;
                }
                break;
            },
        };
        proof {
            lemma_first_rebalance_move(gv, cur, k as int, limit as i64, from as int, v as int, to as int);
            assert(rebalance_available(gv, cur, k as int, limit as i64));
            assert(rebalance_run(gv, cur, k as int, limit as i64, (total_rounds - r) as nat) == rebalance_run(
                gv,
                cur.update(v as int, to as u32),
                k as int,
                limit as i64,
                (total_rounds - r - 1) as nat,
            ));
        }
        proof {
            assert(vlen == gv.n() * gv.ncon);
            assert((v as int) < gv.n() * gv.ncon) by (nonlinear_arith)
                requires
                    (v as int) < gv.n(),
                    gv.ncon >= 1,
            ;
        }
        let w = vw[v] as i64;
        let ghost a_before = partition@.assignment;
        proof {
            lemma_part_weight_sum_move(gv.vwgt, a_before, v as int, to as u32, from as int, n as int);
            lemma_part_weight_sum_move(gv.vwgt, a_before, v as int, to as u32, to as int, n as int);
            lemma_part_weight_sum_bounds(gv.vwgt, a_before.update(v as int, to as u32), from as int, n as int);
            lemma_part_weight_sum_bounds(gv.vwgt, a_before.update(v as int, to as u32), to as int, n as int);
            assert(0x7fff_ffff * n <= 0x7fff_ffff * 0x1_0000_0000);
            assert(-0x8000_0000 * n >= -0x8000_0000 * 0x1_0000_0000);
        }
        partition.set_part(v, to as u32);
        let fw = sat_add(pwgts[from], -w);
        pwgts.set(from, fw);
        let tw = sat_add(pwgts[to], w);
        pwgts.set(to, tw);
        proof {
            let a2 = partition@.assignment;
            assert(a2 == a_before.update(v as int, to as u32));
            assert forall|p: int| 0 <= p < k implies #[trigger] pwgts@[p] == part_weight_sum(gv.vwgt, a2, p, n as int) by {
                lemma_part_weight_sum_move(gv.vwgt, a_before, v as int, to as u32, p, n as int);
            }
            if gv.positive() {
                assert(gv.vwgt[v as int] > 0);
                lemma_part_weight_sum_move(gv.vwgt, a_before, v as int, to as u32, first, n as int);
                lemma_part_weight_sum_bounds(gv.vwgt, a2, to as int, n as int);
                assert forall|p: int| 0 <= p < k implies #[trigger] part_weight_sum(gv.vwgt, a2, p, n as int) <= if part_weight_sum(
                    gv.vwgt,
                    p0.assignment,
                    p,
                    n as int,
                ) >= limit {
                    part_weight_sum(gv.vwgt, p0.assignment, p, n as int)
                } else {
                    limit
                } by {
                    lemma_part_weight_sum_move(gv.vwgt, a_before, v as int, to as u32, p, n as int);
                }
            }
        }
        proof {
            if first < 0 {
                first = from as int;
            }
        }
        r += 1;
    }
    proof {
        let cur = partition@.assignment;
        if done {
            assert(rebalance_run(gv, cur, k as int, limit as i64, (total_rounds - r) as nat) == cur);
        } else {
            assert(rebalance_run(gv, cur, k as int, limit as i64, 0) == cur);
        }
    }
}

/// A sweep over an assignment where no vertex would move leaves it as it is.
proof fn lemma_lp_sweep_still(g: GraphView, a: Seq<u32>, k: u32, tp: Option<Seq<u32>>, ufactor: u32, v: int)
    requires
        forall|u: int| 0 <= u < v ==> !#[trigger] lp_move_open(g, a, k, tp, ufactor, u),
    ensures
        lp_sweep(g, a, k, tp, ufactor, v) == (a, false),
    decreases v,
{
    if v > 0 {
        lemma_lp_sweep_still(g, a, k, tp, ufactor, v - 1);
    }
}

/// Label propagation leaves an assignment in which no part lies above its
/// window unchanged.
pub proof fn lemma_lp_keeps_balanced(g: GraphView, a: Seq<u32>, k: u32, tp: Option<Seq<u32>>, ufactor: u32, iters: nat)
    requires
        a.len() == g.n(),
        forall|v: int| 0 <= v < a.len() ==> #[trigger] a[v] < k,
        forall|q: int| 0 <= q < k ==> #[trigger] loads_of(g.vwgt, a, k as int, g.n())[q] <= lp_window(g, k, tp, ufactor, q).1,
    ensures
        lp_run(g, a, k, tp, ufactor, iters) == a,
{
    assert forall|u: int| 0 <= u < g.n() implies !#[trigger] lp_move_open(g, a, k, tp, ufactor, u) by {
        let from = a[u] as int;
        assert(loads_of(g.vwgt, a, k as int, g.n())[from] <= lp_window(g, k, tp, ufactor, from).1);
    }
    lemma_lp_sweep_still(g, a, k, tp, ufactor, g.n());
}

/// Rebalancing leaves an assignment with no part heavier than `limit`
/// unchanged.
pub proof fn lemma_rebalance_keeps_balanced(g: GraphView, a: Seq<u32>, k: int, limit: i64, rounds: nat)
    requires
        k >= 0,
        forall|q: int| 0 <= q < k ==> #[trigger] loads_of(g.vwgt, a, k, g.n())[q] <= limit,
    ensures
        rebalance_run(g, a, k, limit, rounds) == a,
{
    assert(!rebalance_available(g, a, k, limit)) by {
        if rebalance_available(g, a, k, limit) {
            let (f, v, t) = choose|f: int, v: int, t: int|
                #[trigger] rebalance_move(g, a, loads_of(g.vwgt, a, k, g.n()), limit, f, v, t);
            assert(0 <= f < k);
            assert(loads_of(g.vwgt, a, k, g.n())[f] <= limit);
        }
    }
}

} // verus!
