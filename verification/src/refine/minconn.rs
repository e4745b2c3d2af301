use vstd::prelude::*;

use crate::coarsen::coarse_graph::bucket_by_target;
use crate::graph::csr::{CsrGraph, GraphView};
use crate::graph::partition::{Partition, PartitionView};
use crate::api::{div_toward_zero, part_weight_sum};
use crate::refine::fm::neg_sat;
use crate::refine::gains::first_parts;
use crate::refine::lp::{
    kept_toward, lemma_part_weight_sum_bounds, lemma_part_weight_sum_move, loads_of, reassigned, sat_weight_total,
};
use crate::util::{clamp_i64, sat_add, sat_mul};

verus! {

/// The population window of connectivity reduction: `total / k` less and
/// plus `ceil(total * ufactor / 1000)`, the lower end no less than zero,
/// each step saturating and dividing toward zero.
pub open spec fn minconn_window(w: Seq<i32>, k: u32, ufactor: u32) -> (int, int) {
    let total = sat_weight_total(w, w.len() as int);
    let target = div_toward_zero(total, k as int);
    let eps = div_toward_zero(clamp_i64(clamp_i64(total * ufactor) + 999) as int, 1000);
    let low = clamp_i64(target + neg_sat(eps as i64)) as int;
    (if low > 0 {
        low
    } else {
        0
    }, clamp_i64(target + eps) as int)
}

/// Some slot in `lo..r` leads to a vertex of part `q`.
pub open spec fn slot_into(g: GraphView, a: Seq<u32>, q: int, lo: int, r: int) -> bool {
    exists|j: int| lo <= j < r && a[#[trigger] g.nbr(j)] as int == q
}

/// The parts below `k`, other than `p`, that some vertex of part `p` has a
/// neighbour in.
pub open spec fn adjacent_parts(g: GraphView, a: Seq<u32>, p: int, k: int) -> Set<int> {
    Set::new(
        |q: int|
            0 <= q < k && q != p && exists|v: int|
                0 <= v < g.n() && a[v] as int == p && #[trigger] slot_into(g, a, q, g.lo(v), g.hi(v)),
    )
}

/// For each part, the number of other parts it shares an edge with.
#[verifier::rlimit(60)]
fn adjacent_part_counts(g: &CsrGraph, a: &[u32], k: u32) -> (r: Vec<usize>)
    requires
        g@.sound(),
        a@.len() == g@.n(),
        forall|v: int| 0 <= v < a@.len() ==> (#[trigger] a@[v] as int) < k,
    ensures
        r@.len() == k,
        forall|p: int| 0 <= p < k ==> #[trigger] r@[p] == adjacent_parts(g@, a@, p, k as int).len(),
{
    let ghost gv = g@;
    let ku = k as usize;
    let (start, order) = bucket_by_target(a, ku);
    let xadj = g.xadj();
    let adjncy = g.adjncy();
    let mut mark: Vec<usize> = vec![0usize; ku];
    let mut counts: Vec<usize> = Vec::new();
    let mut p: usize = 0;
    proof {
        vstd::set_lib::lemma_int_range(0, ku as int);
    }
    while p < ku
        invariant
            gv == g@,
            gv.sound(),
            xadj@ == gv.xadj,
            adjncy@ == gv.adjncy,
            a@.len() == gv.n(),
            forall|v: int| 0 <= v < a@.len() ==> (#[trigger] a@[v] as int) < ku,
            ku == k,
            start@.len() == ku + 1,
            order@.len() == gv.n(),
            start@[ku as int] == gv.n(),
            forall|c: int| 0 <= c < ku ==> #[trigger] start@[c] <= start@[c + 1],
            forall|c: int, x: int|
                0 <= c < ku && 0 <= x < start@[c + 1] - start@[c] ==> #[trigger] order@[start@[c] + x] as int
                    == crate::graph::subgraph::members_upto(a@, c as u32, a@.len() as int)[x],
            forall|c: int|
                0 <= c < ku ==> #[trigger] start@[c + 1] - start@[c] == crate::graph::subgraph::members_upto(a@, c as u32, a@.len() as int).len(),
            mark@.len() == ku,
            forall|q: int| 0 <= q < ku ==> #[trigger] mark@[q] <= p,
            0 <= p <= ku,
            counts@.len() == p,
            vstd::set_lib::set_int_range(0, ku as int).finite(),
            forall|pp: int| 0 <= pp < p ==> #[trigger] counts@[pp] == adjacent_parts(gv, a@, pp, ku as int).len(),
        decreases ku - p,
    {
        proof {
            crate::coarsen::coarse_graph::lemma_start_bound_pub(start@, ku as int, p as int);
            crate::graph::subgraph::lemma_members_props(a@, p as u32, a@.len() as int);
        }
        let ghost mem = crate::graph::subgraph::members_upto(a@, p as u32, a@.len() as int);
        let ghost s0 = start@[p as int];
        let ghost mut seen: Set<int> = Set::empty();
        let mut cnt: usize = 0;
        let mut x = start[p];
        while x < start[p + 1]
            invariant
                gv == g@,
                gv.sound(),
                xadj@ == gv.xadj,
                adjncy@ == gv.adjncy,
                a@.len() == gv.n(),
                forall|v: int| 0 <= v < a@.len() ==> (#[trigger] a@[v] as int) < ku,
                start@.len() == ku + 1,
                order@.len() == gv.n(),
                p < ku,
                s0 == start@[p as int],
                start@[p as int] <= x <= start@[p + 1],
                start@[p + 1] <= gv.n(),
                mem == crate::graph::subgraph::members_upto(a@, p as u32, a@.len() as int),
                forall|y: int| 0 <= y < mem.len() ==> 0 <= #[trigger] mem[y] < a@.len() && a@[mem[y]] == p as u32,
                forall|c: int, y: int|
                    0 <= c < ku && 0 <= y < start@[c + 1] - start@[c] ==> #[trigger] order@[start@[c] + y] as int
                        == crate::graph::subgraph::members_upto(a@, c as u32, a@.len() as int)[y],
                forall|c: int|
                    0 <= c < ku ==> #[trigger] start@[c + 1] - start@[c] == crate::graph::subgraph::members_upto(a@, c as u32, a@.len() as int).len(),
                mark@.len() == ku,
                forall|q: int| 0 <= q < ku ==> #[trigger] mark@[q] <= p + 1,
                vstd::set_lib::set_int_range(0, ku as int).finite(),
                seen.finite(),
                cnt == seen.len(),
                forall|q: int| #[trigger] seen.contains(q) <==> 0 <= q < ku && mark@[q] == p + 1,
                forall|q: int|
                    #[trigger] seen.contains(q) <==> 0 <= q < ku && q != p && exists|y: int|
                        s0 <= y < x && #[trigger] slot_into(gv, a@, q, gv.lo(mem[y - s0]), gv.hi(mem[y - s0])),
            decreases start@[p + 1] - x,
        {
            let v = order[x];
            let ghost seen_before = seen;
            proof {
                let y = x - start@[p as int];
                assert(order@[start@[p as int] + y] == order@[x as int]);
                assert(0 <= y < start@[p + 1] - start@[p as int]);
                assert(v as int == mem[y]);
                assert(gv.xadj[v as int] <= gv.xadj[v as int + 1] <= gv.xadj[gv.n()]);
            }
            let lo = xadj[v] as usize;
            let hi = xadj[v + 1] as usize;
            let mut j = lo;
            while j < hi
                invariant
                    gv == g@,
                    gv.sound(),
                    adjncy@ == gv.adjncy,
                    a@.len() == gv.n(),
                    forall|u: int| 0 <= u < a@.len() ==> (#[trigger] a@[u] as int) < ku,
                    mark@.len() == ku,
                    p < ku,
                    lo <= j <= hi,
                    hi <= gv.m(),
                    lo == gv.lo(v as int),
                    vstd::set_lib::set_int_range(0, ku as int).finite(),
                    forall|q: int| 0 <= q < ku ==> #[trigger] mark@[q] <= p + 1,
                    seen.finite(),
                    cnt == seen.len(),
                    forall|q: int| #[trigger] seen.contains(q) <==> 0 <= q < ku && mark@[q] == p + 1,
                    forall|q: int|
                        #[trigger] seen.contains(q) <==> seen_before.contains(q) || (0 <= q < ku && q != p
                            && slot_into(gv, a@, q, lo as int, j as int)),
                decreases hi - j,
            {
                let u = adjncy[j] as usize;
                proof {
                    assert((gv.adjncy[j as int] as int) < gv.n());
                }
                let pu = a[u] as usize;
                let ghost s1 = seen;
                if pu != p && mark[pu] != p + 1 {
                    proof {
                        assert(!s1.contains(pu as int));
                        seen = seen.insert(pu as int);
                        assert(seen.len() == s1.len() + 1);
                        assert(seen.subset_of(vstd::set_lib::set_int_range(0, ku as int)));
                        vstd::set_lib::lemma_int_range(0, ku as int);
                        vstd::set_lib::lemma_len_subset(seen, vstd::set_lib::set_int_range(0, ku as int));
                    }
                    mark.set(pu, p + 1);
                    if cnt < ku {
                        cnt += 1;
                    }
                }
                proof {
                    assert forall|q: int| #[trigger] seen.contains(q) <==> seen_before.contains(q) || (0 <= q < ku && q
                        != p && slot_into(gv, a@, q, lo as int, j + 1)) by {
                        if slot_into(gv, a@, q, lo as int, j + 1) && !slot_into(gv, a@, q, lo as int, j as int) {
                            let jj = choose|jj: int| lo <= jj < j + 1 && a@[#[trigger] gv.nbr(jj)] as int == q;
                            assert(jj == j);
                        }
                        if slot_into(gv, a@, q, lo as int, j as int) {
                            let jj = choose|jj: int| lo <= jj < j && a@[#[trigger] gv.nbr(jj)] as int == q;
                            assert(slot_into(gv, a@, q, lo as int, j + 1));
                        }
                        if q == pu as int && q != p {
                            assert(a@[gv.nbr(j as int)] as int == q);
                        }
                    }
                }
                j += 1;
            }
            proof {
                let yy = x - s0;
                assert forall|q: int|
                    #[trigger] seen.contains(q) <==> 0 <= q < ku && q != p && exists|y: int|
                        s0 <= y < x + 1 && #[trigger] slot_into(gv, a@, q, gv.lo(mem[y - s0]), gv.hi(mem[y - s0])) by {
                    if 0 <= q < ku && q != p && slot_into(gv, a@, q, gv.lo(mem[yy]), gv.hi(mem[yy])) {
                        assert(seen.contains(q));
                    }
                    if seen.contains(q) && !seen_before.contains(q) {
                        assert(slot_into(gv, a@, q, gv.lo(mem[(x as int) - s0]), gv.hi(mem[(x as int) - s0])));
                    }
                }
            }
            x += 1;
        }
        proof {
            assert(seen =~= adjacent_parts(gv, a@, p as int, ku as int)) by {
                assert forall|q: int| #[trigger] adjacent_parts(gv, a@, p as int, ku as int).contains(q) implies seen.contains(q) by {
                    let v = choose|v: int| 0 <= v < gv.n() && a@[v] as int == p as int && #[trigger] slot_into(gv, a@, q, gv.lo(v), gv.hi(v));
                    let rk = crate::graph::subgraph::rank(a@, p as u32, v);
                    assert(mem[rk] == v);
                    assert(slot_into(gv, a@, q, gv.lo(mem[(s0 + rk) - s0]), gv.hi(mem[(s0 + rk) - s0])));
                }
                assert forall|q: int| seen.contains(q) implies #[trigger] adjacent_parts(gv, a@, p as int, ku as int).contains(q) by {
                    let y = choose|y: int| s0 <= y < start@[p + 1] && #[trigger] slot_into(gv, a@, q, gv.lo(mem[y - s0]), gv.hi(mem[y - s0]));
                    assert(0 <= mem[y - s0] < gv.n());
                }
            }
        }
        counts.push(cnt);
        p += 1;
    }
    counts
}

/// Destination for moving `v` out of its part, among the parts `ps[0..t]`:
/// a part is eligible when the move keeps both loads `pw` inside `window`
/// and every slot from `v`'s part into it is one of `v`'s; the eligible part
/// with the most slots from `v` wins, the first among equals. The pair is the
/// part (-1 for none) and its slot count (0 for none).
pub open spec fn mc_choice(g: GraphView, a: Seq<u32>, pw: Seq<i64>, v: int, window: (int, int), ps: Seq<u32>, t: int) -> (int, int)
    decreases t,
{
    if t <= 0 {
        (-1, 0)
    } else {
        let prev = mc_choice(g, a, pw, v, window, ps, t - 1);
        let from = a[v] as int;
        let to = ps[t - 1];
        let w = g.vwgt[v] as int;
        let cnt = slots_into(g, a, to, g.lo(v), g.hi(v));
        if clamp_i64(pw[from] - w) >= window.0 && clamp_i64(pw[to as int] + w) <= window.1 && cnt
            == links_between(g, a, from, to, g.n()) && cnt > prev.1 {
            (to as int, cnt)
        } else {
            prev
        }
    }
}

/// The part that connectivity reduction moves `v` to under `a`, or -1: `v`
/// must border another part, and its own part must border more than
/// `k / 4 + 1` parts.
pub open spec fn mc_target(g: GraphView, a: Seq<u32>, k: u32, window: (int, int), v: int) -> int {
    let from = a[v] as int;
    let ps = first_parts(g, a, a[v], g.lo(v), g.hi(v));
    if ps.len() > 0 && adjacent_parts(g, a, from, k as int).len() > k / 4 + 1 {
        mc_choice(g, a, loads_of(g.vwgt, a, k as int, g.n()), v, window, ps, ps.len() as int).0
    } else {
        -1
    }
}

/// The first vertex below `v` that connectivity reduction can move, or -1.
pub open spec fn mc_first(g: GraphView, a: Seq<u32>, k: u32, window: (int, int), v: int) -> int
    decreases v,
{
    if v <= 0 {
        -1
    } else {
        let f = mc_first(g, a, k, window, v - 1);
        if f >= 0 {
            f
        } else if mc_target(g, a, k, window, v - 1) >= 0 {
            v - 1
        } else {
            -1
        }
    }
}

/// The assignment after `rounds` rounds of connectivity reduction from `a`:
/// each round moves the first movable vertex, and a round without one ends
/// the process.
pub open spec fn mc_run(g: GraphView, a: Seq<u32>, k: u32, window: (int, int), rounds: nat) -> Seq<u32>
    decreases rounds,
{
    if rounds == 0 {
        a
    } else {
        let v = mc_first(g, a, k, window, g.n());
        if v < 0 {
            a
        } else {
            mc_run(g, a.update(v, mc_target(g, a, k, window, v) as u32), k, window, (rounds - 1) as nat)
        }
    }
}

/// A part other than `from` that the first parts met along `lo..r` leave
/// out has no slot there.
proof fn lemma_slots_into_absent(g: GraphView, a: Seq<u32>, from: u32, p: u32, lo: int, r: int)
    requires
        p != from,
        !first_parts(g, a, from, lo, r).contains(p),
    ensures
        slots_into(g, a, p, lo, r) == 0,
    decreases r - lo,
{
    if r > lo {
        let s = first_parts(g, a, from, lo, r - 1);
        let q = a[g.nbr(r - 1)];
        if !(q == from || s.contains(q)) {
            assert(first_parts(g, a, from, lo, r) == s.push(q));
            assert(s.push(q)[s.len() as int] == q);
            assert forall|i: int| 0 <= i < s.len() implies s[i] != p by {
                assert(s.push(q)[i] == s[i]);
            }
        }
        lemma_slots_into_absent(g, a, from, p, lo, r - 1);
    }
}

/// Once found, the first movable vertex stays the first one.
proof fn lemma_mc_first_stays(g: GraphView, a: Seq<u32>, k: u32, window: (int, int), v: int, m: int)
    requires
        v <= m,
        mc_first(g, a, k, window, v) >= 0,
    ensures
        mc_first(g, a, k, window, m) == mc_first(g, a, k, window, v),
    decreases m - v,
{
    if m > v {
        lemma_mc_first_stays(g, a, k, window, v, m - 1);
    }
}

/// Reduce subdomain connectivity: for up to ten rounds, take the first
/// boundary vertex (in index order) of a part adjacent to more than
/// `k / 4 + 1` parts that can move, within the population bounds, to a part
/// `to` it is the sole link of its part to; among such parts the one it has
/// the most neighbours in wins, the first met among equals. Each round makes
/// at most one move.
pub fn minimize_connectivity(g: &CsrGraph, partition: &mut Partition, ufactor: u32)
    requires
        g@.sound(),
        old(partition)@.fits(g@),
    ensures
        reassigned(old(partition)@, final(partition)@),
        old(partition)@.k <= 1 ==> final(partition)@ == old(partition)@,
        g@.positive() ==> forall|p: int|
            0 <= p < old(partition)@.k ==> kept_toward(
                part_weight_sum(g@.vwgt, old(partition)@.assignment, p, g@.n()),
                #[trigger] part_weight_sum(g@.vwgt, final(partition)@.assignment, p, g@.n()),
                minconn_window(g@.vwgt, old(partition)@.k, ufactor).0,
                minconn_window(g@.vwgt, old(partition)@.k, ufactor).1,
            ),
        old(partition)@.k >= 2 ==> final(partition)@.assignment == mc_run(
            g@,
            old(partition)@.assignment,
            old(partition)@.k,
            minconn_window(g@.vwgt, old(partition)@.k, ufactor),
            10,
        ),
{
    let n = g.n();
    let k = partition.k();
    if k <= 1 {
        return;
    }
    let ghost gv = g@;
    let ghost p0 = partition@;
    let ku = k as usize;
    let vw = g.vwgt();
    let vlen = vw.len();
    let xadj = g.xadj();
    let adjncy = g.adjncy();
    let mut total: i64 = 0;
    let mut i: usize = 0;
    while i < vlen
        invariant
            0 <= i <= vlen,
            vlen == vw@.len(),
            total == sat_weight_total(vw@, i as int),
        decreases vlen - i,
    {
        total = sat_add(total, vw[i] as i64);
        i += 1;
    }
    let target = total / (k as i64);
    let epsilon = sat_add(sat_mul(total, ufactor as i64), 999) / 1000;
    let max_pop = sat_add(target, epsilon);
    let low = sat_add(target, if epsilon == i64::MIN { i64::MAX } else { -epsilon });
    let min_pop = if low > 0 {
        low
    } else {
        0
    };
    let ghost window = minconn_window(gv.vwgt, k, ufactor);
    proof {
        assert(min_pop == window.0 && max_pop == window.1);
    }
    let mut pwgts: Vec<i64> = vec![0i64; ku];
    let mut v: usize = 0;
    while v < n
        invariant
            gv == g@,
            gv.sound(),
            n == gv.n(),
            vw@ == gv.vwgt,
            vlen == vw@.len(),
            partition@ == p0,
            p0.fits(gv),
            ku == p0.k,
            pwgts@.len() == ku,
            0 <= v <= n,
            forall|q: int| 0 <= q < ku ==> #[trigger] pwgts@[q] == part_weight_sum(gv.vwgt, p0.assignment, q, v as int),
        decreases n - v,
    {
        proof {
            assert(vlen == gv.n() * gv.ncon);
            assert((v as int) < gv.n() * gv.ncon) by (nonlinear_arith)
                requires
                    (v as int) < gv.n(),
                    gv.ncon >= 1,
            ;
        }
        let pv = partition.assignment()[v] as usize;
        proof {
            lemma_part_weight_sum_bounds(gv.vwgt, p0.assignment, pv as int, v + 1);
            assert(0x7fff_ffff * (v + 1) <= 0x7fff_ffff * 0x1_0000_0000);
            assert(-0x8000_0000 * (v + 1) >= -0x8000_0000 * 0x1_0000_0000);
        }
        let w = sat_add(pwgts[pv], vw[v] as i64);
        pwgts.set(pv, w);
        v += 1;
    }
    let mut round: usize = 0;
    let ghost mut done: bool = false;
    while round < 10
        invariant
            round <= 10,
            done ==> round < 10 && mc_first(gv, partition@.assignment, k, window, n as int) < 0,
            mc_run(gv, p0.assignment, k, window, 10) == mc_run(gv, partition@.assignment, k, window, (10 - round) as nat),
            gv == g@,
            gv.sound(),
            n == gv.n(),
            vw@ == gv.vwgt,
            vlen == vw@.len(),
            xadj@ == gv.xadj,
            adjncy@ == gv.adjncy,
            ku == p0.k,
            k == p0.k,
            k >= 2,
            reassigned(p0, partition@),
            partition@.assignment.len() == n,
            pwgts@.len() == ku,
            n <= 0x1_0000_0000,
            min_pop == window.0,
            max_pop == window.1,
            forall|q: int| 0 <= q < ku ==> #[trigger] pwgts@[q] == part_weight_sum(gv.vwgt, partition@.assignment, q, n as int),
            gv.positive() ==> forall|q: int|
                0 <= q < ku ==> kept_toward(
                    part_weight_sum(gv.vwgt, p0.assignment, q, n as int),
                    #[trigger] part_weight_sum(gv.vwgt, partition@.assignment, q, n as int),
                    window.0,
                    window.1,
                ),
        ensures
            done || round == 10,
        decreases 10 - round,
    {
        let adj_counts = adjacent_part_counts(g, partition.assignment(), k);
        let ghost ar = partition@.assignment;
        proof {
            assert(pwgts@ =~= loads_of(gv.vwgt, ar, k as int, n as int));
        }
        let mut improved = false;
        let mut v: usize = 0;
        while v < n
            invariant_except_break
                !improved,
            invariant
                forall|q: int| 0 <= q < ku ==> #[trigger] adj_counts@[q] == adjacent_parts(gv, ar, q, k as int).len(),
                !improved ==> partition@.assignment == ar && mc_first(gv, ar, k, window, v as int) < 0 && pwgts@ == loads_of(
                    gv.vwgt,
                    ar,
                    k as int,
                    n as int,
                ),
                improved ==> mc_first(gv, ar, k, window, n as int) >= 0 && partition@.assignment == ar.update(
                    mc_first(gv, ar, k, window, n as int),
                    mc_target(gv, ar, k, window, mc_first(gv, ar, k, window, n as int)) as u32,
                ),
                gv == g@,
                gv.sound(),
                n == gv.n(),
                vw@ == gv.vwgt,
                vlen == vw@.len(),
                xadj@ == gv.xadj,
                adjncy@ == gv.adjncy,
                ku == p0.k,
                k == p0.k,
                reassigned(p0, partition@),
                partition@.assignment.len() == n,
                pwgts@.len() == ku,
                adj_counts@.len() == ku,
                0 <= v <= n,
                n <= 0x1_0000_0000,
                min_pop == window.0,
                max_pop == window.1,
                forall|q: int| 0 <= q < ku ==> #[trigger] pwgts@[q] == part_weight_sum(gv.vwgt, partition@.assignment, q, n as int),
                gv.positive() ==> forall|q: int|
                    0 <= q < ku ==> kept_toward(
                        part_weight_sum(gv.vwgt, p0.assignment, q, n as int),
                        #[trigger] part_weight_sum(gv.vwgt, partition@.assignment, q, n as int),
                        window.0,
                        window.1,
                    ),
            ensures
                improved || v >= n,
            decreases n - v,
        {
            let a = partition.assignment();
            let from = a[v] as usize;
            proof {
                assert(gv.xadj[v as int] <= gv.xadj[v as int + 1] <= gv.xadj[gv.n()]);
                assert(vlen == gv.n() * gv.ncon);
                assert((v as int) < gv.n() * gv.ncon) by (nonlinear_arith)
                    requires
                        (v as int) < gv.n(),
                        gv.ncon >= 1,
                ;
            }
            let lo = xadj[v] as usize;
            let hi = xadj[v + 1] as usize;
            // neighbour counts per foreign part, in order of first appearance
            let mut parts: Vec<u32> = Vec::new();
            let mut cnts: Vec<usize> = Vec::new();
            let mut j = lo;
            while j < hi
                invariant
                    gv == g@,
                    gv.sound(),
                    adjncy@ == gv.adjncy,
                    a@.len() == gv.n(),
                    forall|u: int| 0 <= u < a@.len() ==> #[trigger] a@[u] < k,
                    lo <= j <= hi,
                    hi <= gv.m(),
                    parts@.len() == cnts@.len(),
                    forall|t: int| 0 <= t < parts@.len() ==> (#[trigger] parts@[t]) < k && parts@[t] as int != from as int,
                    forall|t: int| 0 <= t < cnts@.len() ==> (#[trigger] cnts@[t]) <= j - lo,
                    lo == gv.lo(v as int),
                    (v as int) < gv.n(),
                    from as int == a@[v as int] as int,
                    parts@ == first_parts(gv, a@, a@[v as int], lo as int, j as int),
                    forall|t: int| 0 <= t < cnts@.len() ==> #[trigger] cnts@[t] == slots_into(gv, a@, parts@[t], lo as int, j as int),
                decreases hi - j,
            {
                let u = adjncy[j] as usize;
                proof {
                    assert((gv.adjncy[j as int] as int) < gv.n());
                }
                let pu = a[u];
                let ghost fp0 = parts@;
                let ghost c0 = cnts@;
                let ghost mut hit: int = -2;
                proof {
                    crate::refine::gains::lemma_first_parts_distinct(gv, a@, a@[v as int], lo as int, j as int);
                    assert(gv.nbr(j as int) == u as int);
                    assert(a@[gv.nbr(j as int)] == pu);
                    assert(first_parts(gv, a@, a@[v as int], lo as int, j + 1) == if pu == a@[v as int] || fp0.contains(pu) {
                        fp0
                    } else {
                        fp0.push(pu)
                    });
                }
                if pu as usize != from {
                    let mut t: usize = 0;
                    while t < parts.len() && parts[t] != pu
                        invariant
                            0 <= t <= parts@.len(),
                            forall|tt: int| 0 <= tt < t ==> #[trigger] parts@[tt] != pu,
                        decreases parts@.len() - t,
                    {
                        t += 1;
                    }
                    if t < parts.len() {
                        proof {
                            assert(parts@.contains(pu));
                            hit = t as int;
                        }
                        let c = cnts[t] + 1;
                        cnts.set(t, c);
                    } else {
                        proof {
                            assert(!parts@.contains(pu));
                            lemma_slots_into_absent(gv, a@, a@[v as int], pu, lo as int, j as int);
                            hit = -1;
                        }
                        parts.push(pu);
                        cnts.push(1);
                    }
                }
                proof {
                    assert(parts@ =~= first_parts(gv, a@, a@[v as int], lo as int, j + 1));
                    assert forall|tt: int| 0 <= tt < cnts@.len() implies #[trigger] cnts@[tt] == slots_into(
                        gv,
                        a@,
                        parts@[tt],
                        lo as int,
                        j + 1,
                    ) by {
                        assert(slots_into(gv, a@, parts@[tt], lo as int, j + 1) == slots_into(gv, a@, parts@[tt], lo as int, j as int)
                            + if a@[gv.nbr(j as int)] == parts@[tt] { 1int } else { 0 });
                        if tt < c0.len() {
                            assert(parts@[tt] == fp0[tt]);
                            assert(c0[tt] == slots_into(gv, a@, fp0[tt], lo as int, j as int));
                            if hit >= 0 && tt != hit {
                                assert(fp0[tt] != fp0[hit]);
                            }
                        }
                    }
                }
                j += 1;
            }
            let boundary = parts.len() > 0;
            proof {
                assert(a@ == ar);
                assert(hi == gv.hi(v as int));
            }
            if boundary && adj_counts[from] > ku / 4 + 1 {
                let w = vw[v] as i64;
                let mut best_to: Option<usize> = None;
                let mut best_gain: usize = 0;
                let mut t: usize = 0;
                while t < parts.len()
                    invariant
                        a@ == ar,
                        (v as int) < n,
                        from as int == ar[v as int] as int,
                        w == gv.vwgt[v as int],
                        lo == gv.lo(v as int),
                        hi == gv.hi(v as int),
                        min_pop == window.0,
                        max_pop == window.1,
                        pwgts@ == loads_of(gv.vwgt, ar, k as int, n as int),
                        forall|tt: int| 0 <= tt < cnts@.len() ==> #[trigger] cnts@[tt] == slots_into(gv, ar, parts@[tt], lo as int, hi as int),
                        best_gain as int == mc_choice(gv, ar, pwgts@, v as int, window, parts@, t as int).1,
                        match best_to {
                            Some(b) => b as int == mc_choice(gv, ar, pwgts@, v as int, window, parts@, t as int).0,
                            None => mc_choice(gv, ar, pwgts@, v as int, window, parts@, t as int).0 == -1,
                        },
                        gv == g@,
                        gv.sound(),
                        n == gv.n(),
                        xadj@ == gv.xadj,
                        adjncy@ == gv.adjncy,
                        a@.len() == n,
                        forall|u: int| 0 <= u < a@.len() ==> #[trigger] a@[u] < k,
                        parts@.len() == cnts@.len(),
                        forall|tt: int| 0 <= tt < parts@.len() ==> (#[trigger] parts@[tt]) < k && parts@[tt] as int != from as int,
                        pwgts@.len() == ku,
                        ku == k,
                        (from as int) < ku,
                        i32::MIN <= w <= i32::MAX,
                        0 <= t <= parts@.len(),
                        best_to matches Some(b) ==> b < ku && b != from && clamp_i64(pwgts@[from as int] - w) >= min_pop
                            && clamp_i64(pwgts@[b as int] + w) <= max_pop,
                    decreases parts@.len() - t,
                {
                    let to = parts[t] as usize;
                    let cnt = cnts[t];
                    let fits_from = sat_add(pwgts[from], -w) >= min_pop;
                    let fits_to = sat_add(pwgts[to], w) <= max_pop;
                    if fits_from && fits_to {
                        let total_from_to = edges_between(g, a, from, parts[t]);
                        if cnt == total_from_to && cnt > best_gain {
                            best_gain = cnt;
                            best_to = Some(to);
                        }
                    }
                    t += 1;
                }
                if let Some(to) = best_to {
                    let ghost a_before = partition@.assignment;
                    proof {
                        assert(mc_target(gv, ar, k, window, v as int) == to as int);
                        assert(mc_first(gv, ar, k, window, v + 1) == v as int);
                        lemma_mc_first_stays(gv, ar, k, window, v + 1, n as int);
                        assert(a_before[v as int] as int == from as int);
                        assert(w == gv.vwgt[v as int]);
                        lemma_part_weight_sum_move(gv.vwgt, a_before, v as int, to as u32, from as int, n as int);
                        lemma_part_weight_sum_move(gv.vwgt, a_before, v as int, to as u32, to as int, n as int);
                        lemma_part_weight_sum_bounds(gv.vwgt, a_before.update(v as int, to as u32), from as int, n as int);
                        lemma_part_weight_sum_bounds(gv.vwgt, a_before.update(v as int, to as u32), to as int, n as int);
                        assert(0x7fff_ffff * n <= 0x7fff_ffff * 0x1_0000_0000);
                        assert(-0x8000_0000 * n >= -0x8000_0000 * 0x1_0000_0000);
                    }
                    partition.set_part(v, to as u32);
                    let fw = sat_add(pwgts[from], -w);
                    pwgts.set(from, fw);
                    let tw = sat_add(pwgts[to], w);
                    pwgts.set(to, tw);
                    proof {
                        let a2 = partition@.assignment;
                        assert(a2 == a_before.update(v as int, to as u32));
                        assert forall|q: int| 0 <= q < ku implies #[trigger] pwgts@[q] == part_weight_sum(
                            gv.vwgt,
                            a2,
                            q,
                            n as int,
                        ) by {
                            lemma_part_weight_sum_move(gv.vwgt, a_before, v as int, to as u32, q, n as int);
                        }
                        if gv.positive() {
                            assert(gv.vwgt[v as int] > 0);
                            assert forall|q: int| 0 <= q < ku implies kept_toward(
                                part_weight_sum(gv.vwgt, p0.assignment, q, n as int),
                                #[trigger] part_weight_sum(gv.vwgt, a2, q, n as int),
                                window.0,
                                window.1,
                            ) by {
                                lemma_part_weight_sum_move(gv.vwgt, a_before, v as int, to as u32, q, n as int);
                                assert(kept_toward(
                                    part_weight_sum(gv.vwgt, p0.assignment, q, n as int),
                                    part_weight_sum(gv.vwgt, a_before, q, n as int),
                                    window.0,
                                    window.1,
                                ));
                            }
                        }
                    }
                    improved = true;
                    break;
                }
            }
            v += 1;
        }
        if !improved {
            proof {
                done = true;
            }
            break;
        }
        proof {
            let f = mc_first(gv, ar, k, window, n as int);
            assert(mc_run(gv, ar, k, window, (10 - round) as nat) == mc_run(
                gv,
                ar.update(f, mc_target(gv, ar, k, window, f) as u32),
                k,
                window,
                (10 - round - 1) as nat,
            ));
        }
        round += 1;
    }
    proof {
        let cur = partition@.assignment;
        if done {
            assert(mc_run(gv, cur, k, window, (10 - round) as nat) == cur);
        } else {
            assert(mc_run(gv, cur, k, window, 0) == cur);
        }
    }
}

/// Number of slots in `lo..r` whose neighbour lies in part `to`.
pub open spec fn slots_into(g: GraphView, a: Seq<u32>, to: u32, lo: int, r: int) -> int
    decreases r - lo,
{
    if r <= lo {
        0
    } else {
        slots_into(g, a, to, lo, r - 1) + if a[g.nbr(r - 1)] == to {
            1int
        } else {
            0
        }
    }
}

/// Number of adjacency slots from the first `u` vertices, those of part
/// `from`, to vertices of part `to`.
pub open spec fn links_between(g: GraphView, a: Seq<u32>, from: int, to: u32, u: int) -> int
    decreases u,
{
    if u <= 0 {
        0
    } else {
        links_between(g, a, from, to, u - 1) + if a[u - 1] as int == from {
            slots_into(g, a, to, g.lo(u - 1), g.hi(u - 1))
        } else {
            0
        }
    }
}

/// Number of adjacency slots from vertices of part `from` to vertices of part `to`.
fn edges_between(g: &CsrGraph, a: &[u32], from: usize, to: u32) -> (r: usize)
    requires
        g@.sound(),
        a@.len() == g@.n(),
    ensures
        r == links_between(g@, a@, from as int, to, g@.n()),
{
    let ghost gv = g@;
    let n = g.n();
    let xadj = g.xadj();
    let adjncy = g.adjncy();
    let mut total: usize = 0;
    let mut u: usize = 0;
    while u < n
        invariant
            gv == g@,
            gv.sound(),
            n == gv.n(),
            xadj@ == gv.xadj,
            adjncy@ == gv.adjncy,
            a@.len() == n,
            0 <= u <= n,
            total <= gv.xadj[u as int],
            total == links_between(gv, a@, from as int, to, u as int),
        decreases n - u,
    {
        proof {
            assert(gv.xadj[u as int] <= gv.xadj[u as int + 1] <= gv.xadj[gv.n()]);
        }
        if a[u] as usize == from {
            let lo = xadj[u] as usize;
            let hi = xadj[u + 1] as usize;
            let ghost base = total;
            let mut j = lo;
            while j < hi
                invariant
                    gv.sound(),
                    adjncy@ == gv.adjncy,
                    a@.len() == gv.n(),
                    lo <= j <= hi,
                    hi <= gv.m(),
                    base <= lo,
                    total <= base + (j - lo),
                    total == base + slots_into(gv, a@, to, lo as int, j as int),
                decreases hi - j,
            {
                let w = adjncy[j] as usize;
                proof {
                    assert((gv.adjncy[j as int] as int) < gv.n());
                }
                if a[w] == to {
                    total += 1;
                }
                j += 1;
            }
        }
        u += 1;
    }
    total
}

} // verus!
