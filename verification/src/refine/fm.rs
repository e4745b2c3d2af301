use vstd::prelude::*;

use crate::coarsen::matching::{count_true, lemma_count_true_bounds, lemma_count_true_subset, lemma_count_true_update};
use crate::graph::contiguity::{
    contiguity_result, lemma_checked_parts_contiguous, lemma_connected_checks,
    lemma_contiguous_parts_connected, lemma_leaf_leaves_rest_connected, lemma_move_keeps_connected,
    part_without, parts_connected, rest_connected,
};
use crate::graph::csr::{copy_u32, lemma_topo_symmetric, lemma_valid_facts, CsrGraph, GraphView};
use crate::graph::metrics::{compute_cut, cross_weight, cut_total, edge_cut, half_toward_zero};
use crate::graph::partition::{opt_u32_view, Partition, PartitionView};
use crate::graph::topology::{lemma_reaches_ends, lemma_reaches_reverse, lemma_reaches_trans, reach_set, Topo};
use crate::refine::boundary::{boundary_flags, on_boundary, BoundarySet};
use crate::refine::gain_facts::stored_with;
use crate::refine::gain::GainTable;
use crate::refine::gains::{
    abs_weight, best_volume_gain_of, best_volume_gain_spec, cut_candidates, cut_gain, cut_gain_of, first_parts,
    lemma_abs_weight_bound_pub, part_weight, volume_gain, volume_gain_of,
};
use crate::api::{div_toward_zero, share_total};
use crate::util::{clamp_i64, sat_add, sat_mul};

pub use crate::refine::gains::{best_volume_gain, compute_gain, compute_volume_gain};

verus! {

/// What FM refinement minimises.
#[derive(Debug, Clone, Copy, PartialEq, Eq, Structural)]
pub enum ObjectiveType {
    /// Total weight of the edges between parts.
    Cut,
    /// Number of (vertex, foreign adjacent part) pairs.
    Volume,
}

/// The vertices of part `from` other than `v`.
pub open spec fn part_mask(a: Seq<u32>, n: int, v: int, from: int) -> Seq<bool> {
    Seq::new(n as nat, |u: int| a[u] as int == from && u != v)
}

/// The first slot in `lo..r` whose neighbour lies in part `from`.
pub open spec fn first_in_part(g: GraphView, a: Seq<u32>, from: int, lo: int, r: int) -> Option<int>
    decreases r - lo,
{
    if r <= lo {
        None
    } else {
        match first_in_part(g, a, from, lo, r - 1) {
            Some(j) => Some(j),
            None => if a[g.nbr(r - 1)] as int == from {
                Some(r - 1)
            } else {
                None
            },
        }
    }
}

/// Moving `v` out of part `from` would split what is left of that part:
/// a search from the first neighbour of `v` in `from`, through the rest of
/// `from`, reaches fewer vertices than that rest holds.
pub open spec fn disconnects(g: GraphView, a: Seq<u32>, v: int, from: int) -> bool {
    let n = g.n();
    let mask = part_mask(a, n, v, from);
    match first_in_part(g, a, from, g.lo(v), g.hi(v)) {
        None => false,
        Some(j) => {
            let s = g.nbr(j);
            let allowed = if s == v {
                mask.update(v, true)
            } else {
                mask
            };
            count_true(Seq::new(n as nat, |u: int| g.topo().reaches(allowed, s, u))) < count_true(mask)
        },
    }
}

proof fn lemma_first_in_part(g: GraphView, a: Seq<u32>, from: int, lo: int, r: int, r2: int)
    requires
        r <= r2,
    ensures
        first_in_part(g, a, from, lo, r) matches Some(j) ==> first_in_part(g, a, from, lo, r2) == Some(j),
        first_in_part(g, a, from, lo, r2) matches Some(j) ==> lo <= j < r2 && a[g.nbr(j)] as int == from,
    decreases r2 - lo,
{
    if r2 > lo {
        if r < r2 {
            lemma_first_in_part(g, a, from, lo, r, r2 - 1);
        }
        lemma_first_in_part(g, a, from, lo, r2 - 1, r2 - 1);
    }
}

/// Without a first slot into `from`, no slot in `lo..r` leads into `from`.
proof fn lemma_first_in_part_none(g: GraphView, a: Seq<u32>, from: int, lo: int, r: int)
    requires
        first_in_part(g, a, from, lo, r) is None,
    ensures
        forall|j: int| lo <= j < r ==> a[#[trigger] g.nbr(j)] as int != from,
    decreases r - lo,
{
    if r > lo {
        lemma_first_in_part_none(g, a, from, lo, r - 1);
    }
}

/// On a valid graph, when moving `v` out of its part does not disconnect the
/// rest of the part (and `v` has a neighbour there), that rest is connected.
proof fn lemma_kept_rest_connected(g: GraphView, a: Seq<u32>, v: int)
    requires
        g.valid(),
        a.len() == g.n(),
        0 <= v < g.n(),
        !disconnects(g, a, v, a[v] as int),
        first_in_part(g, a, a[v] as int, g.lo(v), g.hi(v)) is Some,
    ensures
        rest_connected(g, a, v),
{
    lemma_valid_facts(g);
    lemma_topo_symmetric(g);
    let t = g.topo();
    let n = g.n();
    let from = a[v] as int;
    let j = first_in_part(g, a, from, g.lo(v), g.hi(v))->0;
    lemma_first_in_part(g, a, from, g.lo(v), g.hi(v), g.hi(v));
    assert(t.xadj[v + 1] <= t.xadj[t.n()]);
    let s = g.nbr(j);
    assert(0 <= s < n);
    assert(s != v);
    let mask = part_mask(a, n, v, from);
    assert(mask =~= part_without(a, a[v], n, v));
    let r = Seq::new(n as nat, |u: int| t.reaches(mask, s, u));
    assert forall|u: int| 0 <= u < r.len() && #[trigger] r[u] implies mask[u] by {
        lemma_reaches_ends(t, mask, s, u);
    }
    lemma_count_true_subset(r, mask);
    assert forall|x: int, y: int|
        0 <= x < n && 0 <= y < n && x != v && y != v && a[x] == a[v] && a[y] == a[v]
            implies #[trigger] t.reaches(part_without(a, a[v], n, v), x, y) by {
        assert(mask[x] && mask[y]);
        assert(r[x] && r[y]);
        lemma_reaches_reverse(t, mask, s, x);
        lemma_reaches_trans(t, mask, x, s, y);
    }
}

/// On a valid graph with connected parts, `v` may leave its part without
/// splitting it when it has at most one neighbour slot there, or when the
/// search finds the rest of the part still connected.
proof fn lemma_source_stays_connected(g: GraphView, a: Seq<u32>, v: int)
    requires
        g.valid(),
        a.len() == g.n(),
        0 <= v < g.n(),
        parts_connected(g, a),
        (forall|j1: int, j2: int|
            #![trigger a[g.nbr(j1)], a[g.nbr(j2)]]
            g.lo(v) <= j1 < g.hi(v) && g.lo(v) <= j2 < g.hi(v) && a[g.nbr(j1)] == a[v] && a[g.nbr(j2)]
                == a[v] ==> j1 == j2) || !disconnects(g, a, v, a[v] as int),
    ensures
        rest_connected(g, a, v),
{
    let from = a[v] as int;
    if first_in_part(g, a, from, g.lo(v), g.hi(v)) is None {
        lemma_first_in_part_none(g, a, from, g.lo(v), g.hi(v));
        lemma_leaf_leaves_rest_connected(g, a, v, 0);
    } else if !disconnects(g, a, v, from) {
        lemma_kept_rest_connected(g, a, v);
    } else {
        let j0 = first_in_part(g, a, from, g.lo(v), g.hi(v))->0;
        lemma_first_in_part(g, a, from, g.lo(v), g.hi(v), g.hi(v));
        assert forall|j: int| g.lo(v) <= j < g.hi(v) && a[#[trigger] g.nbr(j)] == a[v] implies g.nbr(j) == g.nbr(j0) by {
            assert(a[g.nbr(j0)] == a[v]);
        }
        lemma_leaf_leaves_rest_connected(g, a, v, g.nbr(j0));
    }
}

fn first_neighbor_in_part(g: &CsrGraph, a: &[u32], v: usize, from: usize) -> (r: Option<usize>)
    requires
        g@.sound(),
        a@.len() == g@.n(),
        (v as int) < g@.n(),
    ensures
        match first_in_part(g@, a@, from as int, g@.lo(v as int), g@.hi(v as int)) {
            None => r is None,
            Some(j) => r == Some(g@.nbr(j) as usize) && (g@.nbr(j) as int) < g@.n(),
        },
{
    let ghost gv = g@;
    let xadj = g.xadj();
    let adjncy = g.adjncy();
    proof {
        assert(gv.xadj[v as int] <= gv.xadj[v as int + 1] <= gv.xadj[gv.n()]);
    }
    let lo = xadj[v] as usize;
    let hi = xadj[v + 1] as usize;
    let mut j = lo;
    while j < hi
        invariant
            gv == g@,
            gv.sound(),
            xadj@ == gv.xadj,
            adjncy@ == gv.adjncy,
            a@.len() == gv.n(),
            lo == gv.lo(v as int),
            hi == gv.hi(v as int),
            hi <= gv.m(),
            lo <= j <= hi,
            first_in_part(gv, a@, from as int, lo as int, j as int) is None,
        decreases hi - j,
    {
        let u = adjncy[j] as usize;
        proof {
            assert((gv.adjncy[j as int] as int) < gv.n());
        }
        if a[u] as usize == from {
            proof {
                lemma_first_in_part(gv, a@, from as int, lo as int, j + 1, hi as int);
            }
            return Some(u);
        }
        j += 1;
    }
    None
}

fn count_flags(s: &[bool]) -> (r: usize)
    ensures
        r == count_true(s@),
{
    let mut c: usize = 0;
    let mut i: usize = 0;
    while i < s.len()
        invariant
            0 <= i <= s@.len(),
            c == count_true(s@.take(i as int)),
            c <= i,
        decreases s@.len() - i,
    {
        proof {
            assert(s@.take(i + 1).drop_last() =~= s@.take(i as int));
        }
        if s[i] {
            c += 1;
        }
        i += 1;
    }
    proof {
        assert(s@.take(s@.len() as int) =~= s@);
    }
    c
}

/// Whether moving `v` out of part `from_part` would leave the rest of that
/// part disconnected, judged by a breadth-first search from the first
/// neighbour of `v` in `from_part` that never passes through `v`.
pub fn would_disconnect(g: &CsrGraph, assignment: &[u32], v: usize, from_part: usize) -> (r: bool)
    requires
        g@.sound(),
        assignment@.len() == g@.n(),
        (v as int) < g@.n(),
    ensures
        r == disconnects(g@, assignment@, v as int, from_part as int),
{
    let ghost gv = g@;
    let n = g.n();
    let start = match first_neighbor_in_part(g, assignment, v, from_part) {
        Some(s) => s,
        None => {
            return false;
        },
    };
    let mut mask: Vec<bool> = Vec::new();
    let mut u: usize = 0;
    while u < n
        invariant
            n == gv.n(),
            assignment@.len() == n,
            0 <= u <= n,
            mask@.len() == u,
            forall|w: int| 0 <= w < u ==> #[trigger] mask@[w] == (assignment@[w] as int == from_part as int && w != v),
        decreases n - u,
    {
        mask.push(assignment[u] as usize == from_part && u != v);
        u += 1;
    }
    proof {
        assert(mask@ =~= part_mask(assignment@, n as int, v as int, from_part as int));
    }
    let part_size = count_flags(mask.as_slice());
    let mut allowed: Vec<bool> = copy_bools(mask.as_slice());
    if start == v {
        allowed.set(v, true);
    }
    proof {
        lemma_first_in_part(gv, assignment@, from_part as int, gv.lo(v as int), gv.hi(v as int), gv.hi(v as int));
        assert(assignment@[start as int] as int == from_part as int);
        assert(gv.topo().well_indexed());
    }
    let visited = reach_set(g.xadj(), g.adjncy(), start, allowed.as_slice());
    let reached = count_flags(visited.as_slice());
    proof {
        let t = Topo { xadj: gv.xadj, adjncy: gv.adjncy };
        assert(t == gv.topo());
        assert(visited@ =~= Seq::new(n as nat, |w: int| gv.topo().reaches(allowed@, start as int, w)));
    }
    reached < part_size
}

fn copy_bools(s: &[bool]) -> (r: Vec<bool>)
    ensures
        r@ == s@,
{
    let mut r: Vec<bool> = Vec::new();
    let mut i: usize = 0;
    while i < s.len()
        invariant
            0 <= i <= s@.len(),
            r@ == s@.take(i as int),
        decreases s@.len() - i,
    {
        r.push(s[i]);
        proof {
            assert(s@.take(i + 1) =~= s@.take(i as int).push(s@[i as int]));
        }
        i += 1;
    }
    proof {
        assert(s@.take(s@.len() as int) =~= s@);
    }
    r
}

/// A saved assignment and the cut recorded with it.
pub struct Checkpoint {
    pub assignment: Vec<u32>,
    pub cut: i64,
}

/// Working state of FM refinement on one graph.
pub struct FmState<'g> {
    pub graph: &'g CsrGraph,
    pub assignment: Vec<u32>,
    pub k: u32,
    pub gain_table: GainTable,
    pub boundary: BoundarySet,
    /// `pwgts[c][part]`: weight of constraint `c` in part `part`.
    pub pwgts: Vec<Vec<i64>>,
    pub current_cut: i64,
    /// Integer target shares per part, applied to constraint 0.
    pub tpwgts: Option<Vec<u32>>,
    pub objective: ObjectiveType,
}

/// Weight of constraint `c` of the vertices below `i` that lie in part `p`.
pub open spec fn part_load(g: GraphView, a: Seq<u32>, c: int, p: int, i: int) -> int
    decreases i,
{
    if i <= 0 {
        0
    } else {
        part_load(g, a, c, p, i - 1) + if a[i - 1] as int == p {
            g.vw(i - 1, c)
        } else {
            0
        }
    }
}

/// Weight of constraint `c` of the vertices below `i`.
pub open spec fn total_load(g: GraphView, c: int, i: int) -> int
    decreases i,
{
    if i <= 0 {
        0
    } else {
        total_load(g, c, i - 1) + g.vw(i - 1, c)
    }
}

/// Weight of constraint `c` of the vertices below `i` whose part is below `p`.
pub open spec fn below_load(g: GraphView, a: Seq<u32>, c: int, p: int, i: int) -> int
    decreases i,
{
    if i <= 0 {
        0
    } else {
        below_load(g, a, c, p, i - 1) + if (a[i - 1] as int) < p {
            g.vw(i - 1, c)
        } else {
            0
        }
    }
}

/// Adding part `p` to the parts below it adds its load.
proof fn lemma_below_load_step(g: GraphView, a: Seq<u32>, c: int, p: int, i: int)
    ensures
        below_load(g, a, c, p + 1, i) == below_load(g, a, c, p, i) + part_load(g, a, c, p, i),
        below_load(g, a, c, 0, i) == 0,
    decreases i,
{
    if i > 0 {
        lemma_below_load_step(g, a, c, p, i - 1);
    }
}

/// With every vertex in a part below `k`, the parts below `k` hold the whole
/// load, and any partial load stays within the range of the weights.
proof fn lemma_below_load_all(g: GraphView, a: Seq<u32>, c: int, k: int, p: int, i: int)
    requires
        0 <= i <= a.len(),
        forall|v: int| 0 <= v < i ==> (#[trigger] a[v] as int) < k,
    ensures
        below_load(g, a, c, k, i) == total_load(g, c, i),
        -0x8000_0000 * i <= below_load(g, a, c, p, i) <= 0x7fff_ffff * i,
    decreases i,
{
    if i > 0 {
        lemma_below_load_all(g, a, c, k, p, i - 1);
    }
}

/// Exact part loads add up, saturating or not, to the total load.
pub proof fn lemma_sat_total_loads(g: GraphView, a: Seq<u32>, c: int, pw: Seq<i64>, k: int, p: int)
    requires
        g.n() <= 0x1_0000_0000,
        a.len() == g.n(),
        forall|v: int| 0 <= v < a.len() ==> (#[trigger] a[v] as int) < k,
        0 <= p <= k,
        pw.len() == k,
        forall|q: int| 0 <= q < k ==> #[trigger] pw[q] == part_load(g, a, c, q, g.n()),
    ensures
        sat_total(pw, p) == below_load(g, a, c, p, g.n()),
        p == k ==> sat_total(pw, p) == total_load(g, c, g.n()),
    decreases p,
{
    let n = g.n();
    lemma_below_load_step(g, a, c, 0, n);
    if p > 0 {
        lemma_sat_total_loads(g, a, c, pw, k, p - 1);
        lemma_below_load_step(g, a, c, p - 1, n);
        lemma_below_load_all(g, a, c, k, p, n);
        assert(-0x8000_0000 * n >= -0x8000_0000 * 0x1_0000_0000);
        assert(0x7fff_ffff * n <= 0x7fff_ffff * 0x1_0000_0000);
    }
    lemma_below_load_all(g, a, c, k, p, n);
}

/// Moving `v` from its part to `to` moves its weight between the two loads.
proof fn lemma_part_load_move(g: GraphView, a: Seq<u32>, v: int, to: u32, c: int, p: int, i: int)
    requires
        0 <= v < a.len(),
        0 <= i <= a.len(),
    ensures
        part_load(g, a.update(v, to), c, p, i) == part_load(g, a, c, p, i) + if v < i {
            (if to as int == p {
                g.vw(v, c)
            } else {
                0
            }) - (if a[v] as int == p {
                g.vw(v, c)
            } else {
                0
            })
        } else {
            0
        },
    decreases i,
{
    if i > 0 {
        lemma_part_load_move(g, a, v, to, c, p, i - 1);
    }
}

/// `-x`, with `i64::MIN` mapped to `i64::MAX`.
pub open spec fn neg_sat(x: i64) -> int {
    if x == i64::MIN {
        i64::MAX as int
    } else {
        -x
    }
}

/// Lowest allowed weight around target `t`: the target less its allowance.
pub open spec fn window_lo(t: int, ufactor: u32) -> int {
    clamp_i64(t - epsilon_spec(t as i64, ufactor)) as int
}

/// Highest allowed weight around target `t`: the target plus its allowance.
pub open spec fn window_hi(t: int, ufactor: u32) -> int {
    clamp_i64(t + epsilon_spec(t as i64, ufactor)) as int
}

/// Every part's load of every constraint lies in the window around its
/// target, the targets taken from the constraint's total load, `k` and the
/// shares.
pub open spec fn loads_balanced(g: GraphView, a: Seq<u32>, k: u32, tpwgts: Option<Seq<u32>>, ufactor: u32) -> bool {
    forall|c: int, p: int|
        0 <= c < g.ncon && 0 <= p < k ==> window_lo(
            part_target(total_load(g, c, g.n()), k, tpwgts, p, c),
            ufactor,
        ) <= #[trigger] part_load(g, a, c, p, g.n()) <= window_hi(
            part_target(total_load(g, c, g.n()), k, tpwgts, p, c),
            ufactor,
        )
}

/// A load over `i` vertices lies within `i` times the range of one weight.
pub proof fn lemma_part_load_bounds(g: GraphView, a: Seq<u32>, c: int, p: int, i: int)
    requires
        i >= 0,
    ensures
        -0x8000_0000 * i <= part_load(g, a, c, p, i) <= 0x7fff_ffff * i,
        -0x8000_0000 * i <= total_load(g, c, i) <= 0x7fff_ffff * i,
    decreases i,
{
    if i > 0 {
        lemma_part_load_bounds(g, a, c, p, i - 1);
    }
}

/// Weights of each constraint per part, summed with saturation.
pub(crate) fn part_weights(g: &CsrGraph, a: &[u32], k: u32) -> (r: Vec<Vec<i64>>)
    requires
        g@.sound(),
        a@.len() == g@.n(),
        forall|v: int| 0 <= v < a@.len() ==> #[trigger] a@[v] < k,
    ensures
        r@.len() == g@.ncon,
        forall|c: int| 0 <= c < r@.len() ==> (#[trigger] r@[c])@.len() == k,
        forall|c: int, p: int| 0 <= c < r@.len() && 0 <= p < k ==> #[trigger] r@[c]@[p] == part_load(g@, a@, c, p, g@.n()),
{
    let ghost gv = g@;
    let n = g.n();
    let ncon = g.ncon() as usize;
    let vw = g.vwgt();
    let vlen = vw.len();
    let mut r: Vec<Vec<i64>> = Vec::new();
    let mut c: usize = 0;
    while c < ncon
        invariant
            0 <= c <= ncon,
            r@.len() == c,
            forall|cc: int| 0 <= cc < c ==> (#[trigger] r@[cc])@.len() == k,
            forall|cc: int, p: int| 0 <= cc < c && 0 <= p < k ==> #[trigger] r@[cc]@[p] == 0,
        decreases ncon - c,
    {
        r.push(vec![0i64; k as usize]);
        c += 1;
    }
    let mut v: usize = 0;
    while v < n
        invariant
            gv == g@,
            gv.sound(),
            n == gv.n(),
            ncon == gv.ncon,
            vw@ == gv.vwgt,
            vlen == vw@.len(),
            a@.len() == n,
            forall|u: int| 0 <= u < a@.len() ==> #[trigger] a@[u] < k,
            0 <= v <= n,
            r@.len() == ncon,
            forall|cc: int| 0 <= cc < r@.len() ==> (#[trigger] r@[cc])@.len() == k,
            forall|cc: int, p: int| 0 <= cc < ncon && 0 <= p < k ==> #[trigger] r@[cc]@[p] == part_load(gv, a@, cc, p, v as int),
        decreases n - v,
    {
        let part = a[v] as usize;
        let mut c: usize = 0;
        while c < ncon
            invariant
                gv == g@,
                gv.sound(),
                n == gv.n(),
                ncon == gv.ncon,
                vw@ == gv.vwgt,
                vlen == vw@.len(),
                (v as int) < n,
                (part as int) < k,
                part as int == a@[v as int] as int,
                a@.len() == n,
                0 <= c <= ncon,
                r@.len() == ncon,
                forall|cc: int| 0 <= cc < r@.len() ==> (#[trigger] r@[cc])@.len() == k,
                forall|cc: int, p: int|
                    0 <= cc < ncon && 0 <= p < k ==> #[trigger] r@[cc]@[p] == part_load(
                        gv,
                        a@,
                        cc,
                        p,
                        if cc < c {
                            v + 1
                        } else {
                            v as int
                        },
                    ),
            decreases ncon - c,
        {
            proof {
                assert((v as int) * ncon + c < gv.n() * ncon) by (nonlinear_arith)
                    requires
                        (v as int) < gv.n(),
                        c < ncon,
                ;
                assert(vlen == gv.n() * ncon);
            }
            let w = vw[v * ncon + c] as i64;
            let old_w = r[c][part];
            proof {
                lemma_part_load_bounds(gv, a@, c as int, part as int, v + 1);
                assert(gv.n() <= 0x1_0000_0000);
                assert(0x7fff_ffff * (v + 1) <= 0x7fff_ffff * 0x1_0000_0000);
                assert(-0x8000_0000 * (v + 1) >= -0x8000_0000 * 0x1_0000_0000);
                assert(old_w == part_load(gv, a@, c as int, part as int, v as int));
                assert(part_load(gv, a@, c as int, part as int, v + 1) == old_w + w);
            }
            r[c].set(part, sat_add(old_w, w));
            c += 1;
        }
        v += 1;
    }
    r
}

/// `x` clamped to `[-m, m]`.
fn clamp_gain_to(x: i64, m: i32) -> (r: i32)
    requires
        m >= 1,
    ensures
        -m <= r <= m,
        r == (if x < -m {
            -m
        } else if x > m {
            m as int
        } else {
            x as int
        }),
{
    if x < -(m as i64) {
        -m
    } else if x > m as i64 {
        m
    } else {
        x as i32
    }
}

/// Move gain of `v` under `objective`, exactly.
fn vertex_gain(g: &CsrGraph, a: &[u32], v: usize, objective: ObjectiveType, k: u32) -> (r: i64)
    requires
        g@.sound(),
        a@.len() == g@.n(),
        (v as int) < g@.n(),
    ensures
        r == match objective {
            ObjectiveType::Cut => cut_gain(g@, a@, v as int),
            ObjectiveType::Volume => best_volume_gain_spec(g@, a@, v as int, a@[v as int], k),
        },
{
    match objective {
        ObjectiveType::Cut => cut_gain_of(g, a, v),
        ObjectiveType::Volume => best_volume_gain_of(g, a, v, a[v], k),
    }
}

/// Gain of moving `v` under `objective`: the edge-cut gain to its best
/// adjacent part, or the volume gain.
pub open spec fn objective_gain(g: GraphView, a: Seq<u32>, v: int, objective: ObjectiveType, k: u32) -> int {
    match objective {
        ObjectiveType::Cut => cut_gain(g, a, v),
        ObjectiveType::Volume => best_volume_gain_spec(g, a, v, a[v], k),
    }
}

/// `x` clamped to `[-m, m]`.
pub open spec fn clamp_to(x: int, m: i32) -> i32 {
    if x < -m {
        (-m) as i32
    } else if x > m {
        m
    } else {
        x as i32
    }
}

/// The gain table of the boundary vertices, each stored with its clamped gain
/// in increasing vertex order.
fn boundary_table(
    g: &CsrGraph,
    a: &[u32],
    boundary: &BoundarySet,
    objective: ObjectiveType,
    k: u32,
    max_gain: i32,
) -> (t: GainTable)
    requires
        g@.sound(),
        a@.len() == g@.n(),
        boundary@.len() == g@.n(),
        max_gain >= 1,
    ensures
        t.wf(),
        t@.n == g@.n(),
        t@.max_gain == max_gain,
        forall|u: int| 0 <= u < g@.n() ==> (#[trigger] t@.contains(u as u32) <==> boundary@[u]),
        forall|u: int|
            0 <= u < g@.n() && #[trigger] boundary@[u] ==> stored_with(
                t@,
                u as u32,
                clamp_to(objective_gain(g@, a@, u, objective, k), max_gain),
            ),
{
    let n = g.n();
    let mut t = GainTable::new(n, max_gain);
    let members = boundary.iter();
    let mut i: usize = 0;
    while i < members.len()
        invariant
            g@.sound(),
            a@.len() == g@.n(),
            n == g@.n(),
            boundary@.len() == n,
            forall|x: int, y: int| 0 <= x < y < members@.len() ==> members@[x] < members@[y],
            forall|x: int| 0 <= x < members@.len() ==> (#[trigger] members@[x] as int) < boundary@.len(),
            0 <= i <= members@.len(),
            t.wf(),
            t@.n == n,
            t@.max_gain == max_gain,
            max_gain >= 1,
            forall|w: u32| #[trigger] t@.contains(w) ==> exists|x: int| 0 <= x < i && members@[x] == w,
            forall|x: int|
                0 <= x < i ==> stored_with(
                    t@,
                    #[trigger] members@[x],
                    clamp_to(objective_gain(g@, a@, members@[x] as int, objective, k), max_gain),
                ),
        decreases members@.len() - i,
    {
        let v = members[i];
        let gain = vertex_gain(g, a, v as usize, objective, k);
        let cg = clamp_gain_to(gain, max_gain);
        proof {
            if t@.contains(v) {
                let x = choose|x: int| 0 <= x < i && members@[x] == v;
                assert(members@[x] < members@[i as int]);
            }
        }
        let ghost t0 = t@;
        proof {
            t.lemma_view_wf();
        }
        t.insert(v, cg);
        proof {
            crate::refine::gain::lemma_inserted_contains(t0, v, cg, t@);
            crate::refine::gain_facts::lemma_inserted_holds(t0, v, cg, t@);
            assert forall|w: u32| #[trigger] t@.contains(w) implies exists|x: int| 0 <= x < i + 1 && members@[x] == w by {
                if w != v {
                    assert(t0.contains(w));
                    let x = choose|x: int| 0 <= x < i && members@[x] == w;
                } else {
                    assert(members@[i as int] == w);
                }
            }
        }
        i += 1;
    }
    proof {
        t.lemma_view_wf();
        assert forall|u: int| 0 <= u < g@.n() implies (#[trigger] t@.contains(u as u32) <==> boundary@[u]) by {
            if t@.contains(u as u32) {
                let x = choose|x: int| 0 <= x < members@.len() && members@[x] == u as u32;
            }
            if boundary@[u] {
                assert(members@.contains(u as u32));
                let x = choose|x: int| 0 <= x < members@.len() && members@[x] == u as u32;
                crate::refine::gain_facts::lemma_holds_facts(
                    t@,
                    members@[x],
                    clamp_to(objective_gain(g@, a@, members@[x] as int, objective, k), max_gain),
                );
            }
        }
        assert forall|u: int| 0 <= u < g@.n() && #[trigger] boundary@[u] implies stored_with(
            t@,
            u as u32,
            clamp_to(objective_gain(g@, a@, u, objective, k), max_gain),
        ) by {
            assert(members@.contains(u as u32));
            let x = choose|x: int| 0 <= x < members@.len() && members@[x] == u as u32;
        }
    }
    t
}

/// Largest of the first `j` entries of `w` (`w[0]` when `j <= 1`).
pub open spec fn prefix_max(w: Seq<i32>, j: int) -> int
    decreases j,
{
    if j <= 1 {
        w[0] as int
    } else {
        let m = prefix_max(w, j - 1);
        if w[j - 1] as int > m {
            w[j - 1] as int
        } else {
            m
        }
    }
}

/// Largest degree among the first `v` vertices (0 when there are none).
pub open spec fn max_degree_upto(g: GraphView, v: int) -> int
    decreases v,
{
    if v <= 0 {
        0
    } else {
        let m = max_degree_upto(g, v - 1);
        let d = g.hi(v - 1) - g.lo(v - 1);
        if d > m {
            d
        } else {
            m
        }
    }
}

/// Largest stored edge weight, 1 without stored weights or slots.
pub open spec fn largest_edge_weight(g: GraphView) -> int {
    match g.adjwgt {
        Some(w) => if w.len() == 0 {
            1
        } else {
            prefix_max(w, w.len() as int)
        },
        None => 1,
    }
}

/// Largest degree, 1 for an empty graph.
pub open spec fn largest_degree(g: GraphView) -> int {
    if g.n() == 0 {
        1
    } else {
        max_degree_upto(g, g.n())
    }
}

/// The product of the largest edge weight and the largest degree (held
/// within `i64`), brought into `1..=i32::MAX`.
pub open spec fn gain_bound_spec(g: GraphView) -> int {
    let prod = clamp_i64(largest_edge_weight(g) * largest_degree(g)) as int;
    if prod < 1 {
        1
    } else if prod > i32::MAX {
        i32::MAX as int
    } else {
        prod
    }
}

/// Largest stored edge weight (1 without stored weights) times the largest
/// degree (1 for an empty graph), at least 1 and at most `i32::MAX`.
fn gain_bound(g: &CsrGraph) -> (r: i32)
    requires
        g@.sound(),
    ensures
        r >= 1,
        r == gain_bound_spec(g@),
{
    let ghost gv = g@;
    let n = g.n();
    let xadj = g.xadj();
    let max_ew: i64 = match g.adjwgt() {
        Some(w) => {
            if w.len() == 0 {
                1
            } else {
                let mut m: i64 = w[0] as i64;
                let mut j: usize = 1;
                while j < w.len()
                    invariant
                        1 <= j <= w@.len(),
                        i32::MIN <= m <= i32::MAX,
                        m == prefix_max(w@, j as int),
                    decreases w@.len() - j,
                {
                    if w[j] as i64 > m {
                        m = w[j] as i64;
                    }
                    j += 1;
                }
                m
            }
        },
        None => 1,
    };
    assert(max_ew == largest_edge_weight(gv));
    let max_deg: i64 = if n == 0 {
        1
    } else {
        let mut m: i64 = 0;
        let mut v: usize = 0;
        while v < n
            invariant
                g@.sound(),
                n == g@.n(),
                xadj@ == g@.xadj,
                0 <= v <= n,
                0 <= m <= u32::MAX,
                m == max_degree_upto(g@, v as int),
            decreases n - v,
        {
            proof {
                assert(g@.xadj[v as int] <= g@.xadj[v as int + 1]);
            }
            let d = (xadj[v + 1] - xadj[v]) as i64;
            if d > m {
                m = d;
            }
            v += 1;
        }
        m
    };
    assert(max_deg == largest_degree(gv));
    let prod = sat_mul(max_ew, max_deg);
    if prod < 1 {
        1
    } else if prod > i32::MAX as i64 {
        i32::MAX
    } else {
        prod as i32
    }
}

impl<'g> FmState<'g> {
    /// Well-formed state over its graph.
    pub open spec fn wf(&self) -> bool {
        let g = self.graph@;
        &&& g.sound()
        &&& self.assignment@.len() == g.n()
        &&& self.k >= 1
        &&& forall|v: int| 0 <= v < self.assignment@.len() ==> #[trigger] self.assignment@[v] < self.k
        &&& self.gain_table.wf()
        &&& self.gain_table@.n == g.n()
        &&& self.boundary@.len() == g.n()
        &&& self.pwgts@.len() == g.ncon
        &&& forall|c: int| 0 <= c < self.pwgts@.len() ==> (#[trigger] self.pwgts@[c])@.len() == self.k
        &&& self.tpwgts matches Some(t) ==> t@.len() == self.k
    }

    /// The gain table holds exactly the boundary vertices of the current
    /// assignment, each with its gain clamped to the table's bound.
    pub open spec fn table_fresh(&self) -> bool {
        let g = self.graph@;
        let a = self.assignment@;
        &&& forall|u: int| 0 <= u < g.n() ==> (#[trigger] self.gain_table@.contains(u as u32) <==> on_boundary(g, a, u))
        &&& forall|u: int|
            0 <= u < g.n() && #[trigger] on_boundary(g, a, u) ==> stored_with(
                self.gain_table@,
                u as u32,
                clamp_to(objective_gain(g, a, u, self.objective, self.k), self.gain_table@.max_gain),
            )
    }

    /// The tracked part weights are the loads of the current assignment.
    pub open spec fn loads_exact(&self) -> bool {
        forall|c: int, p: int|
            0 <= c < self.graph@.ncon && 0 <= p < self.k ==> #[trigger] self.pwgts@[c]@[p] == part_load(
                self.graph@,
                self.assignment@,
                c,
                p,
                self.graph@.n(),
            )
    }

    /// Set up refinement of `p` on `g`: part weights, boundary, gain table of
    /// the boundary vertices and the current cut.
    pub fn new(g: &'g CsrGraph, p: Partition, objective: ObjectiveType) -> (s: Self)
        requires
            g@.sound(),
            p@.fits(g@),
            p@.tpwgts matches Some(t) ==> t.len() == p@.k,
        ensures
            s.wf(),
            s.loads_exact(),
            s.graph == g,
            s.assignment@ == p@.assignment,
            s.k == p@.k,
            opt_u32_view(s.tpwgts) == p@.tpwgts,
            s.objective == objective,
            s.current_cut == edge_cut(g@, p@.assignment),
            forall|v: int| 0 <= v < g@.n() ==> #[trigger] s.boundary@[v] == on_boundary(g@, p@.assignment, v),
            s.table_fresh(),
    {
        let k = p.k();
        let tpwgts = match p.tpwgts() {
            Some(t) => Some(copy_u32(t)),
            None => None,
        };
        let assignment = p.into_assignment();
        let pwgts = part_weights(g, assignment.as_slice(), k);
        let max_gain = gain_bound(g);
        let boundary = BoundarySet::from_flags(boundary_flags(g, assignment.as_slice()));
        let gain_table = boundary_table(g, assignment.as_slice(), &boundary, objective, k, max_gain);
        let current_cut = compute_cut(g, assignment.as_slice());
        proof {
            assert forall|u: int| 0 <= u < g@.n() implies (#[trigger] gain_table@.contains(u as u32) <==> on_boundary(
                g@,
                assignment@,
                u,
            )) by {
                assert(boundary@[u] == on_boundary(g@, assignment@, u));
            }
            assert forall|u: int| 0 <= u < g@.n() && #[trigger] on_boundary(g@, assignment@, u) implies stored_with(
                gain_table@,
                u as u32,
                clamp_to(objective_gain(g@, assignment@, u, objective, k), gain_table@.max_gain),
            ) by {
                assert(boundary@[u] == on_boundary(g@, assignment@, u));
            }
        }
        FmState { graph: g, assignment, k, gain_table, boundary, pwgts, current_cut, tpwgts, objective }
    }

    /// Edge cut of the current assignment, computed from scratch.
    pub fn cut(&self) -> (r: i64)
        requires
            self.graph@.sound(),
            self.assignment@.len() == self.graph@.n(),
        ensures
            r == edge_cut(self.graph@, self.assignment@),
    {
        compute_cut(self.graph, self.assignment.as_slice())
    }

    /// The current assignment and cut.
    pub fn checkpoint(&self) -> (cp: Checkpoint)
        ensures
            cp.assignment@ == self.assignment@,
            cp.cut == self.current_cut,
    {
        Checkpoint { assignment: copy_u32(self.assignment.as_slice()), cut: self.current_cut }
    }

    /// Return to the checkpoint `cp`: its assignment, with boundary, gain
    /// table, part weights and cut rebuilt for it.
    pub fn restore(&mut self, cp: &Checkpoint)
        requires
            old(self).wf(),
            cp.assignment@.len() == old(self).graph@.n(),
            forall|v: int| 0 <= v < cp.assignment@.len() ==> #[trigger] cp.assignment@[v] < old(self).k,
        ensures
            final(self).wf(),
            final(self).loads_exact(),
            final(self).graph == old(self).graph,
            final(self).k == old(self).k,
            final(self).tpwgts == old(self).tpwgts,
            final(self).objective == old(self).objective,
            final(self).assignment@ == cp.assignment@,
            final(self).current_cut == edge_cut(old(self).graph@, cp.assignment@),
            final(self).table_fresh(),
    {
        let g = self.graph;
        self.assignment = copy_u32(cp.assignment.as_slice());
        self.boundary = BoundarySet::from_flags(boundary_flags(g, self.assignment.as_slice()));
        let max_gain = self.gain_table.max_gain_value();
        self.gain_table = boundary_table(g, self.assignment.as_slice(), &self.boundary, self.objective, self.k, max_gain);
        self.pwgts = part_weights(g, self.assignment.as_slice(), self.k);
        self.current_cut = compute_cut(g, self.assignment.as_slice());
        proof {
            assert forall|u: int| 0 <= u < g@.n() implies (#[trigger] self.gain_table@.contains(u as u32) <==> on_boundary(
                g@,
                self.assignment@,
                u,
            )) by {
                assert(self.boundary@[u] == on_boundary(g@, self.assignment@, u));
            }
            assert forall|u: int| 0 <= u < g@.n() && #[trigger] on_boundary(g@, self.assignment@, u) implies stored_with(
                self.gain_table@,
                u as u32,
                clamp_to(objective_gain(g@, self.assignment@, u, self.objective, self.k), self.gain_table@.max_gain),
            ) by {
                assert(self.boundary@[u] == on_boundary(g@, self.assignment@, u));
            }
        }
    }
}

/// `total * share / sum` rounded half away from zero; zero when `sum` is zero.
pub open spec fn share_target(total: int, share: int, sum: int) -> int {
    if sum == 0 {
        0
    } else if total * share >= 0 {
        (2 * total * share + sum) / (2 * sum)
    } else {
        -((-2 * total * share + sum) / (2 * sum))
    }
}

/// Part `part`'s target for a total weight `total`, given integer shares
/// summing to `sum`.
pub(crate) fn share_target_of(total: i64, share: u32, sum: u64) -> (r: i64)
    requires
        share <= sum,
    ensures
        r == share_target(total as int, share as int, sum as int),
{
    if sum == 0 {
        return 0;
    }
    let ghost t = total as int;
    let ghost sh = share as int;
    let ghost big_t = if t >= 0 {
        t
    } else {
        -t
    };
    proof {
        assert(-0x8000_0000_0000_0000 * 0xffff_ffff <= t * sh <= 0x7fff_ffff_ffff_ffff * 0xffff_ffff) by (nonlinear_arith)
            requires
                0 <= sh <= 0xffff_ffff,
                -0x8000_0000_0000_0000 <= t <= 0x7fff_ffff_ffff_ffff,
        ;
    }
    let num: i128 = (total as i128) * (share as i128);
    let s: i128 = sum as i128;
    proof {
        assert(num == t * sh);
        assert(2 * t * sh == 2 * num) by (nonlinear_arith)
            requires
                num == t * sh,
        ;
        assert(-2 * t * sh == -2 * num) by (nonlinear_arith)
            requires
                num == t * sh,
        ;
        assert(-(big_t * s) <= num <= big_t * s) by (nonlinear_arith)
            requires
                num == t * sh,
                0 <= sh <= s,
                big_t == (if t >= 0 {
                    t
                } else {
                    -t
                }),
        ;
    }
    let q: i128 = if num >= 0 {
        proof {
            assert((2 * num + s) / (2 * s) <= big_t) by (nonlinear_arith)
                requires
                    0 <= num <= big_t * s,
                    s >= 1,
                    big_t >= 0,
            ;
            assert((2 * num + s) / (2 * s) >= 0) by (nonlinear_arith)
                requires
                    0 <= num,
                    s >= 1,
            ;
            if t < 0 {
                assert(num <= 0) by (nonlinear_arith)
                    requires
                        num == t * sh,
                        t < 0,
                        sh >= 0,
                ;
                assert((2 * num + s) / (2 * s) == 0) by (nonlinear_arith)
                    requires
                        num == 0,
                        s >= 1,
                ;
            }
        }
        (2 * num + s) / (2 * s)
    } else {
        proof {
            assert(-num <= big_t * s);
            assert((-2 * num + s) / (2 * s) <= big_t) by (nonlinear_arith)
                requires
                    0 <= -num <= big_t * s,
                    s >= 1,
                    big_t >= 0,
            ;
            assert((-2 * num + s) / (2 * s) >= 0) by (nonlinear_arith)
                requires
                    0 <= -num,
                    s >= 1,
            ;
        }
        -((-2 * num + s) / (2 * s))
    };
    q as i64
}

/// Running sum of `s[0..p]`, each step saturating.
pub open spec fn sat_total(s: Seq<i64>, p: int) -> int
    decreases p,
{
    if p <= 0 {
        0
    } else {
        clamp_i64(sat_total(s, p - 1) + s[p - 1]) as int
    }
}

/// Target of part `p` for constraint `c` given the constraint's total: the
/// integer shares for constraint 0 when present, else the total divided by
/// `k`, rounding toward zero.
pub open spec fn part_target(total: int, k: u32, tpwgts: Option<Seq<u32>>, p: int, c: int) -> int {
    match tpwgts {
        Some(t) => if c == 0 {
            share_target(total, t[p] as int, share_total(t))
        } else {
            div_toward_zero(total, k as int)
        },
        None => div_toward_zero(total, k as int),
    }
}

/// Per-part, per-constraint targets: constraint 0 follows the integer shares
/// when present, every other constraint (and constraint 0 without shares)
/// gets the total divided by `k`.
pub(crate) fn balance_targets(pwgts: &Vec<Vec<i64>>, k: u32, tpwgts: &Option<Vec<u32>>) -> (r: Vec<Vec<i64>>)
    requires
        k >= 1,
        forall|c: int| 0 <= c < pwgts@.len() ==> (#[trigger] pwgts@[c])@.len() == k,
        tpwgts matches Some(t) ==> t@.len() == k,
    ensures
        r@.len() == k,
        forall|p: int| 0 <= p < k ==> (#[trigger] r@[p])@.len() == pwgts@.len(),
        forall|p: int, c: int|
            0 <= p < k && 0 <= c < pwgts@.len() ==> #[trigger] r@[p]@[c] == part_target(
                sat_total(pwgts@[c]@, k as int),
                k,
                opt_u32_view(*tpwgts),
                p,
                c,
            ),
{
    let ncon = pwgts.len();
    let ku = k as usize;
    let mut totals: Vec<i64> = Vec::new();
    let mut c: usize = 0;
    while c < ncon
        invariant
            0 <= c <= ncon,
            ku == k,
            ncon == pwgts@.len(),
            totals@.len() == c,
            forall|cc: int| 0 <= cc < pwgts@.len() ==> (#[trigger] pwgts@[cc])@.len() == k,
            forall|cc: int| 0 <= cc < c ==> #[trigger] totals@[cc] == sat_total(pwgts@[cc]@, k as int),
        decreases ncon - c,
    {
        let mut t: i64 = 0;
        let mut p: usize = 0;
        while p < ku
            invariant
                0 <= p <= ku,
                ku == k,
                c < ncon,
                ncon == pwgts@.len(),
                forall|cc: int| 0 <= cc < pwgts@.len() ==> (#[trigger] pwgts@[cc])@.len() == k,
                t == sat_total(pwgts@[c as int]@, p as int),
            decreases ku - p,
        {
            t = sat_add(t, pwgts[c][p]);
            p += 1;
        }
        totals.push(t);
        c += 1;
    }
    let mut share_sum: u64 = 0;
    match tpwgts {
        Some(tw) => {
            let mut p: usize = 0;
            while p < tw.len()
                invariant
                    0 <= p <= tw@.len(),
                    tw@.len() == k,
                    share_sum <= p * 0xffff_ffff,
                    forall|q: int| 0 <= q < p ==> #[trigger] tw@[q] <= share_sum,
                    share_sum == crate::api::share_total(tw@.take(p as int)),
                decreases tw@.len() - p,
            {
                proof {
                    assert(tw@.take(p + 1).drop_last() =~= tw@.take(p as int));
                }
                share_sum = share_sum + tw[p] as u64;
                p += 1;
            }
            proof {
                assert(tw@.take(tw@.len() as int) =~= tw@);
            }
        },
        None => {},
    }
    let mut r: Vec<Vec<i64>> = Vec::new();
    let mut p: usize = 0;
    while p < ku
        invariant
            0 <= p <= ku,
            ku == k,
            k >= 1,
            totals@.len() == ncon,
            ncon == pwgts@.len(),
            tpwgts matches Some(t) ==> t@.len() == k && forall|q: int| 0 <= q < k ==> #[trigger] t@[q] <= share_sum,
            tpwgts matches Some(t) ==> share_sum == crate::api::share_total(t@),
            forall|cc: int| 0 <= cc < ncon ==> #[trigger] totals@[cc] == sat_total(pwgts@[cc]@, k as int),
            r@.len() == p,
            forall|q: int| 0 <= q < p ==> (#[trigger] r@[q])@.len() == ncon,
            forall|q: int, cc: int|
                0 <= q < p && 0 <= cc < ncon ==> #[trigger] r@[q]@[cc] == part_target(
                    totals@[cc] as int,
                    k,
                    opt_u32_view(*tpwgts),
                    q,
                    cc,
                ),
        decreases ku - p,
    {
        let mut row: Vec<i64> = Vec::new();
        let mut c: usize = 0;
        while c < ncon
            invariant
                0 <= c <= ncon,
                p < ku,
                ku == k,
                k >= 1,
                totals@.len() == ncon,
                tpwgts matches Some(t) ==> t@.len() == k && forall|q: int| 0 <= q < k ==> #[trigger] t@[q] <= share_sum,
                tpwgts matches Some(t) ==> share_sum == crate::api::share_total(t@),
                row@.len() == c,
                forall|cc: int|
                    0 <= cc < c ==> #[trigger] row@[cc] == part_target(
                        totals@[cc] as int,
                        k,
                        opt_u32_view(*tpwgts),
                        p as int,
                        cc,
                    ),
            decreases ncon - c,
        {
            let t = if c == 0 {
                match tpwgts {
                    Some(tw) => share_target_of(totals[0], tw[p], share_sum),
                    None => totals[0] / (k as i64),
                }
            } else {
                totals[c] / (k as i64)
            };
            row.push(t);
            c += 1;
        }
        r.push(row);
        p += 1;
    }
    r
}

/// `|t|` with `i64::MIN` mapped to `i64::MAX`.
pub open spec fn abs_sat(t: i64) -> int {
    if t < 0 {
        if t == i64::MIN {
            i64::MAX as int
        } else {
            -t
        }
    } else {
        t as int
    }
}

/// `ceil(|t| * ufactor / 1000)`, each step saturating.
pub open spec fn epsilon_spec(t: i64, ufactor: u32) -> int {
    clamp_i64(clamp_i64(abs_sat(t) * ufactor) + 999) / 1000
}

/// `ceil(|t| * ufactor / 1000)`, saturating.
pub(crate) fn epsilon_of(t: i64, ufactor: u32) -> (r: i64)
    ensures
        r == epsilon_spec(t, ufactor),
{
    let a = if t < 0 {
        if t == i64::MIN {
            i64::MAX
        } else {
            -t
        }
    } else {
        t
    };
    let m = sat_mul(a, ufactor as i64);
    sat_add(m, 999) / 1000
}

/// The allowance `epsilon_of` of every target.
fn epsilons_of(targets: &Vec<Vec<i64>>, ufactor: u32) -> (r: Vec<Vec<i64>>)
    ensures
        r@.len() == targets@.len(),
        forall|p: int| 0 <= p < r@.len() ==> (#[trigger] r@[p])@.len() == targets@[p]@.len(),
        forall|p: int, c: int|
            0 <= p < r@.len() && 0 <= c < targets@[p]@.len() ==> #[trigger] r@[p]@[c] == epsilon_spec(
                targets@[p]@[c],
                ufactor,
            ),
{
    let mut r: Vec<Vec<i64>> = Vec::new();
    let mut p: usize = 0;
    while p < targets.len()
        invariant
            0 <= p <= targets@.len(),
            r@.len() == p,
            forall|q: int| 0 <= q < p ==> (#[trigger] r@[q])@.len() == targets@[q]@.len(),
            forall|q: int, c: int|
                0 <= q < p && 0 <= c < targets@[q]@.len() ==> #[trigger] r@[q]@[c] == epsilon_spec(
                    targets@[q]@[c],
                    ufactor,
                ),
        decreases targets@.len() - p,
    {
        let mut row: Vec<i64> = Vec::new();
        let mut c: usize = 0;
        while c < targets[p].len()
            invariant
                0 <= c <= targets@[p as int]@.len(),
                p < targets@.len(),
                row@.len() == c,
                forall|cc: int| 0 <= cc < c ==> #[trigger] row@[cc] == epsilon_spec(targets@[p as int]@[cc], ufactor),
            decreases targets@[p as int]@.len() - c,
        {
            row.push(epsilon_of(targets[p][c], ufactor));
            c += 1;
        }
        r.push(row);
        p += 1;
    }
    r
}

/// Moving weights `w` from part `from` to part `to` keeps constraint `c` of
/// `from` at or above its target less allowance and of `to` at or below its
/// target plus allowance (all sums saturating).
pub open spec fn move_fits(
    pw: Seq<Vec<i64>>,
    targets: Seq<Vec<i64>>,
    eps: Seq<Vec<i64>>,
    w: Seq<i64>,
    from: int,
    to: int,
    c: int,
) -> bool {
    &&& clamp_i64(pw[c]@[from] + neg_sat(w[c])) >= clamp_i64(targets[from]@[c] + neg_sat(eps[from]@[c]))
    &&& clamp_i64(pw[c]@[to] + w[c]) <= clamp_i64(targets[to]@[c] + eps[to]@[c])
}

/// Gain of moving vertex `v` from `from` to `to` under `objective`: the
/// weight of its edges into `to` less that into `from` for the cut, the
/// volume gain for the volume.
pub open spec fn dest_gain(g: GraphView, a: Seq<u32>, objective: ObjectiveType, v: int, from: u32, to: u32) -> int {
    match objective {
        ObjectiveType::Cut => part_weight(g, a, to, g.lo(v), g.hi(v)) - part_weight(g, a, from, g.lo(v), g.hi(v)),
        ObjectiveType::Volume => volume_gain(g, a, v, from, to),
    }
}

/// Moving weight `w` from part `from` to part `to` keeps both inside their
/// windows in every constraint below `ncon`.
pub open spec fn legal_move(
    pw: Seq<Vec<i64>>,
    targets: Seq<Vec<i64>>,
    eps: Seq<Vec<i64>>,
    w: Seq<i64>,
    from: int,
    to: int,
    ncon: int,
) -> bool {
    forall|c: int| 0 <= c < ncon ==> #[trigger] move_fits(pw, targets, eps, w, from, to, c)
}

/// Among the parts adjacent to `v` whose weights stay within target plus or
/// minus epsilon after the move, the one with the largest gain, the smallest
/// part id among equal gains.
fn best_legal_destination(
    state: &FmState,
    v: usize,
    from_part: usize,
    vwgt_v: &Vec<i64>,
    targets: &Vec<Vec<i64>>,
    epsilons: &Vec<Vec<i64>>,
) -> (r: Option<usize>)
    requires
        state.wf(),
        (v as int) < state.graph@.n(),
        from_part == state.assignment@[v as int],
        vwgt_v@.len() == state.graph@.ncon,
        targets@.len() == state.k,
        epsilons@.len() == state.k,
        forall|p: int| 0 <= p < state.k ==> (#[trigger] targets@[p])@.len() == state.graph@.ncon,
        forall|p: int| 0 <= p < state.k ==> (#[trigger] epsilons@[p])@.len() == state.graph@.ncon,
    ensures
        r matches Some(to) ==> to < state.k && to != from_part,
        r matches Some(to) ==> exists|j: int|
            state.graph@.lo(v as int) <= j < state.graph@.hi(v as int) && #[trigger] state.assignment@[state.graph@.nbr(
                j,
            )] as int == to as int,
        r matches Some(to) ==> forall|c: int|
            0 <= c < state.graph@.ncon ==> #[trigger] move_fits(
                state.pwgts@,
                targets@,
                epsilons@,
                vwgt_v@,
                from_part as int,
                to as int,
                c,
            ),
        ({
            let g = state.graph@;
            let a = state.assignment@;
            let fp = first_parts(g, a, from_part as u32, g.lo(v as int), g.hi(v as int));
            &&& r is None <==> forall|t: int|
                0 <= t < fp.len() ==> !legal_move(
                    state.pwgts@,
                    targets@,
                    epsilons@,
                    vwgt_v@,
                    from_part as int,
                    #[trigger] fp[t] as int,
                    g.ncon as int,
                )
            &&& r matches Some(to) ==> fp.contains(to as u32) && forall|t: int|
                0 <= t < fp.len() && legal_move(
                    state.pwgts@,
                    targets@,
                    epsilons@,
                    vwgt_v@,
                    from_part as int,
                    #[trigger] fp[t] as int,
                    g.ncon as int,
                ) ==> dest_gain(g, a, state.objective, v as int, from_part as u32, fp[t]) < dest_gain(
                    g,
                    a,
                    state.objective,
                    v as int,
                    from_part as u32,
                    to as u32,
                ) || (dest_gain(g, a, state.objective, v as int, from_part as u32, fp[t]) == dest_gain(
                    g,
                    a,
                    state.objective,
                    v as int,
                    from_part as u32,
                    to as u32,
                ) && to <= fp[t])
        }),
{
    let g = state.graph;
    let ncon = g.ncon() as usize;
    let a = state.assignment.as_slice();
    let (cands, _) = cut_candidates(g, a, v, from_part as u32);
    let ghost fp = first_parts(g@, a@, from_part as u32, g@.lo(v as int), g@.hi(v as int));
    let mut best: Option<(usize, i64)> = None;
    let mut i: usize = 0;
    while i < cands.len()
        invariant
            state.wf(),
            g == state.graph,
            a@ == state.assignment@,
            ncon == g@.ncon,
            (v as int) < g@.n(),
            from_part == a@[v as int],
            vwgt_v@.len() == ncon,
            targets@.len() == state.k,
            epsilons@.len() == state.k,
            forall|p: int| 0 <= p < state.k ==> (#[trigger] targets@[p])@.len() == ncon,
            forall|p: int| 0 <= p < state.k ==> (#[trigger] epsilons@[p])@.len() == ncon,
            fp == first_parts(g@, a@, from_part as u32, g@.lo(v as int), g@.hi(v as int)),
            cands@.len() == fp.len(),
            forall|t: int| 0 <= t < cands@.len() ==> (#[trigger] cands@[t]).0 == fp[t],
            forall|t: int|
                0 <= t < cands@.len() ==> (#[trigger] cands@[t]).1 == part_weight(
                    g@,
                    a@,
                    fp[t],
                    g@.lo(v as int),
                    g@.hi(v as int),
                ) - part_weight(g@, a@, from_part as u32, g@.lo(v as int), g@.hi(v as int)),
            0 <= i <= cands@.len(),
            best matches Some(b) ==> b.0 < state.k && b.0 != from_part,
            best matches Some(b) ==> exists|j: int|
                g@.lo(v as int) <= j < g@.hi(v as int) && #[trigger] a@[g@.nbr(j)] as int == b.0 as int,
            best matches Some(b) ==> forall|c: int|
                0 <= c < ncon ==> #[trigger] move_fits(
                    state.pwgts@,
                    targets@,
                    epsilons@,
                    vwgt_v@,
                    from_part as int,
                    b.0 as int,
                    c,
                ),
            best is None <==> forall|t: int|
                0 <= t < i ==> !legal_move(
                    state.pwgts@,
                    targets@,
                    epsilons@,
                    vwgt_v@,
                    from_part as int,
                    #[trigger] fp[t] as int,
                    ncon as int,
                ),
            best matches Some(b) ==> b.0 < 0x1_0000_0000 && (exists|t: int| 0 <= t < i && #[trigger] fp[t] == b.0 as u32)
                && b.1 == dest_gain(g@, a@, state.objective, v as int, from_part as u32, b.0 as u32),
            best matches Some(b) ==> forall|t: int|
                0 <= t < i && legal_move(
                    state.pwgts@,
                    targets@,
                    epsilons@,
                    vwgt_v@,
                    from_part as int,
                    #[trigger] fp[t] as int,
                    ncon as int,
                ) ==> dest_gain(g@, a@, state.objective, v as int, from_part as u32, fp[t]) < b.1 || (dest_gain(
                    g@,
                    a@,
                    state.objective,
                    v as int,
                    from_part as u32,
                    fp[t],
                ) == b.1 && b.0 <= fp[t]),
        decreases cands@.len() - i,
    {
        let to = cands[i].0 as usize;
        proof {
            crate::refine::gains::lemma_first_parts_in(g@, a@, from_part as u32, g@.lo(v as int), g@.hi(v as int), i as int);
            assert(state.graph@.xadj[v as int] <= state.graph@.xadj[v as int + 1] <= state.graph@.xadj[state.graph@.n()]);
            let j = choose|j: int| g@.lo(v as int) <= j < g@.hi(v as int) && #[trigger] a@[g@.nbr(j)] == fp[i as int];
            assert((g@.adjncy[j] as int) < g@.n());
            assert(a@[g@.nbr(j)] < state.k);
            assert(a@[g@.nbr(j)] as int == to as int);
        }
        let gain: i64 = match state.objective {
            ObjectiveType::Cut => cands[i].1,
            ObjectiveType::Volume => volume_gain_of(g, a, v, from_part as u32, to as u32),
        };
        let mut legal = true;
        let mut c: usize = 0;
        while c < ncon
            invariant
                state.wf(),
                ncon == state.graph@.ncon,
                (to as int) < state.k,
                (from_part as int) < state.k,
                vwgt_v@.len() == ncon,
                targets@.len() == state.k,
                epsilons@.len() == state.k,
                forall|p: int| 0 <= p < state.k ==> (#[trigger] targets@[p])@.len() == ncon,
                forall|p: int| 0 <= p < state.k ==> (#[trigger] epsilons@[p])@.len() == ncon,
                0 <= c <= ncon,
                legal <==> forall|cc: int|
                    0 <= cc < c ==> #[trigger] move_fits(
                        state.pwgts@,
                        targets@,
                        epsilons@,
                        vwgt_v@,
                        from_part as int,
                        to as int,
                        cc,
                    ),
            decreases ncon - c,
        {
            let new_from = sat_add(state.pwgts[c][from_part], if vwgt_v[c] == i64::MIN { i64::MAX } else { -vwgt_v[c] });
            let new_to = sat_add(state.pwgts[c][to], vwgt_v[c]);
            let lo_lim = sat_add(targets[from_part][c], if epsilons[from_part][c] == i64::MIN { i64::MAX } else { -epsilons[from_part][c] });
            let hi_lim = sat_add(targets[to][c], epsilons[to][c]);
            proof {
                assert(move_fits(state.pwgts@, targets@, epsilons@, vwgt_v@, from_part as int, to as int, c as int) == (
                new_from >= lo_lim && new_to <= hi_lim));
            }
            if !(new_from >= lo_lim && new_to <= hi_lim) {
                legal = false;
            }
            c += 1;
        }
        proof {
            assert(to as int == fp[i as int] as int);
            assert(legal <==> legal_move(state.pwgts@, targets@, epsilons@, vwgt_v@, from_part as int, fp[i as int] as int, ncon as int));
            assert(cands@[i as int].0 == fp[i as int]);
            assert(to as u32 == fp[i as int]);
            match state.objective {
                ObjectiveType::Cut => {
                    assert(gain == cands@[i as int].1);
                },
                ObjectiveType::Volume => {},
            }
            assert(gain == dest_gain(g@, a@, state.objective, v as int, from_part as u32, fp[i as int]));
        }
        if legal {
            let better = match best {
                None => true,
                Some((bt, bg)) => gain > bg || (gain == bg && to < bt),
            };
            if better {
                best = Some((to, gain));
            }
        }
        i += 1;
    }
    match best {
        Some((to, _)) => Some(to),
        None => None,
    }
}

/// The assignment `a` sends every vertex of `g` to a part below `k`.
pub open spec fn fits_parts(a: Seq<u32>, n: int, k: u32) -> bool {
    &&& a.len() == n
    &&& forall|v: int| 0 <= v < a.len() ==> #[trigger] a[v] < k
}

/// Number of neighbours of `v` in part `from`.
fn neighbors_in_part(g: &CsrGraph, a: &[u32], v: usize, from: usize) -> (r: usize)
    requires
        g@.sound(),
        a@.len() == g@.n(),
        (v as int) < g@.n(),
    ensures
        r < 2 ==> forall|j1: int, j2: int|
            #![trigger a@[g@.nbr(j1)], a@[g@.nbr(j2)]]
            g@.lo(v as int) <= j1 < g@.hi(v as int) && g@.lo(v as int) <= j2 < g@.hi(v as int)
                && a@[g@.nbr(j1)] as int == from as int && a@[g@.nbr(j2)] as int == from as int ==> j1 == j2,
{
    let ghost gv = g@;
    let xadj = g.xadj();
    let adjncy = g.adjncy();
    proof {
        assert(gv.xadj[v as int] <= gv.xadj[v as int + 1] <= gv.xadj[gv.n()]);
    }
    let lo = xadj[v] as usize;
    let hi = xadj[v + 1] as usize;
    let mut c: usize = 0;
    let mut j = lo;
    while j < hi
        invariant
            gv == g@,
            gv.sound(),
            xadj@ == gv.xadj,
            adjncy@ == gv.adjncy,
            a@.len() == gv.n(),
            lo <= j <= hi,
            lo == gv.lo(v as int),
            hi == gv.hi(v as int),
            hi <= gv.m(),
            c <= j - lo,
            c == 0 ==> forall|j1: int| lo <= j1 < j ==> a@[#[trigger] gv.nbr(j1)] as int != from as int,
            c == 1 ==> forall|j1: int, j2: int|
                #![trigger a@[gv.nbr(j1)], a@[gv.nbr(j2)]]
                lo <= j1 < j && lo <= j2 < j && a@[gv.nbr(j1)] as int == from as int && a@[gv.nbr(j2)] as int
                    == from as int ==> j1 == j2,
        decreases hi - j,
    {
        let u = adjncy[j] as usize;
        proof {
            assert((gv.adjncy[j as int] as int) < gv.n());
        }
        if a[u] as usize == from {
            proof {
                if c == 0 {
                    assert forall|j1: int, j2: int|
                        #![trigger a@[gv.nbr(j1)], a@[gv.nbr(j2)]]
                        lo <= j1 < j + 1 && lo <= j2 < j + 1 && a@[gv.nbr(j1)] as int == from as int
                            && a@[gv.nbr(j2)] as int == from as int implies j1 == j2 by {
                        if j1 < j {
                            assert(a@[gv.nbr(j1)] as int != from as int);
                        }
                        if j2 < j {
                            assert(a@[gv.nbr(j2)] as int != from as int);
                        }
                    }
                }
            }
            c += 1;
        }
        j += 1;
    }
    c
}

/// Signed weight of the slots `lo..r`: `+ew` for a neighbour in part
/// `from`, `-ew` for one in part `to` (both when they are the same part).
pub open spec fn slot_delta(g: GraphView, a: Seq<u32>, from: int, to: int, lo: int, r: int) -> int
    decreases r - lo,
{
    if r <= lo {
        0
    } else {
        let x = a[g.nbr(r - 1)] as int;
        slot_delta(g, a, from, to, lo, r - 1) + (if x == from {
            g.ew(r - 1)
        } else {
            0
        }) - (if x == to {
            g.ew(r - 1)
        } else {
            0
        })
    }
}

/// With two parts, the parts other than `from` met in the slots `lo..r`
/// are `to` alone, once a slot into `to` has been passed.
proof fn lemma_two_first_parts(g: GraphView, a: Seq<u32>, from: u32, to: u32, lo: int, r: int)
    requires
        g.sound(),
        a.len() == g.n(),
        forall|w: int| 0 <= w < a.len() ==> #[trigger] a[w] < 2,
        from < 2,
        to < 2,
        from != to,
        0 <= lo <= r <= g.m(),
    ensures
        first_parts(g, a, from, lo, r) == Seq::<u32>::empty() || first_parts(g, a, from, lo, r) == seq![to],
        (exists|j: int| lo <= j < r && #[trigger] a[g.nbr(j)] == to) ==> first_parts(g, a, from, lo, r) == seq![to],
        slot_delta(g, a, from as int, to as int, lo, r) == part_weight(g, a, from, lo, r) - part_weight(g, a, to, lo, r),
    decreases r - lo,
{
    if r > lo {
        lemma_two_first_parts(g, a, from, to, lo, r - 1);
        assert((g.adjncy[r - 1] as int) < g.n());
        let x = a[g.nbr(r - 1)];
        assert(x == from || x == to);
        if exists|j: int| lo <= j < r && #[trigger] a[g.nbr(j)] == to {
            let j = choose|j: int| lo <= j < r && #[trigger] a[g.nbr(j)] == to;
            if j < r - 1 {
                let s0 = first_parts(g, a, from, lo, r - 1);
                assert(s0 == seq![to]);
                assert(s0[0] == to);
                assert(s0.contains(to));
            } else {
                let s0 = first_parts(g, a, from, lo, r - 1);
                if s0 == Seq::<u32>::empty() {
                    assert(!s0.contains(to));
                    assert(s0.push(to) =~= seq![to]);
                } else {
                    assert(s0.contains(to)) by {
                        assert(s0[0] == to);
                    }
                }
            }
        } else {
            let s0 = first_parts(g, a, from, lo, r - 1);
            assert(x == from);
        }
    }
}

/// With two parts, moving `v` to the other part, which one of its
/// neighbours is in, changes the cut by minus its edge-cut gain.
proof fn lemma_two_part_gain(g: GraphView, a: Seq<u32>, v: int, to: u32)
    requires
        g.sound(),
        a.len() == g.n(),
        forall|w: int| 0 <= w < a.len() ==> #[trigger] a[w] < 2,
        0 <= v < g.n(),
        to < 2,
        a[v] != to,
        exists|j: int| g.lo(v) <= j < g.hi(v) && #[trigger] a[g.nbr(j)] == to,
    ensures
        slot_delta(g, a, a[v] as int, to as int, g.lo(v), g.hi(v)) == -cut_gain(g, a, v),
{
    assert(g.xadj[v] <= g.xadj[v + 1] <= g.xadj[g.n()]);
    lemma_two_first_parts(g, a, a[v], to, g.lo(v), g.hi(v));
}

/// Moving `v` leaves the parts its row names unchanged on a graph without
/// self loops, so the slot delta can be taken before or after the move.
proof fn lemma_delta_rows(g: GraphView, a: Seq<u32>, v: int, to: u32, from: int, lo: int, r: int)
    requires
        g.sound(),
        g.loop_free(),
        a.len() == g.n(),
        0 <= v < g.n(),
        g.lo(v) <= lo <= r <= g.hi(v),
    ensures
        slot_delta(g, a.update(v, to), from, to as int, lo, r) == slot_delta(g, a, from, to as int, lo, r),
    decreases r - lo,
{
    if r > lo {
        lemma_delta_rows(g, a, v, to, from, lo, r - 1);
        assert(g.xadj[v] <= g.xadj[v + 1] <= g.xadj[g.n()]);
        assert(g.nbr(r - 1) != v);
        assert((g.adjncy[r - 1] as int) < g.n());
    }
}

/// The delta of the row of `v` after the move equals the one before it.
proof fn lemma_delta_after_move(g: GraphView, a: Seq<u32>, v: int, to: u32)
    requires
        g.sound(),
        g.loop_free(),
        a.len() == g.n(),
        0 <= v < g.n(),
    ensures
        slot_delta(g, a.update(v, to), a[v] as int, to as int, g.lo(v), g.hi(v)) == slot_delta(
            g,
            a,
            a[v] as int,
            to as int,
            g.lo(v),
            g.hi(v),
        ),
{
    assert(g.xadj[v] <= g.xadj[v + 1]);
    lemma_delta_rows(g, a, v, to, a[v] as int, g.lo(v), g.hi(v));
}

/// In a fresh table, the top vertex has the highest clamped edge-cut gain
/// among the boundary vertices still stored; when some vertex that a pass may
/// move has a positive gain and every vertex already taken could not be
/// moved, the top vertex has a positive gain.
proof fn lemma_popped_gain_positive(
    g: GraphView,
    a: Seq<u32>,
    k: u32,
    tp: Option<Seq<u32>>,
    ufactor: u32,
    contig: bool,
    t0: crate::refine::gain::GainView,
    v32: u32,
    mg: i32,
    locked: Seq<bool>,
    n: int,
)
    requires
        t0.wf(),
        mg >= 1,
        n == g.n(),
        a.len() == n,
        locked.len() == n,
        (v32 as int) < n,
        t0.peek() matches Some(top) && top.0 == v32,
        !locked[v32 as int],
        on_boundary(g, a, v32 as int),
        forall|u: int|
            0 <= u < n && #[trigger] on_boundary(g, a, u) && !locked[u] ==> stored_with(
                t0,
                u as u32,
                clamp_to(cut_gain(g, a, u), mg),
            ),
        forall|u: int| 0 <= u < n && #[trigger] locked[u] ==> !fm_admissible(g, a, k, tp, ufactor, contig, u),
        exists|u: int| 0 <= u < n && #[trigger] fm_admissible(g, a, k, tp, ufactor, contig, u) && cut_gain(g, a, u) > 0,
    ensures
        cut_gain(g, a, v32 as int) > 0,
{
    let u = choose|u: int| 0 <= u < n && #[trigger] fm_admissible(g, a, k, tp, ufactor, contig, u) && cut_gain(g, a, u) > 0;
    if u != v32 as int {
        assert(!locked[u]);
        let fpu = first_parts(g, a, a[u], g.lo(u), g.hi(u));
        let tu = choose|t: int| 0 <= t < fpu.len() && #[trigger] fm_dest_fits(g, a, k, tp, ufactor, u, fpu[t] as int);
        crate::refine::gains::lemma_first_parts_in(g, a, a[u], g.lo(u), g.hi(u), tu);
        assert(on_boundary(g, a, u));
        let gu = clamp_to(cut_gain(g, a, u), mg);
        let gv = clamp_to(cut_gain(g, a, v32 as int), mg);
        assert(stored_with(t0, u as u32, gu));
        assert(stored_with(t0, v32, gv));
        crate::refine::gain_facts::lemma_holds_facts(t0, u as u32, gu);
        crate::refine::gain_facts::lemma_holds_facts(t0, v32, gv);
        assert(gu >= 1);
        assert(gv >= gu);
    }
}

/// Change of the tracked cut when `v`, now in `to`, has left `from`: edges
/// to `from` become cut, edges to `to` stop being cut.
fn move_delta(g: &CsrGraph, a: &[u32], v: usize, from: usize, to: usize) -> (r: i64)
    requires
        g@.sound(),
        a@.len() == g@.n(),
        (v as int) < g@.n(),
    ensures
        r == slot_delta(g@, a@, from as int, to as int, g@.lo(v as int), g@.hi(v as int)),
{
    let ghost gv = g@;
    let xadj = g.xadj();
    let adjncy = g.adjncy();
    proof {
        assert(gv.xadj[v as int] <= gv.xadj[v as int + 1] <= gv.xadj[gv.n()]);
    }
    let lo = xadj[v] as usize;
    let hi = xadj[v + 1] as usize;
    proof {
        lemma_abs_weight_bound_pub(gv, lo as int, hi as int);
        assert(0x8000_0000 * (hi - lo) <= 0x7fff_ffff_8000_0000) by (nonlinear_arith)
            requires
                0 <= hi - lo <= 0xffff_ffff,
        ;
    }
    let mut d: i64 = 0;
    let mut j = lo;
    while j < hi
        invariant
            gv == g@,
            gv.sound(),
            xadj@ == gv.xadj,
            adjncy@ == gv.adjncy,
            a@.len() == gv.n(),
            lo <= j <= hi,
            hi <= gv.m(),
            abs_weight(gv, lo as int, hi as int) <= 0x7fff_ffff_8000_0000,
            d == slot_delta(gv, a@, from as int, to as int, lo as int, j as int),
            -abs_weight(gv, lo as int, j as int) <= d <= abs_weight(gv, lo as int, j as int),
        decreases hi - j,
    {
        let u = adjncy[j] as usize;
        proof {
            assert((gv.adjncy[j as int] as int) < gv.n());
            lemma_abs_weight_grows(gv, lo as int, j as int + 1, hi as int);
        }
        let ew = g.edge_weight(j) as i64;
        if a[u] as usize == from {
            d = sat_add(d, ew);
        }
        if a[u] as usize == to {
            d = sat_add(d, -ew);
        }
        j += 1;
    }
    d
}

/// The absolute slot weight of a range grows with the range.
proof fn lemma_abs_weight_grows(g: GraphView, lo: int, mid: int, r: int)
    requires
        lo <= mid <= r,
    ensures
        abs_weight(g, lo, mid) <= abs_weight(g, lo, r),
    decreases r - mid,
{
    if r > mid {
        lemma_abs_weight_grows(g, lo, mid, r - 1);
    }
}

/// Moving `v` to part `to` keeps constraint `c` of both parts inside
/// their windows (targets from the totals, the shares and `k`, allowance
/// from `ufactor`), each sum held within `i64`.
pub open spec fn fm_move_fits(g: GraphView, a: Seq<u32>, k: u32, tp: Option<Seq<u32>>, ufactor: u32, v: int, to: int, c: int) -> bool {
    let from = a[v] as int;
    let t_from = part_target(total_load(g, c, g.n()), k, tp, from, c) as i64;
    let t_to = part_target(total_load(g, c, g.n()), k, tp, to, c) as i64;
    let w = g.vw(v, c);
    &&& clamp_i64(part_load(g, a, c, from, g.n()) + neg_sat(w as i64)) >= clamp_i64(
        t_from + neg_sat(epsilon_spec(t_from, ufactor) as i64),
    )
    &&& clamp_i64(part_load(g, a, c, to, g.n()) + w) <= clamp_i64(t_to + epsilon_spec(t_to, ufactor))
}

/// Some part adjacent to `v` can take it within the windows of every
/// constraint.
pub open spec fn fm_move_open(g: GraphView, a: Seq<u32>, k: u32, tp: Option<Seq<u32>>, ufactor: u32, v: int) -> bool {
    let fp = first_parts(g, a, a[v], g.lo(v), g.hi(v));
    exists|t: int| 0 <= t < fp.len() && #[trigger] fm_dest_fits(g, a, k, tp, ufactor, v, fp[t] as int)
}

/// An FM pass may move `v`: some adjacent part takes it within the windows
/// (`fm_move_open`), and with `contig` its part does not fall apart without it.
pub open spec fn fm_admissible(
    g: GraphView,
    a: Seq<u32>,
    k: u32,
    tp: Option<Seq<u32>>,
    ufactor: u32,
    contig: bool,
    v: int,
) -> bool {
    &&& fm_move_open(g, a, k, tp, ufactor, v)
    &&& contig ==> !disconnects(g, a, v, a[v] as int)
}

/// Moving `v` to part `to` fits every constraint (`fm_move_fits`).
pub open spec fn fm_dest_fits(g: GraphView, a: Seq<u32>, k: u32, tp: Option<Seq<u32>>, ufactor: u32, v: int, to: int) -> bool {
    forall|c: int| 0 <= c < g.ncon ==> #[trigger] fm_move_fits(g, a, k, tp, ufactor, v, to, c)
}

/// One FM pass: repeatedly take the unlocked boundary vertex of highest gain,
/// lock it, and move it to its best legal adjacent part (skipping moves that
/// would disconnect its part when `contig_fm`); neighbours' gains are
/// refreshed after each move and `best` keeps the assignment of lowest
/// tracked cut. Returns whether `best` improved. From a fresh table with two
/// parts and the edge-cut objective, a pass that does not improve shows that
/// no move it may make has a positive gain: the first move it makes is the
/// admissible one of highest gain. From a fresh table, a pass that leaves
/// the working assignment as it found it found no admissible vertex at all.
fn fm_pass(state: &mut FmState, best: &mut Checkpoint, contig_fm: bool, ufactor: u32) -> (improved: bool)
    requires
        old(state).wf(),
        old(state).loads_exact(),
        fits_parts(old(best).assignment@, old(state).graph@.n(), old(state).k),
    ensures
        final(state).wf(),
        final(state).loads_exact(),
        final(state).graph == old(state).graph,
        final(state).k == old(state).k,
        final(state).tpwgts == old(state).tpwgts,
        final(state).objective == old(state).objective,
        fits_parts(final(best).assignment@, old(state).graph@.n(), old(state).k),
        final(best).cut <= old(best).cut,
        improved == (final(best).cut < old(best).cut),
        !improved ==> final(best).assignment@ == old(best).assignment@,
        final(state).gain_table@.gains.len() == 0,
        !contig_fm && old(state).gain_table@.peek() is Some && fm_move_open(
            old(state).graph@,
            old(state).assignment@,
            old(state).k,
            opt_u32_view(old(state).tpwgts),
            ufactor,
            old(state).gain_table@.peek().unwrap().0 as int,
        ) ==> final(state).assignment@[old(state).gain_table@.peek().unwrap().0 as int] != old(
            state,
        ).assignment@[old(state).gain_table@.peek().unwrap().0 as int],
        old(state).table_fresh() && final(state).assignment@ == old(state).assignment@ ==> forall|v: int|
            0 <= v < old(state).graph@.n() ==> !#[trigger] fm_admissible(
                old(state).graph@,
                old(state).assignment@,
                old(state).k,
                opt_u32_view(old(state).tpwgts),
                ufactor,
                contig_fm,
                v,
            ),
        old(state).graph@.valid() && old(state).graph@.simple() && old(state).current_cut == edge_cut(
            old(state).graph@,
            old(state).assignment@,
        ) && old(best).cut == edge_cut(old(state).graph@, old(best).assignment@) ==> final(state).current_cut
            == edge_cut(old(state).graph@, final(state).assignment@) && final(best).cut == edge_cut(
            old(state).graph@,
            final(best).assignment@,
        ),
        old(state).table_fresh() && old(state).objective == ObjectiveType::Cut && old(state).k == 2
            && old(state).graph@.loop_free() && old(best).cut == old(state).current_cut && old(state).current_cut >= 0
            && !improved ==> forall|v: int|
            0 <= v < old(state).graph@.n() && #[trigger] fm_admissible(
                old(state).graph@,
                old(state).assignment@,
                2,
                opt_u32_view(old(state).tpwgts),
                ufactor,
                contig_fm,
                v,
            ) ==> cut_gain(old(state).graph@, old(state).assignment@, v) <= 0,
        contig_fm && old(state).graph@.valid() && parts_connected(old(state).graph@, old(state).assignment@)
            && parts_connected(old(state).graph@, old(best).assignment@) ==> parts_connected(
            old(state).graph@,
            final(state).assignment@,
        ) && parts_connected(old(state).graph@, final(best).assignment@),
        old(state).graph@.positive() && loads_balanced(
            old(state).graph@,
            old(state).assignment@,
            old(state).k,
            opt_u32_view(old(state).tpwgts),
            ufactor,
        ) && loads_balanced(old(state).graph@, old(best).assignment@, old(state).k, opt_u32_view(old(state).tpwgts), ufactor)
            ==> loads_balanced(
            old(state).graph@,
            final(state).assignment@,
            old(state).k,
            opt_u32_view(old(state).tpwgts),
            ufactor,
        ) && loads_balanced(old(state).graph@, final(best).assignment@, old(state).k, opt_u32_view(old(state).tpwgts), ufactor),
{
    let g = state.graph;
    let ghost gv = g@;
    let n = g.n();
    let ncon = g.ncon() as usize;
    let vw = g.vwgt();
    let vlen = vw.len();
    let targets = balance_targets(&state.pwgts, state.k, &state.tpwgts);
    let epsilons = epsilons_of(&targets, ufactor);
    let start_cut = best.cut;
    let ghost keep = contig_fm && gv.valid() && parts_connected(gv, state.assignment@) && parts_connected(
        gv,
        best.assignment@,
    );
    let ghost tpv = opt_u32_view(state.tpwgts);
    let ghost kk = state.k;
    let ghost a_start = state.assignment@;
    let ghost mut first_pending: bool = true;
    let ghost mut first_v: int = -1;
    let ghost mut first_top: int = -1;
    let ghost track = gv.valid() && gv.simple() && state.current_cut == edge_cut(gv, state.assignment@) && best.cut
        == edge_cut(gv, best.assignment@);
    let ghost bal = gv.positive() && loads_balanced(gv, state.assignment@, kk, tpv, ufactor) && loads_balanced(
        gv,
        best.assignment@,
        kk,
        tpv,
        ufactor,
    );
    proof {
        assert forall|p: int, c: int|
            0 <= p < kk && 0 <= c < ncon implies #[trigger] targets@[p]@[c] == part_target(
                total_load(gv, c, gv.n()),
                kk,
                tpv,
                p,
                c,
            ) by {
            assert forall|q: int| 0 <= q < kk implies #[trigger] state.pwgts@[c]@[q] == part_load(
                gv,
                state.assignment@,
                c,
                q,
                gv.n(),
            ) by {
                assert(state.pwgts@[c]@[q] == part_load(gv, state.assignment@, c, q, gv.n()));
            }
            assert forall|v: int| 0 <= v < state.assignment@.len() implies (#[trigger] state.assignment@[v] as int)
                < kk by {
                assert(state.assignment@[v] < state.k);
            }
            lemma_sat_total_loads(gv, state.assignment@, c, state.pwgts@[c]@, kk as int, kk as int);
        }
    }
    let mut locked: Vec<bool> = vec![false; n];
    proof {
        crate::coarsen::matching::lemma_count_true_none(n as nat);
        assert(locked@ =~= Seq::new(n as nat, |i: int| false));
        state.gain_table.lemma_view_wf();
        assert forall|w: u32| #[trigger] state.gain_table@.contains(w) implies !locked@[w as int] by {
            let (b, p) = choose|b: int, p: int|
                0 <= b < state.gain_table@.lists.len() && 0 <= p < state.gain_table@.lists[b].len()
                    && #[trigger] state.gain_table@.lists[b][p] == w;
            assert((w as int) < n);
        }
    }
    let ghost mut no_move: bool = true;
    let ghost mut witness: int = -1;
    let ghost mg = state.gain_table@.max_gain;
    let ghost fresh0 = old(state).table_fresh();
    let ghost obj0 = state.objective;
    let ghost cut0 = state.current_cut;
    let ghost goal = fresh0 && obj0 == ObjectiveType::Cut && kk == 2 && gv.loop_free() && start_cut == cut0 && cut0 >= 0
        && exists|u: int|
        0 <= u < n && #[trigger] fm_admissible(gv, a_start, kk, tpv, ufactor, contig_fm, u) && cut_gain(gv, a_start, u) > 0;
    loop
        invariant
            state.wf(),
            state.graph == g,
            gv == g@,
            n == gv.n(),
            ncon == gv.ncon,
            state.gain_table@.max_gain == mg,
            obj0 == state.objective,
            cut0 == old(state).current_cut,
            fresh0 == old(state).table_fresh(),
            no_move ==> state.assignment@ == a_start && state.pwgts@ == old(state).pwgts@ && state.current_cut == cut0
                && best.cut == start_cut,
            !no_move ==> 0 <= witness < n && locked@[witness] && state.assignment@[witness] != a_start[witness],
            no_move && fresh0 ==> forall|u: int|
                0 <= u < n && #[trigger] on_boundary(gv, a_start, u) && !locked@[u] ==> stored_with(
                    state.gain_table@,
                    u as u32,
                    clamp_to(objective_gain(gv, a_start, u, obj0, kk), mg),
                ),
            no_move ==> forall|u: int|
                0 <= u < n && #[trigger] locked@[u] ==> !fm_admissible(gv, a_start, kk, tpv, ufactor, contig_fm, u),
            no_move && fresh0 ==> forall|w: int|
                0 <= w < n && #[trigger] state.gain_table@.contains(w as u32) ==> on_boundary(gv, a_start, w),
            !no_move && goal ==> best.cut < start_cut,
            first_pending ==> no_move,
            goal == (fresh0 && obj0 == ObjectiveType::Cut && kk == 2 && gv.loop_free() && start_cut == cut0 && cut0 >= 0
                && exists|u: int|
                0 <= u < n && #[trigger] fm_admissible(gv, a_start, kk, tpv, ufactor, contig_fm, u) && cut_gain(
                    gv,
                    a_start,
                    u,
                ) > 0),
            vw@ == gv.vwgt,
            vlen == vw@.len(),
            state.k == old(state).k,
            state.tpwgts == old(state).tpwgts,
            state.objective == old(state).objective,
            targets@.len() == state.k,
            epsilons@.len() == state.k,
            forall|p: int| 0 <= p < state.k ==> (#[trigger] targets@[p])@.len() == ncon,
            forall|p: int| 0 <= p < state.k ==> (#[trigger] epsilons@[p])@.len() == ncon,
            locked@.len() == n,
            forall|w: u32| #[trigger] state.gain_table@.contains(w) ==> !locked@[w as int],
            fits_parts(best.assignment@, n as int, state.k),
            best.cut <= start_cut,
            start_cut == old(best).cut,
            best.cut == start_cut ==> best.assignment@ == old(best).assignment@,
            a_start == old(state).assignment@,
            first_pending ==> state.assignment@ == old(state).assignment@ && state.gain_table@ == old(state).gain_table@
                && state.pwgts@ == old(state).pwgts@ && first_v < 0,
            first_v >= 0 ==> first_v == first_top && 0 <= first_v < n && locked@[first_v] && state.assignment@[first_v]
                != a_start[first_v],
            !first_pending && first_v < 0 ==> !(!contig_fm && fm_move_open(gv, a_start, kk, tpv, ufactor, first_top)),
            !first_pending ==> old(state).gain_table@.peek() is Some && old(state).gain_table@.peek().unwrap().0 as int
                == first_top,
            track ==> gv.valid() && gv.simple() && gv.positive() && state.current_cut == edge_cut(gv, state.assignment@)
                && best.cut == edge_cut(gv, best.assignment@),
            keep ==> contig_fm && gv.valid(),
            keep ==> parts_connected(gv, state.assignment@) && parts_connected(gv, best.assignment@),
            state.loads_exact(),
            kk == state.k,
            tpv == opt_u32_view(state.tpwgts),
            forall|p: int, c: int|
                0 <= p < kk && 0 <= c < ncon ==> #[trigger] targets@[p]@[c] == part_target(
                    total_load(gv, c, gv.n()),
                    kk,
                    tpv,
                    p,
                    c,
                ),
            forall|p: int, c: int|
                0 <= p < kk && 0 <= c < ncon ==> #[trigger] epsilons@[p]@[c] == epsilon_spec(targets@[p]@[c], ufactor),
            bal ==> gv.positive(),
            bal ==> loads_balanced(gv, state.assignment@, kk, tpv, ufactor) && loads_balanced(
                gv,
                best.assignment@,
                kk,
                tpv,
                ufactor,
            ),
        ensures
            state.gain_table@.gains.len() == 0,
            first_pending ==> old(state).gain_table@.peek() is None,
        decreases n - count_true(locked@),
    {
        proof {
            state.gain_table.lemma_view_wf();
            lemma_count_true_bounds(locked@);
        }
        let ghost t0 = state.gain_table@;
        let popped = state.gain_table.pop_max();
        let (v32, _gain) = match popped {
            Some(x) => x,
            None => break,
        };
        let v = v32 as usize;
        let ghost was_first = first_pending;
        proof {
            if first_pending {
                first_pending = false;
                first_top = v as int;
            }
            let k0 = t0.lists.len() - 1;
            assert(t0.lists[k0][t0.lists[k0].len() - 1] == v32);
            assert(t0.contains(v32));
            assert(!locked@[v as int]);
            crate::refine::gain::lemma_removed_contains(t0, v32, state.gain_table@);
            lemma_count_true_update(locked@, v as int);
        }
        let ghost t_popped = state.gain_table@;
        let ghost locked0 = locked@;
        proof {
            if no_move && fresh0 {
                assert(t0.contains((v as int) as u32));
                assert(on_boundary(gv, a_start, v as int));
                assert forall|w: int|
                    0 <= w < n && #[trigger] state.gain_table@.contains(w as u32) implies on_boundary(gv, a_start, w) by {
                    assert(t0.contains(w as u32));
                }
                assert forall|u: int|
                    0 <= u < n && #[trigger] on_boundary(gv, a_start, u) && !locked@[u] && u != v as int implies stored_with(
                    state.gain_table@,
                    u as u32,
                    clamp_to(objective_gain(gv, a_start, u, obj0, kk), mg),
                ) by {
                    crate::refine::gain_facts::lemma_removed_holds(
                        t0,
                        v32,
                        state.gain_table@,
                        u as u32,
                        clamp_to(objective_gain(gv, a_start, u, obj0, kk), mg),
                    );
                }
            }
        }
        locked.set(v, true);
        let from_part = state.assignment[v] as usize;
        if contig_fm {
            let from_nbrs = neighbors_in_part(g, state.assignment.as_slice(), v, from_part);
            if from_nbrs >= 2 && would_disconnect(g, state.assignment.as_slice(), v, from_part) {
                proof {
                    if no_move {
                        assert(disconnects(gv, a_start, v as int, a_start[v as int] as int));
                        assert(!fm_admissible(gv, a_start, kk, tpv, ufactor, contig_fm, v as int));
                    }
                }
                continue;
            }
            proof {
                if keep {
                    lemma_source_stays_connected(gv, state.assignment@, v as int);
                }
            }
        }
        let mut vwgt_v: Vec<i64> = Vec::new();
        let mut c: usize = 0;
        while c < ncon
            invariant
                gv.sound(),
                ncon == gv.ncon,
                vw@ == gv.vwgt,
                vlen == vw@.len(),
                (v as int) < gv.n(),
                0 <= c <= ncon,
                vwgt_v@.len() == c,
                forall|cc: int| 0 <= cc < c ==> #[trigger] vwgt_v@[cc] == gv.vw(v as int, cc),
            decreases ncon - c,
        {
            proof {
                assert((v as int) * ncon + c < gv.n() * ncon) by (nonlinear_arith)
                    requires
                        (v as int) < gv.n(),
                        c < ncon,
                ;
                assert(vlen == gv.n() * ncon);
            }
            vwgt_v.push(vw[v * ncon + c] as i64);
            c += 1;
        }
        let dest = best_legal_destination(state, v, from_part, &vwgt_v, &targets, &epsilons);
        proof {
            if no_move {
                let fp = first_parts(gv, a_start, a_start[v as int], gv.lo(v as int), gv.hi(v as int));
                assert forall|t: int, c: int| 0 <= t < fp.len() && 0 <= c < ncon implies #[trigger] move_fits(
                    state.pwgts@,
                    targets@,
                    epsilons@,
                    vwgt_v@,
                    from_part as int,
                    fp[t] as int,
                    c,
                ) == fm_move_fits(gv, a_start, kk, tpv, ufactor, v as int, fp[t] as int, c) by {
                    crate::refine::gains::lemma_first_parts_in(gv, a_start, a_start[v as int], gv.lo(v as int), gv.hi(v as int), t);
                    let j = choose|j: int| gv.lo(v as int) <= j < gv.hi(v as int) && #[trigger] a_start[gv.nbr(j)] == fp[t];
                    assert(gv.xadj[v as int] <= gv.xadj[v as int + 1] <= gv.xadj[gv.n()]);
                    assert((gv.adjncy[j] as int) < gv.n());
                    assert(fp[t] < kk);
                    assert(state.pwgts@[c]@[from_part as int] == part_load(gv, a_start, c, from_part as int, gv.n()));
                    assert(state.pwgts@[c]@[fp[t] as int] == part_load(gv, a_start, c, fp[t] as int, gv.n()));
                }
            }
        }
        let to_part = match dest {
            Some(t) => t,
            None => {
                proof {
                    if no_move {
                        let fp = first_parts(gv, a_start, a_start[v as int], gv.lo(v as int), gv.hi(v as int));
                        let fpp = first_parts(state.graph@, state.assignment@, from_part as u32, state.graph@.lo(v as int), state.graph@.hi(v as int));
                        if fm_move_open(gv, a_start, kk, tpv, ufactor, v as int) {
                            let t = choose|t: int| 0 <= t < fp.len() && #[trigger] fm_dest_fits(gv, a_start, kk, tpv, ufactor, v as int, fp[t] as int);
                            assert(fpp == fp);
                            assert(!legal_move(state.pwgts@, targets@, epsilons@, vwgt_v@, from_part as int, fpp[t] as int, state.graph@.ncon as int));
                            let c = choose|c: int| 0 <= c < ncon && !#[trigger] move_fits(
                                state.pwgts@,
                                targets@,
                                epsilons@,
                                vwgt_v@,
                                from_part as int,
                                fp[t] as int,
                                c,
                            );
                            assert(fm_move_fits(gv, a_start, kk, tpv, ufactor, v as int, fp[t] as int, c));
                            assert(false);
                        }
                        assert(!fm_admissible(gv, a_start, kk, tpv, ufactor, contig_fm, v as int));
                    }
                    let fpp = first_parts(state.graph@, state.assignment@, from_part as u32, state.graph@.lo(v as int), state.graph@.hi(v as int));
                    if was_first && !contig_fm {
                        let fp = first_parts(gv, a_start, a_start[v as int], gv.lo(v as int), gv.hi(v as int));
                        if fm_move_open(gv, a_start, kk, tpv, ufactor, v as int) {
                            let t = choose|t: int| 0 <= t < fp.len() && #[trigger] fm_dest_fits(gv, a_start, kk, tpv, ufactor, v as int, fp[t] as int);
                            assert(fpp == fp);
                            assert(!legal_move(state.pwgts@, targets@, epsilons@, vwgt_v@, from_part as int, fpp[t] as int, state.graph@.ncon as int));
                            let c = choose|c: int| 0 <= c < ncon && !#[trigger] move_fits(
                                state.pwgts@,
                                targets@,
                                epsilons@,
                                vwgt_v@,
                                from_part as int,
                                fp[t] as int,
                                c,
                            );
                            assert(fm_move_fits(gv, a_start, kk, tpv, ufactor, v as int, fp[t] as int, c));
                            assert(false);
                        }
                        assert(first_top == v as int);
                    }
                }
                continue;
            },
        };
        // apply the move
        let ghost a_before = state.assignment@;
        let ghost pw_before = state.pwgts@;
        let ghost cut_before = state.current_cut;
        let ghost moved_first = no_move;
        proof {
            if moved_first && goal {
                assert(obj0 == ObjectiveType::Cut);
                assert forall|u: int|
                    0 <= u < n && #[trigger] on_boundary(gv, a_start, u) && !locked0[u] implies stored_with(
                    t0,
                    u as u32,
                    clamp_to(cut_gain(gv, a_start, u), mg),
                ) by {
                    assert(objective_gain(gv, a_start, u, obj0, kk) == cut_gain(gv, a_start, u));
                }
                lemma_popped_gain_positive(gv, a_start, kk, tpv, ufactor, contig_fm, t0, v32, mg, locked0, n as int);
            }
            if moved_first {
                witness = v as int;
            } else {
                assert(witness != v as int);
            }
            no_move = false;
        }
        state.assignment.set(v, to_part as u32);
        let ghost a_after = state.assignment@;
        assert(a_after[witness] != a_start[witness]);
        proof {
            if was_first {
                first_v = v as int;
            }
        }
        proof {
            if keep {
                let j = choose|j: int|
                    gv.lo(v as int) <= j < gv.hi(v as int) && #[trigger] a_before[gv.nbr(j)] as int == to_part as int;
                lemma_move_keeps_connected(gv, a_before, v as int, to_part as u32, j);
                assert(a_after == a_before.update(v as int, to_part as u32));
            }
        }
        let mut c: usize = 0;
        while c < ncon
            invariant
                state.wf(),
                state.graph == g,
                ncon == gv.ncon,
                gv == g@,
                (from_part as int) < state.k,
                (to_part as int) < state.k,
                vwgt_v@.len() == ncon,
                0 <= c <= ncon,
                state.k == old(state).k,
                state.tpwgts == old(state).tpwgts,
                state.objective == old(state).objective,
                state.gain_table@.max_gain == mg,
                forall|w: u32| #[trigger] state.gain_table@.contains(w) ==> !locked@[w as int],
                state.assignment@ == a_after,
                state.current_cut == cut_before,
                keep ==> parts_connected(gv, a_after) && parts_connected(gv, best.assignment@),
                n == gv.n(),
                gv.n() <= 0x1_0000_0000,
                (v as int) < n,
                a_before.len() == n,
                a_after == a_before.update(v as int, to_part as u32),
                a_before[v as int] as int == from_part as int,
                from_part != to_part,
                forall|cc: int| 0 <= cc < ncon ==> #[trigger] vwgt_v@[cc] == gv.vw(v as int, cc),
                forall|cc: int, p: int|
                    0 <= cc < ncon && 0 <= p < state.k ==> #[trigger] state.pwgts@[cc]@[p] == part_load(
                        gv,
                        if cc < c {
                            a_after
                        } else {
                            a_before
                        },
                        cc,
                        p,
                        n as int,
                    ),
            decreases ncon - c,
        {
            let w = vwgt_v[c];
            let neg_w = if w == i64::MIN {
                i64::MAX
            } else {
                -w
            };
            proof {
                lemma_part_load_move(gv, a_before, v as int, to_part as u32, c as int, from_part as int, n as int);
                lemma_part_load_move(gv, a_before, v as int, to_part as u32, c as int, to_part as int, n as int);
                lemma_part_load_bounds(gv, a_after, c as int, from_part as int, n as int);
                lemma_part_load_bounds(gv, a_after, c as int, to_part as int, n as int);
                assert(0x7fff_ffff * n <= 0x7fff_ffff * 0x1_0000_0000);
                assert(-0x8000_0000 * n >= -0x8000_0000 * 0x1_0000_0000);
            }
            let ghost pw0 = state.pwgts@;
            let fw = sat_add(state.pwgts[c][from_part], neg_w);
            state.pwgts[c].set(from_part, fw);
            let tw = sat_add(state.pwgts[c][to_part], w);
            state.pwgts[c].set(to_part, tw);
            proof {
                assert forall|cc: int, p: int|
                    0 <= cc < ncon && 0 <= p < state.k implies #[trigger] state.pwgts@[cc]@[p] == part_load(
                    gv,
                    if cc < c + 1 {
                        a_after
                    } else {
                        a_before
                    },
                    cc,
                    p,
                    n as int,
                ) by {
                    if cc == c as int {
                        lemma_part_load_move(gv, a_before, v as int, to_part as u32, cc, p, n as int);
                        if p != from_part as int && p != to_part as int {
                            assert(state.pwgts@[cc]@[p] == pw0[cc]@[p]);
                        }
                    } else {
                        assert(state.pwgts@[cc] == pw0[cc]);
                    }
                }
            }
            c += 1;
        }
        proof {
            if bal {
                assert forall|cc: int, p: int|
                    0 <= cc < gv.ncon && 0 <= p < kk implies window_lo(
                    part_target(total_load(gv, cc, gv.n()), kk, tpv, p, cc),
                    ufactor,
                ) <= #[trigger] part_load(gv, a_after, cc, p, gv.n()) <= window_hi(
                    part_target(total_load(gv, cc, gv.n()), kk, tpv, p, cc),
                    ufactor,
                ) by {
                    lemma_part_load_move(gv, a_before, v as int, to_part as u32, cc, p, n as int);
                    assert(window_lo(part_target(total_load(gv, cc, gv.n()), kk, tpv, p, cc), ufactor) <= part_load(
                        gv,
                        a_before,
                        cc,
                        p,
                        gv.n(),
                    ) <= window_hi(part_target(total_load(gv, cc, gv.n()), kk, tpv, p, cc), ufactor));
                    assert(0 <= (v as int) * gv.ncon + cc < gv.n() * gv.ncon) by (nonlinear_arith)
                        requires
                            0 <= v < gv.n(),
                            0 <= cc < gv.ncon,
                    ;
                    assert(gv.vw(v as int, cc) > 0);
                    if p == from_part as int || p == to_part as int {
                        assert(move_fits(pw_before, targets@, epsilons@, vwgt_v@, from_part as int, to_part as int, cc));
                        assert(pw_before[cc]@[p] == part_load(gv, a_before, cc, p, gv.n()));
                        lemma_part_load_bounds(gv, a_after, cc, p, n as int);
                        lemma_part_load_bounds(gv, a_before, cc, p, n as int);
                        assert(0x7fff_ffff * n <= 0x7fff_ffff * 0x1_0000_0000);
                        assert(-0x8000_0000 * n >= -0x8000_0000 * 0x1_0000_0000);
                        assert(epsilons@[p]@[cc] >= 0);
                    }
                }
            }
        }
        let ghost pw_after = state.pwgts@;
        state.boundary.remove(v32);
        let delta = move_delta(g, state.assignment.as_slice(), v, from_part, to_part);
        proof {
            if track {
                assert(a_before[v as int] as int == from_part as int);
                assert(a_after == a_before.update(v as int, to_part as u32));
                lemma_move_changes_cut(gv, a_before, v as int, to_part as u32);
                lemma_edge_cut_bound(gv, a_after);

            }
        }
        proof {
            if moved_first && goal {
                lemma_delta_after_move(gv, a_before, v as int, to_part as u32);
                lemma_two_part_gain(gv, a_before, v as int, to_part as u32);
            }
        }
        state.current_cut = sat_add(state.current_cut, delta);
        let ghost cc = state.current_cut;
        proof {
            if moved_first && goal {
                assert(cc < start_cut);
            }
        }
        // refresh the gains of the unlocked neighbours
        let xadj = g.xadj();
        let adjncy = g.adjncy();
        proof {
            assert(gv.xadj[v as int] <= gv.xadj[v as int + 1] <= gv.xadj[gv.n()]);
        }
        let lo = xadj[v] as usize;
        let hi = xadj[v + 1] as usize;
        let mut j = lo;
        while j < hi
            invariant
                state.wf(),
                state.graph == g,
                gv == g@,
                xadj@ == gv.xadj,
                adjncy@ == gv.adjncy,
                n == gv.n(),
                lo <= j <= hi,
                hi <= gv.m(),
                locked@.len() == n,
                state.k == old(state).k,
                state.tpwgts == old(state).tpwgts,
                state.objective == old(state).objective,
                state.gain_table@.max_gain == mg,
                forall|w: u32| #[trigger] state.gain_table@.contains(w) ==> !locked@[w as int],
                state.assignment@ == a_after,
                keep ==> parts_connected(gv, a_after) && parts_connected(gv, best.assignment@),
                state.pwgts@ == pw_after,
                state.current_cut == cc,
            decreases hi - j,
        {
            let u = adjncy[j] as usize;
            proof {
                assert((gv.adjncy[j as int] as int) < gv.n());
            }
            if !locked[u] {
                let a = state.assignment.as_slice();
                let gain = vertex_gain(g, a, u, state.objective, state.k);
                let max_gain = state.gain_table.max_gain_value();
                let clamped = clamp_gain_to(gain, max_gain);
                let on_b = crosses_boundary(g, a, u);
                let u32v = u as u32;
                proof {
                    state.gain_table.lemma_view_wf();
                }
                if on_b {
                    if state.gain_table.contains(u32v) {
                        let ghost t1 = state.gain_table@;
                        state.gain_table.remove(u32v);
                        proof {
                            crate::refine::gain::lemma_removed_contains(t1, u32v, state.gain_table@);
                            state.gain_table.lemma_view_wf();
                        }
                        let ghost t2 = state.gain_table@;
                        state.gain_table.insert(u32v, clamped);
                        proof {
                            crate::refine::gain::lemma_inserted_contains(t2, u32v, clamped, state.gain_table@);
                        }
                    } else {
                        state.boundary.insert(u32v);
                        let ghost t2 = state.gain_table@;
                        state.gain_table.insert(u32v, clamped);
                        proof {
                            crate::refine::gain::lemma_inserted_contains(t2, u32v, clamped, state.gain_table@);
                        }
                    }
                } else {
                    if state.gain_table.contains(u32v) {
                        let ghost t1 = state.gain_table@;
                        state.gain_table.remove(u32v);
                        proof {
                            crate::refine::gain::lemma_removed_contains(t1, u32v, state.gain_table@);
                        }
                    }
                    state.boundary.remove(u32v);
                }
            }
            j += 1;
        }
        let cur_cut = state.current_cut;
        if cur_cut < best.cut {
            *best = Checkpoint { assignment: copy_u32(state.assignment.as_slice()), cut: cur_cut };
        }
    }
    proof {
        if goal && no_move {
            let u = choose|u: int|
                0 <= u < n && #[trigger] fm_admissible(gv, a_start, kk, tpv, ufactor, contig_fm, u) && cut_gain(gv, a_start, u)
                    > 0;
            let fpu = first_parts(gv, a_start, a_start[u], gv.lo(u), gv.hi(u));
            let tu = choose|t: int|
                0 <= t < fpu.len() && #[trigger] fm_dest_fits(gv, a_start, kk, tpv, ufactor, u, fpu[t] as int);
            crate::refine::gains::lemma_first_parts_in(gv, a_start, a_start[u], gv.lo(u), gv.hi(u), tu);
            assert(on_boundary(gv, a_start, u));
            assert(!locked@[u]);
            state.gain_table.lemma_view_wf();
            crate::refine::gain_facts::lemma_holds_facts(
                state.gain_table@,
                u as u32,
                clamp_to(objective_gain(gv, a_start, u, obj0, kk), mg),
            );
            assert(false);
        }
        if fresh0 && no_move {
            assert forall|u: int| 0 <= u < n implies !#[trigger] fm_admissible(gv, a_start, kk, tpv, ufactor, contig_fm, u) by {
                if fm_admissible(gv, a_start, kk, tpv, ufactor, contig_fm, u) {
                    let fpu = first_parts(gv, a_start, a_start[u], gv.lo(u), gv.hi(u));
                    let tu = choose|t: int|
                        0 <= t < fpu.len() && #[trigger] fm_dest_fits(gv, a_start, kk, tpv, ufactor, u, fpu[t] as int);
                    crate::refine::gains::lemma_first_parts_in(gv, a_start, a_start[u], gv.lo(u), gv.hi(u), tu);
                    assert(on_boundary(gv, a_start, u));
                    assert(!locked@[u]);
                    state.gain_table.lemma_view_wf();
                    crate::refine::gain_facts::lemma_holds_facts(
                        state.gain_table@,
                        u as u32,
                        clamp_to(objective_gain(gv, a_start, u, obj0, kk), mg),
                    );
                    assert(false);
                }
            }
        }
        if state.assignment@ == a_start && !no_move {
            assert(state.assignment@[witness] != a_start[witness]);
            assert(false);
        }
    }
    best.cut < start_cut
}

/// Whether `u` has a neighbour in another part.
fn crosses_boundary(g: &CsrGraph, a: &[u32], u: usize) -> (r: bool)
    requires
        g@.sound(),
        a@.len() == g@.n(),
        (u as int) < g@.n(),
    ensures
        r == on_boundary(g@, a@, u as int),
{
    crate::refine::boundary::crosses_pub(g, a, u)
}

/// Fiduccia-Mattheyses refinement.
pub struct FiducciaMattheyses {
    /// Most passes.
    pub niter: u32,
    /// Skip moves that would disconnect the source part.
    pub contig_fm: bool,
    /// Edge cut or communication volume.
    pub objective: ObjectiveType,
    /// Label-propagation balancing sweeps before the passes (0: none).
    pub lp_iter: u32,
    /// Allowed imbalance in thousandths.
    pub ufactor: u32,
}

impl Default for FiducciaMattheyses {
    fn default() -> (r: Self)
        ensures
            r.niter == 10 && r.contig_fm && r.objective == ObjectiveType::Cut && r.lp_iter == 0 && r.ufactor == 5,
    {
        FiducciaMattheyses { niter: 10, contig_fm: true, objective: ObjectiveType::Cut, lp_iter: 0, ufactor: 5 }
    }
}

/// No move that an FM pass may make (`fm_admissible`) on `a` has a positive
/// edge-cut gain.
pub open spec fn fm_local_opt(g: GraphView, a: Seq<u32>, k: u32, tp: Option<Seq<u32>>, ufactor: u32, contig: bool) -> bool {
    forall|v: int| 0 <= v < g.n() && #[trigger] fm_admissible(g, a, k, tp, ufactor, contig, v) ==> cut_gain(g, a, v) <= 0
}

/// The assignment that the FM passes of `refine` start from: `p`'s own,
/// or what label propagation leaves of it when `lp_iter` sweeps are asked
/// for on more than one part.
pub open spec fn refine_start(g: GraphView, p: PartitionView, ufactor: u32, lp_iter: u32) -> Seq<u32> {
    if lp_iter == 0 || p.k <= 1 {
        p.assignment
    } else {
        crate::refine::lp::lp_run(g, p.assignment, p.k, p.tpwgts, ufactor, lp_iter as nat)
    }
}

impl crate::refine::Refiner for FiducciaMattheyses {
    /// Optionally balance by label propagation, then run up to `niter` FM
    /// passes, each restarting from the best assignment found so far and
    /// stopping after a pass without improvement. The result never has a
    /// larger edge cut than the assignment the passes start from; with
    /// `contig_fm` on a valid graph, parts that start contiguous stay so; with
    /// positive weights, parts whose loads start inside their windows (targets
    /// from the totals and the shares, allowance from `ufactor`) stay inside.
    /// With two parts, the edge-cut objective and no balancing sweeps, on a
    /// valid graph without repeated neighbours, the passes end at a local
    /// optimum (`fm_local_opt`), unless each of the `niter` passes lowered the
    /// cut.
    fn refine(&self, g: &CsrGraph, p: Partition) -> (r: Partition)
        ensures
            edge_cut(g@, r@.assignment) <= edge_cut(g@, p@.assignment),
            edge_cut(g@, r@.assignment) <= edge_cut(g@, refine_start(g@, p@, self.ufactor, self.lp_iter)),
            g@.positive() && loads_balanced(g@, p@.assignment, p@.k, p@.tpwgts, self.ufactor) && loads_balanced(
                g@,
                refine_start(g@, p@, self.ufactor, self.lp_iter),
                p@.k,
                p@.tpwgts,
                self.ufactor,
            ) ==> loads_balanced(g@, r@.assignment, p@.k, p@.tpwgts, self.ufactor),
            r@.tpwgts is None,
            self.lp_iter == 0 && self.contig_fm && g@.valid() && contiguity_result(g@, p@) is Ok
                ==> contiguity_result(g@, r@) is Ok,
            self.lp_iter == 0 && g@.positive() && loads_balanced(g@, p@.assignment, p@.k, p@.tpwgts, self.ufactor)
                ==> loads_balanced(g@, r@.assignment, p@.k, p@.tpwgts, self.ufactor),
            self.lp_iter == 0 && self.objective == ObjectiveType::Cut && p@.k == 2 && g@.valid() && g@.simple() ==> (
            fm_local_opt(g@, r@.assignment, 2, p@.tpwgts, self.ufactor, self.contig_fm) || edge_cut(g@, r@.assignment)
                + self.niter <= edge_cut(g@, p@.assignment)),
    {
        let ghost keep = self.lp_iter == 0 && self.contig_fm && g@.valid() && contiguity_result(g@, p@) is Ok;
        let ghost p0 = p@;
        let ghost a1 = refine_start(g@, p@, self.ufactor, self.lp_iter);
        let ghost bal = g@.positive() && loads_balanced(g@, a1, p@.k, p@.tpwgts, self.ufactor);
        proof {
            if keep {
                lemma_checked_parts_contiguous(g@, p@);
                lemma_contiguous_parts_connected(g@, p@.assignment);
            }
        }
        let input: Vec<u32> = copy_u32(p.assignment());
        let input_cut = compute_cut(g, input.as_slice());
        let mut p = p;
        if self.lp_iter > 0 {
            crate::refine::lp::lp_balance(g, &mut p, self.ufactor, self.lp_iter);
        }
        assert(p@.assignment == a1);
        let k = p.k();
        let start: Vec<u32> = copy_u32(p.assignment());
        let start_cut = compute_cut(g, start.as_slice());
        let mut state = FmState::new(g, p, self.objective);
        let mut best = state.checkpoint();
        let mut pass: u32 = 0;
        let ghost cond = self.lp_iter == 0 && self.objective == ObjectiveType::Cut && k == 2 && g@.valid() && g@.simple();
        let ghost c0 = best.cut as int;
        let ghost mut opt = false;
        proof {
            if cond {
                lemma_valid_facts(g@);
            }
        }
        while pass < self.niter
            invariant_except_break
                !opt,
            invariant
                state.wf(),
                state.graph == g,
                state.k == k,
                state.loads_exact(),
                state.table_fresh(),
                state.objective == self.objective,
                state.assignment@ == best.assignment@,
                pass <= self.niter,
                cond == (self.lp_iter == 0 && self.objective == ObjectiveType::Cut && k == 2 && g@.valid() && g@.simple()),
                cond ==> g@.loop_free() && g@.positive() && g@.sound(),
                cond ==> state.current_cut == edge_cut(g@, state.assignment@) && best.cut == state.current_cut,
                cond ==> c0 == edge_cut(g@, p0.assignment) && best.cut + pass <= c0,
                opt ==> (cond ==> fm_local_opt(g@, best.assignment@, 2, p0.tpwgts, self.ufactor, self.contig_fm)),
                fits_parts(best.assignment@, g@.n(), k),
                keep ==> self.contig_fm && g@.valid(),
                keep ==> parts_connected(g@, state.assignment@) && parts_connected(g@, best.assignment@),
                k == p0.k,
                opt_u32_view(state.tpwgts) == p0.tpwgts,
                bal ==> g@.positive(),
                bal ==> loads_balanced(g@, state.assignment@, k, p0.tpwgts, self.ufactor) && loads_balanced(
                    g@,
                    best.assignment@,
                    k,
                    p0.tpwgts,
                    self.ufactor,
                ),
            ensures
                opt || pass == self.niter,
            decreases self.niter - pass,
        {
            proof {
                if cond {
                    lemma_edge_cut_bound(g@, state.assignment@);
                }
            }
            let ghost a_pass = state.assignment@;
            let improved = fm_pass(&mut state, &mut best, self.contig_fm, self.ufactor);
            state.restore(&best);
            if !improved {
                proof {
                    if cond {
                        assert(best.assignment@ == a_pass);
                        assert forall|v: int|
                            0 <= v < g@.n() && #[trigger] fm_admissible(
                                g@,
                                best.assignment@,
                                2,
                                p0.tpwgts,
                                self.ufactor,
                                self.contig_fm,
                                v,
                            ) implies cut_gain(g@, best.assignment@, v) <= 0 by {}
                    }
                    opt = true;
                }
                break;
            }
            pass += 1;
        }
        let out = state.assignment;
        let end_cut = compute_cut(g, out.as_slice());
        let (chosen, chosen_cut) = if end_cut <= start_cut {
            (out, end_cut)
        } else {
            (start, start_cut)
        };
        let r = if chosen_cut > input_cut {
            Partition::from_parts(input, k, None)
        } else {
            Partition::from_parts(chosen, k, None)
        };
        proof {
            if keep {
                lemma_connected_checks(g@, r@);
            }
            if cond {
                assert(r@.assignment == best.assignment@);
            }
        }
        r
    }
}

/// `s` for a vertex of part `from`, `-s` for one of part `to`, nothing for
/// other parts or when the two parts coincide.
pub open spec fn side_term(p: u32, from: u32, to: u32, s: int) -> int {
    if from == to {
        0
    } else if p == from {
        s
    } else if p == to {
        -s
    } else {
        0
    }
}

/// Moving `v` (of part `from`) to `to` changes the cut slots of another
/// vertex `x` by the weight of its slots naming `v`, signed by `x`'s part.
proof fn lemma_row_other(g: GraphView, a: Seq<u32>, v: int, from: u32, to: u32, x: int, lo: int, r: int)
    requires
        0 <= v < a.len(),
        0 <= x < a.len(),
        x != v,
        a[v] == from,
        forall|j: int| lo <= j < r ==> 0 <= #[trigger] g.nbr(j) < a.len(),
    ensures
        cross_weight(g, a.update(v, to), x, lo, r) == cross_weight(g, a, x, lo, r) + side_term(
            a[x],
            from,
            to,
            g.slots_to(v, lo, r),
        ),
    decreases r - lo,
{
    if r > lo {
        lemma_row_other(g, a, v, from, to, x, lo, r - 1);
        assert(0 <= g.nbr(r - 1) < a.len());
    }
}

/// Moving `v` changes its own cut slots by `slot_delta` when it lists no
/// slot naming itself.
proof fn lemma_row_self(g: GraphView, a: Seq<u32>, v: int, from: u32, to: u32, lo: int, r: int)
    requires
        0 <= v < a.len(),
        a[v] == from,
        forall|j: int| lo <= j < r ==> 0 <= #[trigger] g.nbr(j) < a.len() && g.nbr(j) != v,
    ensures
        cross_weight(g, a.update(v, to), v, lo, r) == cross_weight(g, a, v, lo, r) + slot_delta(
            g,
            a.update(v, to),
            from as int,
            to as int,
            lo,
            r,
        ),
    decreases r - lo,
{
    if r > lo {
        lemma_row_self(g, a, v, from, to, lo, r - 1);
        assert(0 <= g.nbr(r - 1) < a.len());
    }
}

/// Change of the cut slots of the vertices below `i` when `v` moves.
pub open spec fn cut_change_upto(g: GraphView, a: Seq<u32>, v: int, from: u32, to: u32, i: int) -> int
    decreases i,
{
    if i <= 0 {
        0
    } else {
        cut_change_upto(g, a, v, from, to, i - 1) + if i - 1 == v {
            slot_delta(g, a.update(v, to), from as int, to as int, g.lo(v), g.hi(v))
        } else {
            side_term(a[i - 1], from, to, g.pair_weight(i - 1, v))
        }
    }
}

proof fn lemma_cut_change(g: GraphView, a: Seq<u32>, v: int, from: u32, to: u32, i: int)
    requires
        g.sound(),
        g.loop_free(),
        a.len() == g.n(),
        0 <= v < g.n(),
        a[v] == from,
        0 <= i <= g.n(),
    ensures
        cut_total(g, a.update(v, to), i) == cut_total(g, a, i) + cut_change_upto(g, a, v, from, to, i),
    decreases i,
{
    if i > 0 {
        lemma_cut_change(g, a, v, from, to, i - 1);
        let x = i - 1;
        assert(g.xadj[x] <= g.xadj[x + 1] <= g.xadj[g.n()]);
        assert forall|j: int| g.lo(x) <= j < g.hi(x) implies 0 <= #[trigger] g.nbr(j) < a.len() by {
            assert((g.adjncy[j] as int) < g.n());
        }
        if x == v {
            assert forall|j: int| g.lo(x) <= j < g.hi(x) implies 0 <= #[trigger] g.nbr(j) < a.len() && g.nbr(j) != v by {
                assert((g.adjncy[j] as int) < g.n());
                assert(g.lo(v) <= j < g.hi(v));
            }
            lemma_row_self(g, a, v, from, to, g.lo(x), g.hi(x));
        } else {
            lemma_row_other(g, a, v, from, to, x, g.lo(x), g.hi(x));
        }
    }
}

/// Sum over the vertices `x` below `i` of the weight of the slots `lo..r`
/// naming `x`, signed by `x`'s part.
pub open spec fn side_sum(g: GraphView, a: Seq<u32>, from: u32, to: u32, lo: int, r: int, i: int) -> int
    decreases i,
{
    if i <= 0 {
        0
    } else {
        side_sum(g, a, from, to, lo, r, i - 1) + side_term(a[i - 1], from, to, g.slots_to(i - 1, lo, r))
    }
}

proof fn lemma_side_sum_step(g: GraphView, a: Seq<u32>, from: u32, to: u32, lo: int, r: int, i: int)
    requires
        lo < r,
    ensures
        side_sum(g, a, from, to, lo, r, i) == side_sum(g, a, from, to, lo, r - 1, i) + if 0 <= g.nbr(r - 1) < i {
            side_term(a[g.nbr(r - 1)], from, to, g.ew(r - 1))
        } else {
            0
        },
    decreases i,
{
    if i > 0 {
        lemma_side_sum_step(g, a, from, to, lo, r, i - 1);
    }
}

/// The signed weights of the slots `lo..r`, summed by the vertices they
/// name, are `slot_delta` of those slots.
proof fn lemma_side_sum_slots(g: GraphView, a: Seq<u32>, v: int, from: u32, to: u32, lo: int, r: int)
    requires
        0 <= v < a.len(),
        forall|j: int| lo <= j < r ==> 0 <= #[trigger] g.nbr(j) < a.len() && g.nbr(j) != v,
    ensures
        side_sum(g, a, from, to, lo, r, a.len() as int) == slot_delta(g, a.update(v, to), from as int, to as int, lo, r),
    decreases r - lo,
{
    if r > lo {
        lemma_side_sum_slots(g, a, v, from, to, lo, r - 1);
        lemma_side_sum_step(g, a, from, to, lo, r, a.len() as int);
        assert(0 <= g.nbr(r - 1) < a.len());
    } else {
        lemma_side_sum_zero(g, a, from, to, lo, r, a.len() as int);
    }
}

proof fn lemma_side_sum_zero(g: GraphView, a: Seq<u32>, from: u32, to: u32, lo: int, r: int, i: int)
    requires
        r <= lo,
    ensures
        side_sum(g, a, from, to, lo, r, i) == 0,
    decreases i,
{
    if i > 0 {
        lemma_side_sum_zero(g, a, from, to, lo, r, i - 1);
    }
}

/// With symmetric pair weights, the change summed over all vertices other
/// than `v` is the signed weight of `v`'s own slots.
proof fn lemma_change_others(g: GraphView, a: Seq<u32>, v: int, from: u32, to: u32, i: int)
    requires
        g.valid(),
        g.simple(),
        a.len() == g.n(),
        0 <= v < g.n(),
        a[v] == from,
        0 <= i <= g.n(),
    ensures
        cut_change_upto(g, a, v, from, to, i) == (if v < i {
            slot_delta(g, a.update(v, to), from as int, to as int, g.lo(v), g.hi(v))
        } else {
            0
        }) + side_sum(g, a, from, to, g.lo(v), g.hi(v), i),
    decreases i,
{
    crate::graph::csr::lemma_valid_facts(g);
    if i > 0 {
        lemma_change_others(g, a, v, from, to, i - 1);
        let x = i - 1;
        if x == v {
            assert(g.slots_to(v, g.lo(v), g.hi(v)) == 0) by {
                lemma_slots_to_absent(g, v, g.lo(v), g.hi(v));
            }
        } else {
            crate::graph::csr::lemma_pair_weight_symmetric(g, x, v);
        }
    }
}

/// A vertex that lists no slot naming itself has no weight towards itself.
proof fn lemma_slots_to_absent(g: GraphView, y: int, lo: int, r: int)
    requires
        g.sound(),
        g.loop_free(),
        0 <= y < g.n(),
        lo == g.lo(y),
        r <= g.hi(y),
    ensures
        g.slots_to(y, lo, r) == 0,
    decreases r - lo,
{
    if r > lo {
        lemma_slots_to_absent(g, y, lo, r - 1);
        assert(g.nbr(r - 1) != y);
    }
}

/// Cut slots never weigh less than zero when the edge weights are positive.
proof fn lemma_cut_total_nonneg(g: GraphView, a: Seq<u32>, i: int)
    requires
        g.positive(),
        g.sound(),
        0 <= i <= g.n(),
    ensures
        cut_total(g, a, i) >= 0,
    decreases i,
{
    if i > 0 {
        lemma_cut_total_nonneg(g, a, i - 1);
        assert(g.xadj[i - 1] <= g.xadj[i] <= g.xadj[g.n()]);
        lemma_cross_nonneg(g, a, i - 1, g.lo(i - 1), g.hi(i - 1));
    }
}

proof fn lemma_cross_nonneg(g: GraphView, a: Seq<u32>, x: int, lo: int, r: int)
    requires
        g.positive(),
        g.sound(),
        0 <= lo,
        r <= g.m(),
    ensures
        cross_weight(g, a, x, lo, r) >= 0,
    decreases r - lo,
{
    if r > lo {
        lemma_cross_nonneg(g, a, x, lo, r - 1);
        if g.adjwgt is Some {
            assert(g.adjwgt->0[r - 1] > 0);
        }
    }
}

/// Moving vertex `v` from part `from` to part `to` on a valid graph that
/// lists no neighbour twice changes the edge cut by `slot_delta` of `v`'s
/// slots under the new assignment: the weight of its edges into `from` less
/// that of its edges into `to`.
pub proof fn lemma_move_changes_cut(g: GraphView, a: Seq<u32>, v: int, to: u32)
    requires
        g.valid(),
        g.simple(),
        a.len() == g.n(),
        0 <= v < g.n(),
    ensures
        edge_cut(g, a.update(v, to)) == edge_cut(g, a) + slot_delta(
            g,
            a.update(v, to),
            a[v] as int,
            to as int,
            g.lo(v),
            g.hi(v),
        ),
{
    crate::graph::csr::lemma_valid_facts(g);
    let from = a[v];
    let n = g.n();
    lemma_cut_change(g, a, v, from, to, n);
    lemma_change_others(g, a, v, from, to, n);
    assert(g.xadj[v] <= g.xadj[v + 1] <= g.xadj[n]);
    assert forall|j: int| g.lo(v) <= j < g.hi(v) implies 0 <= #[trigger] g.nbr(j) < a.len() && g.nbr(j) != v by {
        assert((g.adjncy[j] as int) < n);
    }
    lemma_side_sum_slots(g, a, v, from, to, g.lo(v), g.hi(v));
    lemma_cut_total_nonneg(g, a, n);
    lemma_cut_total_nonneg(g, a.update(v, to), n);
}

proof fn lemma_cross_le(g: GraphView, a: Seq<u32>, x: int, lo: int, r: int)
    requires
        lo <= r,
    ensures
        cross_weight(g, a, x, lo, r) <= 0x8000_0000 * (r - lo),
    decreases r - lo,
{
    if r > lo {
        lemma_cross_le(g, a, x, lo, r - 1);
    }
}

proof fn lemma_cut_total_le(g: GraphView, a: Seq<u32>, i: int)
    requires
        g.sound(),
        0 <= i <= g.n(),
    ensures
        cut_total(g, a, i) <= 0x8000_0000 * g.xadj[i],
    decreases i,
{
    if i > 0 {
        lemma_cut_total_le(g, a, i - 1);
        assert(g.xadj[i - 1] <= g.xadj[i] <= g.xadj[g.n()]);
        lemma_cross_le(g, a, i - 1, g.lo(i - 1), g.hi(i - 1));
    } else {
        assert(g.xadj[0] == 0);
    }
}

/// With positive weights the edge cut lies between zero and `2^62`.
pub proof fn lemma_edge_cut_bound(g: GraphView, a: Seq<u32>)
    requires
        g.sound(),
        g.positive(),
    ensures
        0 <= edge_cut(g, a) <= 0x4000_0000_0000_0000,
{
    lemma_cut_total_nonneg(g, a, g.n());
    lemma_cut_total_le(g, a, g.n());
    assert(g.xadj[g.n()] <= 0xffff_ffff);
    assert(0x8000_0000 * g.xadj[g.n()] <= 0x8000_0000 * 0xffff_ffff) by (nonlinear_arith)
        requires
            0 <= g.xadj[g.n()] <= 0xffff_ffff,
    ;
}

} // verus!
