use vstd::prelude::*;

use crate::coarsen::coarse_graph::{
    coarse_adjacent, coarse_edge_weight, coarse_row_links, coarse_row_weights, contraction_of, group_weight, slot_hits,
    slot_weight, sum_all,
};
use crate::graph::csr::{lemma_pair_weight_symmetric, lemma_valid_facts, GraphView};
use crate::graph::subgraph::{lemma_members_props, members_upto};

verus! {

/// Sums over `0..n` agree for functions that agree there.
proof fn lemma_sum_all_ext(n: int, f: spec_fn(int) -> int, h: spec_fn(int) -> int)
    requires
        forall|y: int| 0 <= y < n ==> #[trigger] f(y) == h(y),
    ensures
        sum_all(n, f) == sum_all(n, h),
    decreases n,
{
    if n > 0 {
        lemma_sum_all_ext(n - 1, f, h);
    }
}

/// A sum of sums is the sum of the two sums.
proof fn lemma_sum_all_add(n: int, f: spec_fn(int) -> int, h: spec_fn(int) -> int)
    ensures
        sum_all(n, |y: int| f(y) + h(y)) == sum_all(n, f) + sum_all(n, h),
    decreases n,
{
    if n > 0 {
        lemma_sum_all_add(n - 1, f, h);
    }
}

/// A function that is `c` at `y0` and zero elsewhere sums to `c`.
proof fn lemma_sum_all_point(n: int, y0: int, c: int)
    requires
        0 <= y0 < n,
    ensures
        sum_all(n, |y: int| if y == y0 { c } else { 0 }) == c,
    decreases n,
{
    let f = |y: int| if y == y0 { c } else { 0 };
    if n - 1 > y0 {
        lemma_sum_all_point(n - 1, y0, c);
    } else {
        lemma_sum_all_zero_below(n - 1, f);
    }
}

/// A function that is zero on `0..n` sums to zero there.
proof fn lemma_sum_all_zero_below(n: int, f: spec_fn(int) -> int)
    requires
        forall|y: int| 0 <= y < n ==> #[trigger] f(y) == 0,
    ensures
        sum_all(n, f) == 0,
    decreases n,
{
    if n > 0 {
        lemma_sum_all_zero_below(n - 1, f);
    }
}

/// A sum of non-negative terms is at least any one of them.
proof fn lemma_sum_all_ge_term(n: int, f: spec_fn(int) -> int, y0: int)
    requires
        0 <= y0 < n,
        forall|y: int| 0 <= y < n ==> #[trigger] f(y) >= 0,
    ensures
        sum_all(n, f) >= f(y0),
    decreases n,
{
    lemma_sum_all_nonneg(n - 1, f);
    if n - 1 > y0 {
        lemma_sum_all_ge_term(n - 1, f, y0);
    }
}

/// A sum of non-negative terms is non-negative.
proof fn lemma_sum_all_nonneg(n: int, f: spec_fn(int) -> int)
    requires
        forall|y: int| 0 <= y < n ==> #[trigger] f(y) >= 0,
    ensures
        sum_all(n, f) >= 0,
    decreases n,
{
    if n > 0 {
        lemma_sum_all_nonneg(n - 1, f);
    }
}

/// A double sum can be taken in either order.
proof fn lemma_sum_swap(n1: int, n2: int, f: spec_fn(int, int) -> int)
    ensures
        sum_all(n1, |x: int| sum_all(n2, |y: int| f(x, y))) == sum_all(n2, |y: int| sum_all(n1, |x: int| f(x, y))),
    decreases n1,
{
    let lhs = |x: int| sum_all(n2, |y: int| f(x, y));
    let whole = |y: int| sum_all(n1, |x: int| f(x, y));
    if n1 > 0 {
        lemma_sum_swap(n1 - 1, n2, f);
        let a = |y: int| sum_all(n1 - 1, |x: int| f(x, y));
        let b = |y: int| f(n1 - 1, y);
        lemma_sum_all_add(n2, a, b);
        let split = |y: int| a(y) + b(y);
        assert forall|y: int| 0 <= y < n2 implies #[trigger] whole(y) == split(y) by {
            assert(sum_all(n1, |x: int| f(x, y)) == sum_all(n1 - 1, |x: int| f(x, y)) + f(n1 - 1, y));
        }
        lemma_sum_all_ext(n2, whole, split);
        assert(sum_all(n1, lhs) == sum_all(n1 - 1, lhs) + lhs(n1 - 1));
        assert(sum_all(n1 - 1, lhs) == sum_all(n2, a));
        assert(lhs(n1 - 1) == sum_all(n2, b));
    } else {
        assert forall|y: int| 0 <= y < n2 implies #[trigger] whole(y) == 0 by {}
        lemma_sum_all_zero_below(n2, whole);
    }
}

/// The slots `lo..r` into `cu` weigh, summed over the vertices `y` of `cu`,
/// what the slots naming `y` weigh.
proof fn lemma_slot_weight_by_pairs(g: GraphView, cmap: Seq<u32>, cu: int, lo: int, r: int)
    requires
        forall|j: int| lo <= j < r ==> 0 <= #[trigger] g.nbr(j) < g.n(),
    ensures
        slot_weight(g, cmap, cu, lo, r) == sum_all(
            g.n(),
            |y: int| if cmap[y] as int == cu { g.slots_to(y, lo, r) } else { 0 },
        ),
    decreases r - lo,
{
    let n = g.n();
    if r <= lo {
        lemma_sum_all_zero_below(n, |y: int| if cmap[y] as int == cu { g.slots_to(y, lo, r) } else { 0 });
    } else {
        lemma_slot_weight_by_pairs(g, cmap, cu, lo, r - 1);
        let y0 = g.nbr(r - 1);
        let e = if cmap[y0] as int == cu { g.ew(r - 1) } else { 0 };
        let before = |y: int| if cmap[y] as int == cu { g.slots_to(y, lo, r - 1) } else { 0 };
        let step = |y: int| if y == y0 { e } else { 0 };
        lemma_sum_all_add(n, before, step);
        lemma_sum_all_point(n, y0, e);
        lemma_sum_all_ext(
            n,
            |y: int| if cmap[y] as int == cu { g.slots_to(y, lo, r) } else { 0 },
            |y: int| before(y) + step(y),
        );
    }
}

/// Only the first `x` members count toward a group weight.
proof fn lemma_group_prefix(g: GraphView, cmap: Seq<u32>, cu: int, mem: Seq<int>, e: int, x: int)
    requires
        0 <= x <= mem.len(),
    ensures
        group_weight(g, cmap, cu, mem.push(e), x) == group_weight(g, cmap, cu, mem, x),
    decreases x,
{
    if x > 0 {
        lemma_group_prefix(g, cmap, cu, mem, e, x - 1);
    }
}

/// The weight from the members of `cv` below `i` into `cu` is the sum, over
/// the vertices below `i`, of their row weight into `cu` when they belong to
/// `cv`.
proof fn lemma_group_by_vertices(g: GraphView, cmap: Seq<u32>, cu: int, cv: u32, i: int)
    requires
        0 <= i <= cmap.len(),
    ensures
        group_weight(g, cmap, cu, members_upto(cmap, cv, i), members_upto(cmap, cv, i).len() as int) == sum_all(
            i,
            |x: int| if cmap[x] == cv { slot_weight(g, cmap, cu, g.lo(x), g.hi(x)) } else { 0 },
        ),
    decreases i,
{
    if i > 0 {
        lemma_group_by_vertices(g, cmap, cu, cv, i - 1);
        let mem = members_upto(cmap, cv, i - 1);
        if cmap[i - 1] == cv {
            assert(members_upto(cmap, cv, i) == mem.push(i - 1));
            lemma_group_prefix(g, cmap, cu, mem, i - 1, mem.len() as int);
        }
    }
}

/// Weight of the edges from fine vertex `x` of `cv` to fine vertex `y` of
/// `cu`, and zero for other vertices.
pub open spec fn pair_term(g: GraphView, cmap: Seq<u32>, cv: int, cu: int, x: int, y: int) -> int {
    if cmap[x] as int == cv && cmap[y] as int == cu {
        g.pair_weight(x, y)
    } else {
        0
    }
}

/// Weight of the edges from fine vertex `x` into `cu` when `x` belongs to `cv`.
pub open spec fn row_total(g: GraphView, cmap: Seq<u32>, cv: int, cu: int, x: int) -> int {
    sum_all(g.n(), |y: int| pair_term(g, cmap, cv, cu, x, y))
}

/// The coarse edge weight from `cv` to `cu` is the double sum, over the fine
/// vertices `x` of `cv` and `y` of `cu`, of the weight of the edges from `x`
/// to `y`.
proof fn lemma_coarse_weight_by_pairs(g: GraphView, cmap: Seq<u32>, cv: int, cu: int)
    requires
        g.sound(),
        cmap.len() == g.n(),
        0 <= cv <= u32::MAX,
    ensures
        coarse_edge_weight(g, cmap, cv, cu) == sum_all(g.n(), |x: int| row_total(g, cmap, cv, cu, x)),
{
    let n = g.n();
    lemma_group_by_vertices(g, cmap, cu, cv as u32, n);
    let rows = |x: int| if cmap[x] == cv as u32 { slot_weight(g, cmap, cu, g.lo(x), g.hi(x)) } else { 0 };
    let totals = |x: int| row_total(g, cmap, cv, cu, x);
    assert forall|x: int| 0 <= x < n implies #[trigger] rows(x) == totals(x) by {
        assert(g.xadj[x] <= g.xadj[x + 1] <= g.xadj[n]);
        assert forall|j: int| g.lo(x) <= j < g.hi(x) implies 0 <= #[trigger] g.nbr(j) < n by {
            assert((g.adjncy[j] as int) < n);
        }
        lemma_slot_weight_by_pairs(g, cmap, cu, g.lo(x), g.hi(x));
        let by_slots = |y: int| if cmap[y] as int == cu { g.slots_to(y, g.lo(x), g.hi(x)) } else { 0 };
        let terms = |y: int| pair_term(g, cmap, cv, cu, x, y);
        if cmap[x] as int == cv {
            assert forall|y: int| 0 <= y < n implies #[trigger] by_slots(y) == terms(y) by {}
            lemma_sum_all_ext(n, by_slots, terms);
        } else {
            assert forall|y: int| 0 <= y < n implies #[trigger] terms(y) == 0 by {}
            lemma_sum_all_zero_below(n, terms);
        }
    }
    lemma_sum_all_ext(n, rows, totals);
}

/// Contraction of a valid graph in which no vertex lists a neighbour twice
/// gives coarse edges the same weight in both directions: the fine edges
/// from `cv` to `cu` weigh what the fine edges from `cu` to `cv` weigh.
pub proof fn lemma_coarse_weight_symmetric(g: GraphView, cmap: Seq<u32>, cv: int, cu: int)
    requires
        g.valid(),
        g.simple(),
        cmap.len() == g.n(),
        0 <= cv <= u32::MAX,
        0 <= cu <= u32::MAX,
    ensures
        coarse_edge_weight(g, cmap, cv, cu) == coarse_edge_weight(g, cmap, cu, cv),
{
    lemma_valid_facts(g);
    let n = g.n();
    lemma_coarse_weight_by_pairs(g, cmap, cv, cu);
    lemma_coarse_weight_by_pairs(g, cmap, cu, cv);
    let f = |x: int, y: int| pair_term(g, cmap, cv, cu, x, y);
    lemma_sum_swap(n, n, f);
    // the rows of `f` are the rows from `cv` to `cu`
    let rows_f = |x: int| sum_all(n, |y: int| f(x, y));
    let rows = |x: int| row_total(g, cmap, cv, cu, x);
    assert forall|x: int| 0 <= x < n implies #[trigger] rows_f(x) == rows(x) by {
        lemma_sum_all_ext(n, |y: int| f(x, y), |y: int| pair_term(g, cmap, cv, cu, x, y));
    }
    lemma_sum_all_ext(n, rows_f, rows);
    // the columns of `f` are the rows from `cu` to `cv`
    let cols_f = |y: int| sum_all(n, |x: int| f(x, y));
    let back = |y: int| row_total(g, cmap, cu, cv, y);
    assert forall|y: int| 0 <= y < n implies #[trigger] cols_f(y) == back(y) by {
        assert forall|x: int| 0 <= x < n implies #[trigger] f(x, y) == pair_term(g, cmap, cu, cv, y, x) by {
            lemma_pair_weight_symmetric(g, x, y);
        }
        lemma_sum_all_ext(n, |x: int| f(x, y), |x: int| pair_term(g, cmap, cu, cv, y, x));
    }
    lemma_sum_all_ext(n, cols_f, back);
}

/// Slots of non-negative weight weigh at least any one of them that leads
/// into `cu`, and never less than zero.
proof fn lemma_slot_weight_ge(g: GraphView, cmap: Seq<u32>, cu: int, lo: int, r: int, j0: int)
    requires
        forall|j: int| lo <= j < r ==> #[trigger] g.ew(j) >= 0,
    ensures
        slot_weight(g, cmap, cu, lo, r) >= 0,
        lo <= j0 < r && cmap[g.nbr(j0)] as int == cu ==> slot_weight(g, cmap, cu, lo, r) >= g.ew(j0),
    decreases r - lo,
{
    if r > lo {
        lemma_slot_weight_ge(g, cmap, cu, lo, r - 1, j0);
    }
}

/// Rows of non-negative weight give a group weight at least that of any one
/// member, and never less than zero.
proof fn lemma_group_weight_ge(g: GraphView, cmap: Seq<u32>, cu: int, mem: Seq<int>, x: int, y0: int)
    requires
        forall|t: int| 0 <= t < x ==> #[trigger] slot_weight(g, cmap, cu, g.lo(mem[t]), g.hi(mem[t])) >= 0,
    ensures
        group_weight(g, cmap, cu, mem, x) >= 0,
        0 <= y0 < x ==> group_weight(g, cmap, cu, mem, x) >= slot_weight(g, cmap, cu, g.lo(mem[y0]), g.hi(mem[y0])),
    decreases x,
{
    if x > 0 {
        lemma_group_weight_ge(g, cmap, cu, mem, x - 1, y0);
    }
}

/// On a valid weighted graph, adjacent coarse vertices are joined by fine
/// edges of total weight at least one.
pub proof fn lemma_coarse_weight_positive(g: GraphView, cmap: Seq<u32>, cv: int, cu: int)
    requires
        g.valid(),
        g.adjwgt is Some,
        cmap.len() == g.n(),
        0 <= cv <= u32::MAX,
        coarse_adjacent(g, cmap, cv, cu),
    ensures
        coarse_edge_weight(g, cmap, cv, cu) >= 1,
{
    lemma_valid_facts(g);
    let n = g.n();
    let mem = members_upto(cmap, cv as u32, n);
    lemma_members_props(cmap, cv as u32, n);
    assert forall|j: int| 0 <= j < g.m() implies #[trigger] g.ew(j) >= 1 by {
        assert(g.adjwgt->0[j] > 0);
    }
    assert forall|t: int| 0 <= t < mem.len() implies #[trigger] slot_weight(g, cmap, cu, g.lo(mem[t]), g.hi(mem[t])) >= 0 by {
        let x = mem[t];
        assert(g.xadj[x] <= g.xadj[x + 1] <= g.xadj[n]);
        assert forall|j: int| g.lo(x) <= j < g.hi(x) implies #[trigger] g.ew(j) >= 0 by {
            assert(g.ew(j) >= 1);
        }
        lemma_slot_weight_ge(g, cmap, cu, g.lo(x), g.hi(x), g.lo(x));
    }
    let y = choose|y: int| 0 <= y < mem.len() && #[trigger] slot_hits(g, cmap, cu, g.lo(mem[y]), g.hi(mem[y]));
    let x = mem[y];
    let j = choose|j: int| g.lo(x) <= j < g.hi(x) && #[trigger] cmap[g.nbr(j)] as int == cu;
    assert(g.xadj[x] <= g.xadj[x + 1] <= g.xadj[n]);
    assert forall|j2: int| g.lo(x) <= j2 < g.hi(x) implies #[trigger] g.ew(j2) >= 0 by {
        assert(g.ew(j2) >= 1);
    }
    lemma_slot_weight_ge(g, cmap, cu, g.lo(x), g.hi(x), j);
    lemma_group_weight_ge(g, cmap, cu, mem, mem.len() as int, y);
}

/// Total weight of the slots in `lo..r`.
pub open spec fn range_weight(g: GraphView, lo: int, r: int) -> int
    decreases r - lo,
{
    if r <= lo {
        0
    } else {
        range_weight(g, lo, r - 1) + g.ew(r - 1)
    }
}

/// Total weight of all adjacency slots.
pub open spec fn edge_total(g: GraphView) -> int {
    range_weight(g, 0, g.m())
}

/// A range of slots splits at any point inside it.
proof fn lemma_range_split(g: GraphView, lo: int, mid: int, r: int)
    requires
        lo <= mid <= r,
    ensures
        range_weight(g, lo, r) == range_weight(g, lo, mid) + range_weight(g, mid, r),
    decreases r - mid,
{
    if r > mid {
        lemma_range_split(g, lo, mid, r - 1);
    }
}

/// The rows of the first `i` vertices weigh what the slots before row `i` weigh.
proof fn lemma_rows_total(g: GraphView, i: int)
    requires
        g.sound(),
        0 <= i <= g.n(),
    ensures
        sum_all(i, |x: int| range_weight(g, g.lo(x), g.hi(x))) == range_weight(g, 0, g.xadj[i] as int),
    decreases i,
{
    if i > 0 {
        lemma_rows_total(g, i - 1);
        assert(g.xadj[0] <= g.xadj[i - 1] <= g.xadj[i]);
        lemma_range_split(g, 0, g.xadj[i - 1] as int, g.xadj[i] as int);
    }
}

/// Summed over every coarse vertex, the slots `lo..r` into each weigh what
/// the slots weigh.
proof fn lemma_slot_weights_cover(g: GraphView, cmap: Seq<u32>, lo: int, r: int, hn: int)
    requires
        forall|j: int| lo <= j < r ==> (#[trigger] cmap[g.nbr(j)] as int) < hn,
    ensures
        sum_all(hn, |cu: int| slot_weight(g, cmap, cu, lo, r)) == range_weight(g, lo, r),
    decreases r - lo,
{
    if r <= lo {
        lemma_sum_all_zero_below(hn, |cu: int| slot_weight(g, cmap, cu, lo, r));
    } else {
        lemma_slot_weights_cover(g, cmap, lo, r - 1, hn);
        let c0 = cmap[g.nbr(r - 1)] as int;
        let before = |cu: int| slot_weight(g, cmap, cu, lo, r - 1);
        let step = |cu: int| if cu == c0 { g.ew(r - 1) } else { 0 };
        lemma_sum_all_add(hn, before, step);
        lemma_sum_all_point(hn, c0, g.ew(r - 1));
        lemma_sum_all_ext(hn, |cu: int| slot_weight(g, cmap, cu, lo, r), |cu: int| before(cu) + step(cu));
    }
}

/// Sums respect a pointwise order.
proof fn lemma_sum_all_le(n: int, f: spec_fn(int) -> int, h: spec_fn(int) -> int)
    requires
        forall|y: int| 0 <= y < n ==> #[trigger] f(y) <= h(y),
    ensures
        sum_all(n, f) <= sum_all(n, h),
    decreases n,
{
    if n > 0 {
        lemma_sum_all_le(n - 1, f, h);
    }
}

/// A sum of non-negative terms grows with its range.
proof fn lemma_sum_all_grows(n1: int, n2: int, f: spec_fn(int) -> int)
    requires
        0 <= n1 <= n2,
        forall|y: int| 0 <= y < n2 ==> #[trigger] f(y) >= 0,
    ensures
        sum_all(n1, f) <= sum_all(n2, f),
    decreases n2 - n1,
{
    if n1 < n2 {
        lemma_sum_all_grows(n1, n2 - 1, f);
    }
}

/// Sum of `f` over the values of `s`.
pub open spec fn values_sum(s: Seq<u32>, f: spec_fn(int) -> int) -> int
    decreases s.len(),
{
    if s.len() == 0 {
        0
    } else {
        values_sum(s.drop_last(), f) + f(s.last() as int)
    }
}

/// Over distinct values below `n`, a sum of non-negative terms is at most
/// the sum over all of `0..n`.
proof fn lemma_values_sum_le(s: Seq<u32>, n: int, f: spec_fn(int) -> int)
    requires
        crate::util::strictly_increasing(s),
        forall|t: int| 0 <= t < s.len() ==> (#[trigger] s[t] as int) < n,
        forall|y: int| 0 <= y < n ==> #[trigger] f(y) >= 0,
        n >= 0,
    ensures
        values_sum(s, f) <= sum_all(n, f),
    decreases s.len(),
{
    if s.len() == 0 {
        lemma_sum_all_nonneg(n, f);
    } else {
        let last = s.last() as int;
        let p = s.drop_last();
        assert forall|t: int| 0 <= t < p.len() implies (#[trigger] p[t] as int) < last by {
            assert(s[t] < s[s.len() - 1]);
        }
        lemma_values_sum_le(p, last, f);
        lemma_sum_all_grows(last + 1, n, f);
    }
}

/// Slots whose weights are given by their neighbours weigh the sum over the
/// neighbours they list.
proof fn lemma_range_as_values(g: GraphView, lo: int, r: int, f: spec_fn(int) -> int)
    requires
        0 <= lo <= r <= g.adjncy.len(),
        forall|k: int| lo <= k < r ==> #[trigger] g.ew(k) == f(g.nbr(k)),
    ensures
        range_weight(g, lo, r) == values_sum(g.adjncy.subrange(lo, r), f),
    decreases r - lo,
{
    if r > lo {
        lemma_range_as_values(g, lo, r - 1, f);
        assert(g.adjncy.subrange(lo, r).drop_last() =~= g.adjncy.subrange(lo, r - 1));
    }
}

/// The weight from fine vertex `x` into coarse vertex `cu`, when `x` belongs
/// to `cv`.
pub open spec fn member_slots(g: GraphView, cmap: Seq<u32>, cv: int, cu: int, x: int) -> int {
    if cmap[x] as int == cv {
        slot_weight(g, cmap, cu, g.lo(x), g.hi(x))
    } else {
        0
    }
}

/// The weight of the row of fine vertex `x`, when `x` belongs to `cv`.
pub open spec fn member_row(g: GraphView, cmap: Seq<u32>, cv: int, x: int) -> int {
    if cmap[x] as int == cv {
        range_weight(g, g.lo(x), g.hi(x))
    } else {
        0
    }
}

/// With edge weights of at least zero, the coarse edge weight from `cv` to
/// `cu` is the sum of its members' rows into `cu`, between zero and the
/// total weight of all slots.
pub proof fn lemma_coarse_weight_bound(g: GraphView, cmap: Seq<u32>, hn: int, cv: int, cu: int)
    requires
        g.sound(),
        forall|j: int| 0 <= j < g.m() ==> #[trigger] g.ew(j) >= 0,
        cmap.len() == g.n(),
        forall|v: int| 0 <= v < g.n() ==> (#[trigger] cmap[v] as int) < hn,
        0 <= cv <= u32::MAX,
        0 <= cu < hn,
    ensures
        coarse_edge_weight(g, cmap, cv, cu) == sum_all(g.n(), |x: int| member_slots(g, cmap, cv, cu, x)),
        0 <= coarse_edge_weight(g, cmap, cv, cu) <= edge_total(g),
{
    let n = g.n();
    lemma_group_by_vertices(g, cmap, cu, cv as u32, n);
    let rows = |x: int| if cmap[x] == cv as u32 { slot_weight(g, cmap, cu, g.lo(x), g.hi(x)) } else { 0 };
    let ms = |x: int| member_slots(g, cmap, cv, cu, x);
    let whole = |x: int| range_weight(g, g.lo(x), g.hi(x));
    assert forall|x: int|
        #![trigger rows(x)]
        #![trigger ms(x)]
        0 <= x < n implies rows(x) == ms(x) && 0 <= ms(x) <= whole(x) by {
        assert(g.xadj[x] <= g.xadj[x + 1] <= g.xadj[n]);
        assert forall|j: int| g.lo(x) <= j < g.hi(x) implies (#[trigger] cmap[g.nbr(j)] as int) < hn by {
            assert((g.adjncy[j] as int) < n);
        }
        assert forall|j: int| g.lo(x) <= j < g.hi(x) implies #[trigger] g.ew(j) >= 0 by {}
        lemma_slot_weights_cover(g, cmap, g.lo(x), g.hi(x), hn);
        let per = |c: int| slot_weight(g, cmap, c, g.lo(x), g.hi(x));
        assert forall|c: int| 0 <= c < hn implies #[trigger] per(c) >= 0 by {
            lemma_slot_weight_ge(g, cmap, c, g.lo(x), g.hi(x), g.lo(x));
        }
        lemma_sum_all_ge_term(hn, per, cu);
    }
    lemma_sum_all_ext(n, rows, ms);
    lemma_sum_all_le(n, ms, whole);
    lemma_sum_all_nonneg(n, ms);
    lemma_rows_total(g, n);
}

/// The coarse adjacency lists no vertex twice.
pub proof fn lemma_contraction_simple(g: GraphView, cmap: Seq<u32>, h: GraphView)
    requires
        contraction_of(g, cmap, h),
    ensures
        h.simple(),
{
    assert forall|v: int, j1: int, j2: int|
        #![trigger h.lo(v), h.nbr(j1), h.nbr(j2)]
        0 <= v < h.n() && h.lo(v) <= j1 < h.hi(v) && h.lo(v) <= j2 < h.hi(v) && h.nbr(j1) == h.nbr(j2) implies j1
        == j2 by {
        assert(coarse_row_links(g, cmap, h.n(), h.xadj, h.adjncy, v));
        let row = h.adjncy.subrange(h.xadj[v] as int, h.xadj[v + 1] as int);
        let t1 = j1 - h.xadj[v];
        let t2 = j2 - h.xadj[v];
        assert(row[t1] == h.adjncy[j1] && row[t2] == h.adjncy[j2]);
        if t1 < t2 {
            assert(row[t1] < row[t2]);
        } else if t2 < t1 {
            assert(row[t2] < row[t1]);
        }
    }
}

/// Contraction of a graph with non-negative edge weights whose coarse edge
/// weights are stored exactly never raises the total weight of the slots.
pub proof fn lemma_contraction_edge_total(g: GraphView, cmap: Seq<u32>, h: GraphView)
    requires
        g.sound(),
        g.adjwgt is Some,
        forall|j: int| 0 <= j < g.m() ==> #[trigger] g.ew(j) >= 0,
        edge_total(g) <= i32::MAX,
        cmap.len() == g.n(),
        forall|v: int| 0 <= v < g.n() ==> (#[trigger] cmap[v] as int) < h.n(),
        contraction_of(g, cmap, h),
    ensures
        edge_total(h) <= edge_total(g),
{
    let n = g.n();
    let hn = h.n();
    assert(hn <= u32::MAX + 1) by {
        assert(h.n() <= 0x1_0000_0000);
    }
    // each coarse row weighs at most the sum of the coarse edge weights of its vertex
    let cew_sum = |cv: int| sum_all(hn, |cu: int| coarse_edge_weight(g, cmap, cv, cu));
    let hrows = |cv: int| range_weight(h, h.lo(cv), h.hi(cv));
    assert forall|cv: int| 0 <= cv < hn implies #[trigger] hrows(cv) <= cew_sum(cv) by {
        assert(coarse_row_links(g, cmap, hn, h.xadj, h.adjncy, cv));
        assert(coarse_row_weights(g, cmap, h.xadj, h.adjncy, h.adjwgt->0, cv));
        assert(h.xadj[cv] <= h.xadj[cv + 1] <= h.xadj[hn]);
        let f = |cu: int| coarse_edge_weight(g, cmap, cv, cu);
        assert forall|k: int| h.lo(cv) <= k < h.hi(cv) implies #[trigger] h.ew(k) == f(h.nbr(k)) by {
            assert((h.adjncy[k] as int) < hn);
            lemma_coarse_weight_bound(g, cmap, hn, cv, h.nbr(k));
        }
        lemma_range_as_values(h, h.lo(cv), h.hi(cv), f);
        assert forall|cu: int| 0 <= cu < hn implies #[trigger] f(cu) >= 0 by {
            lemma_coarse_weight_bound(g, cmap, hn, cv, cu);
        }
        let row = h.adjncy.subrange(h.lo(cv), h.hi(cv));
        assert forall|t: int| 0 <= t < row.len() implies (#[trigger] row[t] as int) < hn by {
            assert(row[t] == h.adjncy[h.lo(cv) + t]);
        }
        lemma_values_sum_le(row, hn, f);
        lemma_sum_all_ext(hn, f, |cu: int| coarse_edge_weight(g, cmap, cv, cu));
    }
    lemma_rows_total(h, hn);
    lemma_sum_all_le(hn, hrows, cew_sum);
    // the coarse edge weights of `cv`, summed, are its members' rows
    let mrows = |cv: int| sum_all(n, |x: int| member_row(g, cmap, cv, x));
    assert forall|cv: int| 0 <= cv < hn implies #[trigger] cew_sum(cv) == mrows(cv) by {
        lemma_coarse_out_members(g, cmap, hn, cv);
    }
    lemma_sum_all_ext(hn, cew_sum, mrows);
    lemma_members_cover(g, cmap, hn);
}

/// The coarse edge weights out of `cv`, summed over the coarse vertices,
/// are the rows of the members of `cv`.
proof fn lemma_coarse_out_members(g: GraphView, cmap: Seq<u32>, hn: int, cv: int)
    requires
        g.sound(),
        forall|j: int| 0 <= j < g.m() ==> #[trigger] g.ew(j) >= 0,
        cmap.len() == g.n(),
        forall|v: int| 0 <= v < g.n() ==> (#[trigger] cmap[v] as int) < hn,
        0 <= cv < hn,
        hn <= u32::MAX + 1,
    ensures
        sum_all(hn, |cu: int| coarse_edge_weight(g, cmap, cv, cu)) == sum_all(
            g.n(),
            |x: int| member_row(g, cmap, cv, x),
        ),
{
    let n = g.n();
    let q = |c: int, x: int| member_slots(g, cmap, cv, c, x);
    let cew = |cu: int| coarse_edge_weight(g, cmap, cv, cu);
    let by_rows = |c: int| sum_all(n, |x: int| q(c, x));
    assert forall|c: int| 0 <= c < hn implies #[trigger] cew(c) == by_rows(c) by {
        lemma_coarse_weight_bound(g, cmap, hn, cv, c);
        lemma_sum_all_ext(n, |x: int| member_slots(g, cmap, cv, c, x), |x: int| q(c, x));
    }
    lemma_sum_all_ext(hn, cew, by_rows);
    lemma_sum_swap(hn, n, q);
    let by_cols = |x: int| sum_all(hn, |c: int| q(c, x));
    let rows = |x: int| member_row(g, cmap, cv, x);
    assert forall|x: int| 0 <= x < n implies #[trigger] by_cols(x) == rows(x) by {
        assert(g.xadj[x] <= g.xadj[x + 1] <= g.xadj[n]);
        assert forall|j: int| g.lo(x) <= j < g.hi(x) implies (#[trigger] cmap[g.nbr(j)] as int) < hn by {
            assert((g.adjncy[j] as int) < n);
        }
        lemma_slot_weights_cover(g, cmap, g.lo(x), g.hi(x), hn);
        if cmap[x] as int == cv {
            lemma_sum_all_ext(hn, |c: int| q(c, x), |cu: int| slot_weight(g, cmap, cu, g.lo(x), g.hi(x)));
        } else {
            assert forall|c: int| 0 <= c < hn implies #[trigger] q(c, x) == 0 by {}
            lemma_sum_all_zero_below(hn, |c: int| q(c, x));
        }
    }
    lemma_sum_all_ext(n, by_cols, rows);
}

/// Summed over every coarse vertex, the rows of its members are all rows.
proof fn lemma_members_cover(g: GraphView, cmap: Seq<u32>, hn: int)
    requires
        g.sound(),
        cmap.len() == g.n(),
        forall|v: int| 0 <= v < g.n() ==> (#[trigger] cmap[v] as int) < hn,
    ensures
        sum_all(hn, |cv: int| sum_all(g.n(), |x: int| member_row(g, cmap, cv, x))) == edge_total(g),
{
    let n = g.n();
    let r = |cv: int, x: int| member_row(g, cmap, cv, x);
    lemma_sum_swap(hn, n, r);
    let by_rows = |cv: int| sum_all(n, |x: int| r(cv, x));
    let direct = |cv: int| sum_all(n, |x: int| member_row(g, cmap, cv, x));
    assert forall|cv: int| 0 <= cv < hn implies #[trigger] direct(cv) == by_rows(cv) by {
        lemma_sum_all_ext(n, |x: int| member_row(g, cmap, cv, x), |x: int| r(cv, x));
    }
    lemma_sum_all_ext(hn, direct, by_rows);
    let by_cols = |x: int| sum_all(hn, |cv: int| r(cv, x));
    let whole = |x: int| range_weight(g, g.lo(x), g.hi(x));
    assert forall|x: int| 0 <= x < n implies #[trigger] by_cols(x) == whole(x) by {
        let c0 = cmap[x] as int;
        lemma_sum_all_point(hn, c0, whole(x));
        lemma_sum_all_ext(hn, |cv: int| r(cv, x), |cv: int| if cv == c0 { whole(x) } else { 0 });
    }
    lemma_sum_all_ext(n, by_cols, whole);
    lemma_rows_total(g, n);
}

} // verus!
