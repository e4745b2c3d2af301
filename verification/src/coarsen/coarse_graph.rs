use vstd::prelude::*;

use crate::graph::csr::{parts_view, CsrGraph, GraphView};
use crate::graph::partition::CoarseMap;
use crate::graph::subgraph::{lemma_members_props, members_upto};
use crate::util::{sort_distinct, strictly_increasing};

verus! {

/// Sum of `f` over the sequence `s`.
pub open spec fn seq_sum(s: Seq<int>, f: spec_fn(int) -> int) -> int
    decreases s.len(),
{
    if s.len() == 0 {
        0
    } else {
        seq_sum(s.drop_last(), f) + f(s.last())
    }
}

/// Sum of `f(v)` over the vertices `v < i` whose coarse vertex is below `c`.
pub open spec fn sum_below(cmap: Seq<u32>, c: int, i: int, f: spec_fn(int) -> int) -> int
    decreases i,
{
    if i <= 0 {
        0
    } else {
        sum_below(cmap, c, i - 1, f) + if (cmap[i - 1] as int) < c {
            f(i - 1)
        } else {
            0
        }
    }
}

/// Sum of `f(v)` over all vertices `v < i`.
pub open spec fn sum_all(i: int, f: spec_fn(int) -> int) -> int
    decreases i,
{
    if i <= 0 {
        0
    } else {
        sum_all(i - 1, f) + f(i - 1)
    }
}

/// Grouping by coarse vertex: the vertices mapped below `c + 1` are those
/// mapped below `c` plus the members of `c`.
pub proof fn lemma_sum_regroup(cmap: Seq<u32>, c: int, i: int, f: spec_fn(int) -> int)
    requires
        0 <= i <= cmap.len(),
        0 <= c <= u32::MAX,
    ensures
        sum_below(cmap, c + 1, i, f) == sum_below(cmap, c, i, f) + seq_sum(
            members_upto(cmap, c as u32, i),
            f,
        ),
    decreases i,
{
    if i > 0 {
        lemma_sum_regroup(cmap, c, i - 1, f);
        if cmap[i - 1] as int == c {
            assert(members_upto(cmap, c as u32, i) == members_upto(cmap, c as u32, i - 1).push(i - 1));
            assert(members_upto(cmap, c as u32, i).drop_last() == members_upto(cmap, c as u32, i - 1));
        } else {
            assert(cmap[i - 1] != c as u32) by {
                if cmap[i - 1] == c as u32 {
                    assert(cmap[i - 1] as int == c);
                }
            }
        }
    }
}

/// Once every vertex maps below `c`, the grouped sum is the plain sum.
pub proof fn lemma_sum_below_all(cmap: Seq<u32>, c: int, i: int, f: spec_fn(int) -> int)
    requires
        0 <= i <= cmap.len(),
        forall|v: int| 0 <= v < i ==> (#[trigger] cmap[v] as int) < c,
    ensures
        sum_below(cmap, c, i, f) == sum_all(i, f),
    decreases i,
{
    if i > 0 {
        lemma_sum_below_all(cmap, c, i - 1, f);
    }
}

/// With non-negative `f`, the grouped sum never exceeds the plain sum.
pub proof fn lemma_sum_below_le(cmap: Seq<u32>, c: int, i: int, f: spec_fn(int) -> int)
    requires
        0 <= i <= cmap.len(),
        forall|v: int| 0 <= v < i ==> #[trigger] f(v) >= 0,
    ensures
        sum_below(cmap, c, i, f) <= sum_all(i, f),
        sum_below(cmap, c, i, f) >= 0,
    decreases i,
{
    if i > 0 {
        lemma_sum_below_le(cmap, c, i - 1, f);
    }
}

/// Degree of vertex `v`.
pub open spec fn degree(g: GraphView) -> spec_fn(int) -> int {
    |v: int| g.hi(v) - g.lo(v)
}

/// Weight of constraint `c` of vertex `v`.
pub open spec fn vweight(g: GraphView, c: int) -> spec_fn(int) -> int {
    |v: int| g.vw(v, c)
}

/// Degrees add up to the number of adjacency slots.
pub proof fn lemma_degree_sum(g: GraphView, i: int)
    requires
        g.topo().well_indexed(),
        0 <= i <= g.n(),
    ensures
        sum_all(i, degree(g)) == g.xadj[i] as int,
    decreases i,
{
    if i > 0 {
        lemma_degree_sum(g, i - 1);
    }
}

/// Weight of the slots `lo..r` whose neighbour maps to coarse vertex `cu`.
pub open spec fn slot_weight(g: GraphView, cmap: Seq<u32>, cu: int, lo: int, r: int) -> int
    decreases r - lo,
{
    if r <= lo {
        0
    } else {
        slot_weight(g, cmap, cu, lo, r - 1) + if cmap[g.nbr(r - 1)] as int == cu {
            g.ew(r - 1)
        } else {
            0
        }
    }
}

/// Some slot in `lo..r` names a neighbour mapped to coarse vertex `cu`.
pub open spec fn slot_hits(g: GraphView, cmap: Seq<u32>, cu: int, lo: int, r: int) -> bool {
    exists|j: int| lo <= j < r && #[trigger] cmap[g.nbr(j)] as int == cu
}

/// Weight of the edges from the first `x` fine vertices of `mem` into `cu`.
pub open spec fn group_weight(g: GraphView, cmap: Seq<u32>, cu: int, mem: Seq<int>, x: int) -> int
    decreases x,
{
    if x <= 0 {
        0
    } else {
        group_weight(g, cmap, cu, mem, x - 1) + slot_weight(g, cmap, cu, g.lo(mem[x - 1]), g.hi(mem[x - 1]))
    }
}

/// Some fine vertex among the first `x` of `mem` has a neighbour in `cu`.
pub open spec fn group_hits(g: GraphView, cmap: Seq<u32>, cu: int, mem: Seq<int>, x: int) -> bool {
    exists|y: int| 0 <= y < x && #[trigger] slot_hits(g, cmap, cu, g.lo(mem[y]), g.hi(mem[y]))
}

/// Slots that never reach `cu` carry no weight into it.
proof fn lemma_slot_no_hits(g: GraphView, cmap: Seq<u32>, cu: int, lo: int, r: int)
    requires
        !slot_hits(g, cmap, cu, lo, r),
    ensures
        slot_weight(g, cmap, cu, lo, r) == 0,
    decreases r - lo,
{
    if r > lo {
        assert(!slot_hits(g, cmap, cu, lo, r - 1)) by {
            if slot_hits(g, cmap, cu, lo, r - 1) {
                let j = choose|j: int| lo <= j < r - 1 && #[trigger] cmap[g.nbr(j)] as int == cu;
                assert(lo <= j < r);
            }
        }
        lemma_slot_no_hits(g, cmap, cu, lo, r - 1);
        if cmap[g.nbr(r - 1)] as int == cu {
            assert(lo <= r - 1 < r);
        }
    }
}

/// Fine vertices with no neighbour in `cu` carry no weight into it.
proof fn lemma_group_no_hits(g: GraphView, cmap: Seq<u32>, cu: int, mem: Seq<int>, x: int)
    requires
        !group_hits(g, cmap, cu, mem, x),
    ensures
        group_weight(g, cmap, cu, mem, x) == 0,
    decreases x,
{
    if x > 0 {
        assert(!group_hits(g, cmap, cu, mem, x - 1)) by {
            if group_hits(g, cmap, cu, mem, x - 1) {
                let y = choose|y: int| 0 <= y < x - 1 && #[trigger] slot_hits(g, cmap, cu, g.lo(mem[y]), g.hi(mem[y]));
                assert(0 <= y < x);
            }
        }
        lemma_group_no_hits(g, cmap, cu, mem, x - 1);
        assert(!slot_hits(g, cmap, cu, g.lo(mem[x - 1]), g.hi(mem[x - 1])));
        lemma_slot_no_hits(g, cmap, cu, g.lo(mem[x - 1]), g.hi(mem[x - 1]));
    }
}

/// Coarse vertex `cv` is adjacent to coarse vertex `cu`: some fine vertex of
/// `cv` has a neighbour in `cu`, and `cu` is another coarse vertex.
pub open spec fn coarse_adjacent(g: GraphView, cmap: Seq<u32>, cv: int, cu: int) -> bool {
    let mem = members_upto(cmap, cv as u32, g.n());
    cu != cv && group_hits(g, cmap, cu, mem, mem.len() as int)
}

/// Total weight of the fine edges from coarse vertex `cv` into `cu`.
pub open spec fn coarse_edge_weight(g: GraphView, cmap: Seq<u32>, cv: int, cu: int) -> int {
    let mem = members_upto(cmap, cv as u32, g.n());
    group_weight(g, cmap, cu, mem, mem.len() as int)
}

/// Total weight of constraint `c` over the fine vertices of `cv`.
pub open spec fn coarse_vertex_weight(g: GraphView, cmap: Seq<u32>, cv: int, c: int) -> int {
    seq_sum(members_upto(cmap, cv as u32, g.n()), vweight(g, c))
}

/// Counting sort of the fine vertices by coarse vertex: `order[start[c]..start[c + 1]]`
/// lists the fine vertices of `c` in increasing order.
#[verifier::rlimit(40)]
pub(crate) fn bucket_by_target(cmap: &[u32], cn: usize) -> (r: (Vec<usize>, Vec<usize>))
    requires
        forall|v: int| 0 <= v < cmap@.len() ==> (#[trigger] cmap@[v] as int) < cn,
        cn <= 0x1_0000_0000,
    ensures
        ({
            let (start, order) = r;
            &&& start@.len() == cn + 1
            &&& start@[0] == 0
            &&& start@[cn as int] == cmap@.len()
            &&& order@.len() == cmap@.len()
            &&& forall|c: int| 0 <= c < cn ==> #[trigger] start@[c] <= start@[c + 1]
            &&& forall|c: int|
                0 <= c < cn ==> #[trigger] start@[c + 1] - start@[c] == members_upto(cmap@, c as u32, cmap@.len() as int).len()
            &&& forall|c: int, x: int|
                0 <= c < cn && 0 <= x < start@[c + 1] - start@[c] ==> #[trigger] order@[start@[c] + x] as int
                    == members_upto(cmap@, c as u32, cmap@.len() as int)[x]
        }),
{
    let n = cmap.len();
    let ghost a = cmap@;
    let mut count: Vec<usize> = vec![0usize; cn];
    let mut v: usize = 0;
    while v < n
        invariant
            cn <= 0x1_0000_0000,
            a == cmap@,
            n == a.len(),
            forall|w: int| 0 <= w < n ==> (#[trigger] a[w] as int) < cn,
            0 <= v <= n,
            count@.len() == cn,
            forall|c: int| 0 <= c < cn ==> #[trigger] count@[c] as int == members_upto(a, c as u32, v as int).len(),
        decreases n - v,
    {
        let c = cmap[v] as usize;
        proof {
            lemma_members_props(a, c as u32, v as int);
        }
        count.set(c, count[c] + 1);
        proof {
            assert forall|cc: int| 0 <= cc < cn implies #[trigger] count@[cc] as int == members_upto(a, cc as u32, v + 1).len() by {
                if cc == c as int {
                    assert(a[v as int] == cc as u32);
                } else {
                    assert(a[v as int] != cc as u32);
                }
            }
        }
        v += 1;
    }
    // prefix sums
    let mut start: Vec<usize> = Vec::new();
    start.push(0);
    let mut c: usize = 0;
    proof {
        lemma_count_sum_props(a, 0, n as int);
    }
    while c < cn
        invariant
            cn <= 0x1_0000_0000,
            a == cmap@,
            n == a.len(),
            forall|w: int| 0 <= w < n ==> (#[trigger] a[w] as int) < cn,
            count@.len() == cn,
            forall|cc: int| 0 <= cc < cn ==> #[trigger] count@[cc] as int == members_upto(a, cc as u32, n as int).len(),
            0 <= c <= cn,
            start@.len() == c + 1,
            start@[0] == 0,
            forall|cc: int| 0 <= cc <= c ==> #[trigger] start@[cc] as int == count_below(a, cc, n as int),
            forall|cc: int| 0 <= cc < c ==> #[trigger] start@[cc] <= start@[cc + 1],
        decreases cn - c,
    {
        proof {
            lemma_count_sum_props(a, c as int, n as int);
            lemma_count_below_le(a, c + 1, n as int);
        }
        let next = start[c] + count[c];
        start.push(next);
        c += 1;
    }
    proof {
        lemma_count_below_all(a, cn as int, n as int);
    }
    // placement
    let mut pos: Vec<usize> = Vec::new();
    let mut c: usize = 0;
    while c < cn
        invariant
            0 <= c <= cn,
            start@.len() == cn + 1,
            pos@.len() == c,
            forall|cc: int| 0 <= cc < c ==> #[trigger] pos@[cc] == start@[cc],
        decreases cn - c,
    {
        pos.push(start[c]);
        c += 1;
    }
    let mut order: Vec<usize> = vec![0usize; n];
    let mut v: usize = 0;
    while v < n
        invariant
            cn <= 0x1_0000_0000,
            a == cmap@,
            n == a.len(),
            forall|w: int| 0 <= w < n ==> (#[trigger] a[w] as int) < cn,
            start@.len() == cn + 1,
            start@[cn as int] == n,
            start@[0] == 0,
            forall|cc: int| 0 <= cc < cn ==> #[trigger] start@[cc] <= start@[cc + 1],
            forall|cc: int| 0 <= cc < cn ==> #[trigger] start@[cc + 1] - start@[cc] == members_upto(a, cc as u32, n as int).len(),
            pos@.len() == cn,
            order@.len() == n,
            0 <= v <= n,
            forall|cc: int| 0 <= cc < cn ==> #[trigger] pos@[cc] == start@[cc] + members_upto(a, cc as u32, v as int).len(),
            forall|cc: int, x: int|
                0 <= cc < cn && 0 <= x < members_upto(a, cc as u32, v as int).len() ==> #[trigger] order@[start@[cc] + x] as int
                    == members_upto(a, cc as u32, v as int)[x],
        decreases n - v,
    {
        let c = cmap[v] as usize;
        proof {
            lemma_members_prefix(a, c as u32, v + 1, n as int);
            lemma_start_bound(start@, cn as int, c as int);
        }
        let p = pos[c];
        let ghost pos0 = pos@;
        let ghost order0 = order@;
        order.set(p, v);
        pos.set(c, p + 1);
        proof {
            lemma_place_step(a, cn as int, n as int, start@, pos0, order0, v as int, c as int, pos@, order@);
        }
        v += 1;
    }
    (start, order)
}

proof fn lemma_place_step(
    a: Seq<u32>,
    cn: int,
    n: int,
    start: Seq<usize>,
    pos0: Seq<usize>,
    order0: Seq<usize>,
    v: int,
    c: int,
    pos1: Seq<usize>,
    order1: Seq<usize>,
)
    requires
        n <= usize::MAX,
        cn <= 0x1_0000_0000,
        n == a.len(),
        0 <= v < n,
        c == a[v] as int,
        forall|w: int| 0 <= w < n ==> (#[trigger] a[w] as int) < cn,
        start.len() == cn + 1,
        forall|cc: int| 0 <= cc < cn ==> #[trigger] start[cc] <= start[cc + 1],
        forall|cc: int| 0 <= cc < cn ==> #[trigger] start[cc + 1] - start[cc] == members_upto(a, cc as u32, n).len(),
        pos0.len() == cn,
        order0.len() == n,
        forall|cc: int| 0 <= cc < cn ==> #[trigger] pos0[cc] == start[cc] + members_upto(a, cc as u32, v).len(),
        forall|cc: int, x: int|
            0 <= cc < cn && 0 <= x < members_upto(a, cc as u32, v).len() ==> #[trigger] order0[start[cc] + x] as int
                == members_upto(a, cc as u32, v)[x],
        start[cn] == n,
        pos0[c] < n,
        pos1 == pos0.update(c, (pos0[c] + 1) as usize),
        order1 == order0.update(pos0[c] as int, v as usize),
    ensures
        forall|cc: int| 0 <= cc < cn ==> #[trigger] pos1[cc] == start[cc] + members_upto(a, cc as u32, v + 1).len(),
        forall|cc: int, x: int|
            0 <= cc < cn && 0 <= x < members_upto(a, cc as u32, v + 1).len() ==> #[trigger] order1[start[cc] + x] as int
                == members_upto(a, cc as u32, v + 1)[x],
{
    let p = pos0[c];
    lemma_members_prefix(a, c as u32, v + 1, n);
    assert(a[v] == c as u32);
    assert(members_upto(a, c as u32, v + 1) == members_upto(a, c as u32, v).push(v));
    assert(p < start[c + 1]);
    assert forall|cc: int| 0 <= cc < cn implies #[trigger] pos1[cc] == start[cc] + members_upto(a, cc as u32, v + 1).len() by {
        if cc != c {
            assert(a[v] != cc as u32);
        }
    }
    assert forall|cc: int, x: int|
        0 <= cc < cn && 0 <= x < members_upto(a, cc as u32, v + 1).len() implies #[trigger] order1[start[cc] + x] as int
            == members_upto(a, cc as u32, v + 1)[x] by {
        lemma_start_bound(start, cn, cc);
        lemma_start_bound(start, cn, c);
        if cc != c {
            lemma_start_disjoint(start, cn, c, cc);
        }
        assert(start[cc] <= start[cc + 1]);
        lemma_place_entry(a, n, start, pos0, order0, v, c, order1, cc, x);
    }
}

proof fn lemma_place_entry(
    a: Seq<u32>,
    n: int,
    start: Seq<usize>,
    pos0: Seq<usize>,
    order0: Seq<usize>,
    v: int,
    c: int,
    order1: Seq<usize>,
    cc: int,
    x: int,
)
    requires
        n == a.len(),
        n <= usize::MAX,
        0 <= v < n,
        c == a[v] as int,
        0 <= c <= u32::MAX,
        0 <= cc <= u32::MAX,
        order0.len() == n,
        pos0[c] == start[c] + members_upto(a, c as u32, v).len(),
        pos0[c] < start[c + 1],
        start[c + 1] <= n,
        start[cc] <= start[cc + 1] <= n,
        start[cc + 1] - start[cc] == members_upto(a, cc as u32, n).len(),
        c < cc ==> start[c + 1] <= start[cc],
        cc < c ==> start[cc + 1] <= start[c],
        start[c] <= pos0[c],
        x < members_upto(a, cc as u32, v).len() ==> order0[start[cc] + x] as int == members_upto(a, cc as u32, v)[x],
        order1 == order0.update(pos0[c] as int, v as usize),
        0 <= x < members_upto(a, cc as u32, v + 1).len(),
    ensures
        order1[start[cc] + x] as int == members_upto(a, cc as u32, v + 1)[x],
{
    lemma_members_prefix(a, cc as u32, v + 1, n);
    assert(start[cc] + x < n);
    if cc == c {
        assert(a[v] == cc as u32);
        assert(members_upto(a, cc as u32, v + 1) == members_upto(a, cc as u32, v).push(v));
        if x < members_upto(a, cc as u32, v).len() {
            assert(start[cc] + x != pos0[c]);
            assert(order1[start[cc] + x] == order0[start[cc] + x]);
            assert(members_upto(a, cc as u32, v + 1)[x] == members_upto(a, cc as u32, v)[x]);
        } else {
            assert(x == members_upto(a, cc as u32, v).len());
            assert(start[cc] + x == pos0[c]);
            assert(order1[start[cc] + x] == v as usize);
            assert(members_upto(a, cc as u32, v + 1)[x] == v);
        }
    } else {
        assert(a[v] != cc as u32);
        assert(members_upto(a, cc as u32, v + 1) == members_upto(a, cc as u32, v));
        assert(start[cc] + x < start[cc + 1]);
        assert(start[cc] + x != pos0[c]);
        assert(order1[start[cc] + x] == order0[start[cc] + x]);
        assert(x < members_upto(a, cc as u32, v).len());
        assert(order0[start[cc] + x] as int == members_upto(a, cc as u32, v)[x]);
    }
}

/// Number of fine vertices mapped below coarse vertex `c` among the first `i`.
pub open spec fn count_below(a: Seq<u32>, c: int, i: int) -> int
    decreases c,
{
    if c <= 0 {
        0
    } else {
        count_below(a, c - 1, i) + members_upto(a, (c - 1) as u32, i).len()
    }
}

proof fn lemma_count_sum_props(a: Seq<u32>, c: int, i: int)
    requires
        0 <= c < 0x1_0000_0000,
        0 <= i <= a.len(),
    ensures
        count_below(a, c + 1, i) == count_below(a, c, i) + members_upto(a, c as u32, i).len(),
{
}

proof fn lemma_count_below_le(a: Seq<u32>, c: int, i: int)
    requires
        0 <= c <= 0x1_0000_0000,
        0 <= i <= a.len(),
    ensures
        0 <= count_below(a, c, i) <= i,
    decreases i,
{
    if i > 0 {
        lemma_count_below_le(a, c, i - 1);
        lemma_count_below_step(a, c, i - 1);
    } else {
        lemma_count_zero(a, c);
    }
}

proof fn lemma_count_below_step(a: Seq<u32>, c: int, i: int)
    requires
        0 <= c <= 0x1_0000_0000,
        0 <= i < a.len(),
    ensures
        count_below(a, c, i + 1) == count_below(a, c, i) + if (a[i] as int) < c {
            1int
        } else {
            0int
        },
    decreases c,
{
    if c > 0 {
        lemma_count_below_step(a, c - 1, i);
        if a[i] == (c - 1) as u32 {
            assert(members_upto(a, (c - 1) as u32, i + 1) == members_upto(a, (c - 1) as u32, i).push(i));
        } else {
            assert(members_upto(a, (c - 1) as u32, i + 1) == members_upto(a, (c - 1) as u32, i));
        }
    } else {
        assert(count_below(a, c, i + 1) == 0);
    }
}

proof fn lemma_count_below_all(a: Seq<u32>, c: int, i: int)
    requires
        0 <= c <= 0x1_0000_0000,
        0 <= i <= a.len(),
        forall|w: int| 0 <= w < a.len() ==> (#[trigger] a[w] as int) < c,
    ensures
        count_below(a, c, i) == i,
    decreases i,
{
    if i > 0 {
        lemma_count_below_all(a, c, i - 1);
        lemma_count_below_step(a, c, i - 1);
    } else {
        lemma_count_zero(a, c);
    }
}

proof fn lemma_count_zero(a: Seq<u32>, c: int)
    requires
        0 <= c <= 0x1_0000_0000,
    ensures
        count_below(a, c, 0) == 0,
    decreases c,
{
    if c > 0 {
        lemma_count_zero(a, c - 1);
    }
}

/// A prefix of the member list is the member list of a prefix.
pub proof fn lemma_members_prefix(a: Seq<u32>, c: u32, i: int, n: int)
    requires
        0 <= i <= n <= a.len(),
    ensures
        members_upto(a, c, i).len() <= members_upto(a, c, n).len(),
        forall|x: int| 0 <= x < members_upto(a, c, i).len() ==> #[trigger] members_upto(a, c, n)[x] == members_upto(a, c, i)[x],
    decreases n - i,
{
    if i < n {
        lemma_members_prefix(a, c, i, n - 1);
    }
}

pub(crate) proof fn lemma_start_bound_pub(start: Seq<usize>, cn: int, c: int)
    requires
        start.len() == cn + 1,
        forall|cc: int| 0 <= cc < cn ==> #[trigger] start[cc] <= start[cc + 1],
        0 <= c < cn,
    ensures
        start[c + 1] <= start[cn],
{
    lemma_start_bound(start, cn, c);
}

proof fn lemma_start_bound(start: Seq<usize>, cn: int, c: int)
    requires
        start.len() == cn + 1,
        forall|cc: int| 0 <= cc < cn ==> #[trigger] start[cc] <= start[cc + 1],
        0 <= c < cn,
    ensures
        start[c + 1] <= start[cn],
    decreases cn - c,
{
    if c + 1 < cn {
        lemma_start_bound(start, cn, c + 1);
    }
}

proof fn lemma_start_disjoint(start: Seq<usize>, cn: int, c: int, d: int)
    requires
        start.len() == cn + 1,
        forall|cc: int| 0 <= cc < cn ==> #[trigger] start[cc] <= start[cc + 1],
        0 <= c < cn,
        0 <= d < cn,
        c != d,
    ensures
        c < d ==> start[c + 1] <= start[d],
        d < c ==> start[d + 1] <= start[c],
    decreases cn - c,
{
    if c < d {
        lemma_start_mono(start, cn, c + 1, d);
    } else {
        lemma_start_mono(start, cn, d + 1, c);
    }
}

proof fn lemma_start_mono(start: Seq<usize>, cn: int, x: int, y: int)
    requires
        start.len() == cn + 1,
        forall|cc: int| 0 <= cc < cn ==> #[trigger] start[cc] <= start[cc + 1],
        0 <= x <= y <= cn,
    ensures
        start[x] <= start[y],
    decreases y - x,
{
    if x < y {
        lemma_start_mono(start, cn, x, y - 1);
    }
}

/// The vertex ids of a slice as mathematical integers.
pub open spec fn as_ints(s: Seq<usize>) -> Seq<int> {
    s.map_values(|x: usize| x as int)
}

proof fn lemma_seq_sum_take(s: Seq<int>, f: spec_fn(int) -> int, x: int)
    requires
        0 <= x < s.len(),
    ensures
        seq_sum(s.take(x + 1), f) == seq_sum(s.take(x), f) + f(s[x]),
{
    assert(s.take(x + 1).drop_last() =~= s.take(x));
}

proof fn lemma_seq_sum_nonneg(s: Seq<int>, f: spec_fn(int) -> int, x: int)
    requires
        0 <= x <= s.len(),
        forall|y: int| 0 <= y < s.len() ==> #[trigger] f(s[y]) >= 0,
    ensures
        0 <= seq_sum(s.take(x), f) <= seq_sum(s, f),
    decreases s.len() - x,
{
    if x < s.len() {
        lemma_seq_sum_nonneg(s, f, x + 1);
        lemma_seq_sum_take(s, f, x);
    } else {
        assert(s.take(x) =~= s);
    }
    if x == 0 {
        assert(s.take(0) =~= Seq::<int>::empty());
    } else {
        lemma_seq_sum_nonneg_prefix(s, f, x);
    }
}

proof fn lemma_seq_sum_nonneg_prefix(s: Seq<int>, f: spec_fn(int) -> int, x: int)
    requires
        0 <= x <= s.len(),
        forall|y: int| 0 <= y < s.len() ==> #[trigger] f(s[y]) >= 0,
    ensures
        0 <= seq_sum(s.take(x), f),
    decreases x,
{
    if x > 0 {
        lemma_seq_sum_nonneg_prefix(s, f, x - 1);
        lemma_seq_sum_take(s, f, x - 1);
    } else {
        assert(s.take(0) =~= Seq::<int>::empty());
    }
}

/// Sum of constraint `c` of the vertex weights over `members`.
fn weight_sum(g: &CsrGraph, members: &[usize], c: usize) -> (s: i64)
    requires
        g@.sound(),
        c < g@.ncon,
        members@.len() <= g@.n(),
        forall|x: int| 0 <= x < members@.len() ==> (#[trigger] members@[x] as int) < g@.n(),
    ensures
        s as int == seq_sum(as_ints(members@), vweight(g@, c as int)),
{
    let ghost gv = g@;
    let ghost mi = as_ints(members@);
    let ncon = g.ncon() as usize;
    let vw = g.vwgt();
    let vlen = vw.len();
    let mut s: i64 = 0;
    let mut x: usize = 0;
    while x < members.len()
        invariant
            gv == g@,
            gv.sound(),
            c < ncon,
            ncon == gv.ncon,
            vw@ == gv.vwgt,
            vlen == vw@.len(),
            mi == as_ints(members@),
            members@.len() <= gv.n(),
            forall|y: int| 0 <= y < members@.len() ==> (#[trigger] members@[y] as int) < gv.n(),
            0 <= x <= members@.len(),
            s as int == seq_sum(mi.take(x as int), vweight(gv, c as int)),
            -0x8000_0000 * (x as int) <= s <= 0x8000_0000 * (x as int),
        decreases members@.len() - x,
    {
        let v = members[x];
        proof {
            assert((v as int) * ncon + c < gv.n() * ncon) by (nonlinear_arith)
                requires
                    (v as int) < gv.n(),
                    c < ncon,
            ;
            lemma_seq_sum_take(mi, vweight(gv, c as int), x as int);
            assert(vlen == gv.n() * ncon);
        }
        let w = vw[v * ncon + c] as i64;
        s = s + w;
        x += 1;
    }
    proof {
        assert(mi.take(members@.len() as int) =~= mi);
    }
    s
}

/// Accumulate, for the fine vertices `members` of coarse vertex `cv`, the
/// total edge weight into every other coarse vertex. Coarse vertices reached
/// are stamped in `mark`, their totals stored in `acc`, and returned once each.
fn accumulate_row(
    g: &CsrGraph,
    cmap: &[u32],
    members: &[usize],
    cv: u32,
    stamp: u64,
    mark: &mut Vec<u64>,
    acc: &mut Vec<i64>,
) -> (touched: Vec<u32>)
    requires
        g@.sound(),
        cmap@.len() == g@.n(),
        old(mark)@.len() == old(acc)@.len(),
        forall|v: int| 0 <= v < cmap@.len() ==> (#[trigger] cmap@[v] as int) < old(mark)@.len(),
        forall|x: int| 0 <= x < members@.len() ==> (#[trigger] members@[x] as int) < g@.n(),
        seq_sum(as_ints(members@), degree(g@)) <= g@.m(),
        forall|cu: int| 0 <= cu < old(mark)@.len() ==> #[trigger] old(mark)@[cu] < stamp,
    ensures
        final(mark)@.len() == old(mark)@.len(),
        final(acc)@.len() == old(acc)@.len(),
        forall|cu: int|
            0 <= cu < final(mark)@.len() ==> (#[trigger] final(mark)@[cu] == stamp <==> (cu != cv as int
                && group_hits(g@, cmap@, cu, as_ints(members@), members@.len() as int))),
        forall|cu: int|
            0 <= cu < final(mark)@.len() && final(mark)@[cu] != stamp ==> #[trigger] final(mark)@[cu]
                == old(mark)@[cu],
        forall|cu: int|
            0 <= cu < final(mark)@.len() && #[trigger] final(mark)@[cu] == stamp ==> final(acc)@[cu] as int
                == group_weight(g@, cmap@, cu, as_ints(members@), members@.len() as int),
        touched@.no_duplicates(),
        forall|t: int| 0 <= t < touched@.len() ==> (#[trigger] touched@[t] as int) < final(mark)@.len() && final(mark)@[touched@[t] as int] == stamp,
        forall|cu: int| 0 <= cu < final(mark)@.len() && #[trigger] final(mark)@[cu] == stamp ==> touched@.contains(cu as u32),
        touched@.len() <= seq_sum(as_ints(members@), degree(g@)),
{
    let ghost gv = g@;
    let ghost mi = as_ints(members@);
    let ghost total = seq_sum(mi, degree(gv));
    let cn = mark.len();
    let xadj = g.xadj();
    let adjncy = g.adjncy();
    let mut touched: Vec<u32> = Vec::new();
    proof {
        assert forall|y: int| 0 <= y < mi.len() implies #[trigger] degree(gv)(mi[y]) >= 0 by {
            assert(gv.xadj[mi[y]] <= gv.xadj[mi[y] + 1]);
        }
        lemma_seq_sum_nonneg(mi, degree(gv), 0);
        assert(mi.take(0) =~= Seq::<int>::empty());
    }
    let mut x: usize = 0;
    while x < members.len()
        invariant
            gv == g@,
            gv.sound(),
            xadj@ == gv.xadj,
            adjncy@ == gv.adjncy,
            cmap@.len() == gv.n(),
            mi == as_ints(members@),
            total == seq_sum(mi, degree(gv)),
            total <= gv.m(),
            cn == mark@.len(),
            acc@.len() == cn,
            forall|v: int| 0 <= v < cmap@.len() ==> (#[trigger] cmap@[v] as int) < cn,
            forall|y: int| 0 <= y < members@.len() ==> (#[trigger] members@[y] as int) < gv.n(),
            forall|y: int| 0 <= y < mi.len() ==> #[trigger] degree(gv)(mi[y]) >= 0,
            0 <= x <= members@.len(),
            seq_sum(mi.take(x as int), degree(gv)) <= total,
            forall|cu: int|
                0 <= cu < cn ==> (#[trigger] mark@[cu] == stamp <==> (cu != cv as int && group_hits(
                    gv,
                    cmap@,
                    cu,
                    mi,
                    x as int,
                ))),
            forall|cu: int| 0 <= cu < cn && mark@[cu] != stamp ==> #[trigger] mark@[cu] == old(mark)@[cu],
            forall|cu: int| 0 <= cu < cn ==> #[trigger] old(mark)@[cu] < stamp,
            forall|cu: int|
                0 <= cu < cn && #[trigger] mark@[cu] == stamp ==> acc@[cu] as int == group_weight(
                    gv,
                    cmap@,
                    cu,
                    mi,
                    x as int,
                ) && -0x8000_0000 * seq_sum(mi.take(x as int), degree(gv)) <= acc@[cu]
                    <= 0x8000_0000 * seq_sum(mi.take(x as int), degree(gv)),
            touched@.no_duplicates(),
            forall|t: int| 0 <= t < touched@.len() ==> (#[trigger] touched@[t] as int) < cn && mark@[touched@[t] as int] == stamp,
            forall|cu: int| 0 <= cu < cn && #[trigger] mark@[cu] == stamp ==> touched@.contains(cu as u32),
            touched@.len() <= seq_sum(mi.take(x as int), degree(gv)),
        decreases members@.len() - x,
    {
        let v = members[x];
        let lo = xadj[v] as usize;
        let hi = xadj[v + 1] as usize;
        proof {
            assert(gv.xadj[v as int] <= gv.xadj[v as int + 1]);
            assert(gv.xadj[v as int + 1] <= gv.xadj[gv.n()]);
            lemma_seq_sum_take(mi, degree(gv), x as int);
            lemma_seq_sum_nonneg(mi, degree(gv), x + 1);
            assert(mi[x as int] == v as int);
        }
        let ghost base = seq_sum(mi.take(x as int), degree(gv));
        let mut j = lo;
        while j < hi
            invariant
                gv == g@,
                gv.sound(),
                xadj@ == gv.xadj,
                adjncy@ == gv.adjncy,
                cmap@.len() == gv.n(),
                mi == as_ints(members@),
                cn == mark@.len(),
                acc@.len() == cn,
                forall|w: int| 0 <= w < cmap@.len() ==> (#[trigger] cmap@[w] as int) < cn,
                0 <= x < members@.len(),
                mi[x as int] == v as int,
                (v as int) < gv.n(),
                lo == gv.lo(v as int),
                hi == gv.hi(v as int),
                hi <= gv.m(),
                lo <= j <= hi,
                base == seq_sum(mi.take(x as int), degree(gv)),
                base + (hi - lo) <= total,
                total <= gv.m(),
                base >= 0,
                forall|cu: int|
                    0 <= cu < cn ==> (#[trigger] mark@[cu] == stamp <==> (cu != cv as int && (group_hits(
                        gv,
                        cmap@,
                        cu,
                        mi,
                        x as int,
                    ) || slot_hits(gv, cmap@, cu, lo as int, j as int)))),
                forall|cu: int| 0 <= cu < cn && mark@[cu] != stamp ==> #[trigger] mark@[cu] == old(mark)@[cu],
                forall|cu: int| 0 <= cu < cn ==> #[trigger] old(mark)@[cu] < stamp,
                forall|cu: int|
                    0 <= cu < cn && #[trigger] mark@[cu] == stamp ==> acc@[cu] as int == group_weight(
                        gv,
                        cmap@,
                        cu,
                        mi,
                        x as int,
                    ) + slot_weight(gv, cmap@, cu, lo as int, j as int) && -0x8000_0000 * (base + (j - lo))
                        <= acc@[cu] <= 0x8000_0000 * (base + (j - lo)),
                forall|cu: int|
                    0 <= cu < cn && mark@[cu] != stamp && cu != cv as int ==> slot_weight(gv, cmap@, cu, lo as int, j as int) == 0
                        && !#[trigger] slot_hits(gv, cmap@, cu, lo as int, j as int),
                touched@.no_duplicates(),
                forall|t: int| 0 <= t < touched@.len() ==> (#[trigger] touched@[t] as int) < cn && mark@[touched@[t] as int] == stamp,
                forall|cu: int| 0 <= cu < cn && #[trigger] mark@[cu] == stamp ==> touched@.contains(cu as u32),
                touched@.len() <= base + (j - lo),
            decreases hi - j,
        {
            let u = adjncy[j] as usize;
            proof {
                assert((gv.adjncy[j as int] as int) < gv.n());
            }
            let cu = cmap[u];
            let w = g.edge_weight(j) as i64;
            let ghost touched0 = touched@;
            let ghost mark0 = mark@;
            if cu != cv {
                let cui = cu as usize;
                if mark[cui] != stamp {
                    proof {
                        assert(!touched@.contains(cu)) by {
                            if touched@.contains(cu) {
                                let t = choose|t: int| 0 <= t < touched@.len() && #[trigger] touched@[t] == cu;
                                assert(mark@[touched@[t] as int] == stamp);
                            }
                        }
                    }
                    mark.set(cui, stamp);
                    acc.set(cui, 0);
                    touched.push(cu);
                }
                acc.set(cui, acc[cui] + w);
            }
            proof {
                assert forall|cu2: int| 0 <= cu2 < cn implies (#[trigger] mark@[cu2] == stamp <==> (cu2 != cv as int && (group_hits(
                    gv,
                    cmap@,
                    cu2,
                    mi,
                    x as int,
                ) || slot_hits(gv, cmap@, cu2, lo as int, j + 1)))) by {
                    if slot_hits(gv, cmap@, cu2, lo as int, j + 1) && !slot_hits(gv, cmap@, cu2, lo as int, j as int) {
                        let jj = choose|jj: int| lo <= jj < j + 1 && #[trigger] cmap@[gv.nbr(jj)] as int == cu2;
                        assert(jj == j);
                    }
                    if slot_hits(gv, cmap@, cu2, lo as int, j as int) {
                        let jj = choose|jj: int| lo <= jj < j && #[trigger] cmap@[gv.nbr(jj)] as int == cu2;
                        assert(lo <= jj < j + 1);
                    }
                    if cu2 == cu as int && cu != cv {
                        assert(cmap@[gv.nbr(j as int)] as int == cu2);
                    }
                }
                assert forall|t: int| 0 <= t < touched@.len() implies (#[trigger] touched@[t] as int) < cn && mark@[touched@[t] as int] == stamp by {
                }
                assert forall|cu2: int|
                    0 <= cu2 < cn && #[trigger] mark@[cu2] == stamp implies acc@[cu2] as int == group_weight(
                        gv,
                        cmap@,
                        cu2,
                        mi,
                        x as int,
                    ) + slot_weight(gv, cmap@, cu2, lo as int, j + 1) && -0x8000_0000 * (base + (j + 1 - lo))
                        <= acc@[cu2] <= 0x8000_0000 * (base + (j + 1 - lo)) by {
                    if cu2 == cu as int && mark0[cu2] != stamp {
                        lemma_group_no_hits(gv, cmap@, cu2, mi, x as int);
                    }
                }
                assert forall|cu2: int| 0 <= cu2 < cn && #[trigger] mark@[cu2] == stamp implies touched@.contains(cu2 as u32) by {
                    if cu2 == cu as int && touched@.len() > touched0.len() {
                        assert(touched@[touched@.len() - 1] == cu);
                    } else {
                        assert(mark0[cu2] == stamp);
                        assert(touched0.contains(cu2 as u32));
                        let t = choose|t: int| 0 <= t < touched0.len() && #[trigger] touched0[t] == cu2 as u32;
                        assert(touched@[t] == touched0[t]);
                    }
                }
            }
            j += 1;
        }
        proof {
            assert forall|cu: int|
                0 <= cu < cn implies (#[trigger] mark@[cu] == stamp <==> (cu != cv as int && group_hits(
                gv,
                cmap@,
                cu,
                mi,
                x + 1,
            ))) by {
                if group_hits(gv, cmap@, cu, mi, x + 1) && !group_hits(gv, cmap@, cu, mi, x as int) {
                    let y = choose|y: int| 0 <= y < x + 1 && #[trigger] slot_hits(gv, cmap@, cu, gv.lo(mi[y]), gv.hi(mi[y]));
                    assert(y == x);
                }
                if group_hits(gv, cmap@, cu, mi, x as int) {
                    let y = choose|y: int| 0 <= y < x && #[trigger] slot_hits(gv, cmap@, cu, gv.lo(mi[y]), gv.hi(mi[y]));
                    assert(0 <= y < x + 1);
                }
                if slot_hits(gv, cmap@, cu, lo as int, hi as int) {
                    assert(slot_hits(gv, cmap@, cu, gv.lo(mi[x as int]), gv.hi(mi[x as int])));
                }
            }
        }
        x += 1;
    }
    proof {
        assert(mi.take(members@.len() as int) =~= mi);
    }
    touched
}

/// Weight `c` of vertex `v` in a flat weight array with `ncon` weights per vertex.
pub open spec fn weight_at(w: Seq<i32>, ncon: int, v: int, c: int) -> int {
    w[v * ncon + c] as int
}

/// Row `cv` of a coarse adjacency structure lists, in increasing order,
/// exactly the coarse vertices adjacent to `cv`.
pub open spec fn coarse_row_links(
    g: GraphView,
    cmap: Seq<u32>,
    cn: int,
    xadj: Seq<u32>,
    adjncy: Seq<u32>,
    cv: int,
) -> bool {
    let row = adjncy.subrange(xadj[cv] as int, xadj[cv + 1] as int);
    &&& strictly_increasing(row)
    &&& forall|t: int|
        0 <= t < row.len() ==> (#[trigger] row[t] as int) < cn && coarse_adjacent(g, cmap, cv, row[t] as int)
    &&& forall|cu: int| 0 <= cu < cn && #[trigger] coarse_adjacent(g, cmap, cv, cu) ==> row.contains(cu as u32)
}

/// Every slot of row `cv` carries the total weight of the fine edges it
/// stands for, truncated to `i32`.
pub open spec fn coarse_row_weights(
    g: GraphView,
    cmap: Seq<u32>,
    xadj: Seq<u32>,
    adjncy: Seq<u32>,
    wts: Seq<i32>,
    cv: int,
) -> bool {
    forall|j: int|
        xadj[cv] <= j < xadj[cv + 1] ==> #[trigger] wts[j] == coarse_edge_weight(g, cmap, cv, adjncy[j] as int) as i32
}

/// Append, for each constraint, the total weight of the fine vertices `members`.
fn append_vertex_weights(g: &CsrGraph, members: &[usize], cvwgt: &mut Vec<i32>)
    requires
        g@.sound(),
        members@.len() <= g@.n(),
        forall|x: int| 0 <= x < members@.len() ==> (#[trigger] members@[x] as int) < g@.n(),
    ensures
        final(cvwgt)@.len() == old(cvwgt)@.len() + g@.ncon,
        forall|i: int| 0 <= i < old(cvwgt)@.len() ==> #[trigger] final(cvwgt)@[i] == old(cvwgt)@[i],
        forall|c: int|
            0 <= c < g@.ncon ==> #[trigger] final(cvwgt)@[old(cvwgt)@.len() + c] == seq_sum(
                as_ints(members@),
                vweight(g@, c),
            ) as i32,
{
    let ncon = g.ncon() as usize;
    let ghost base = cvwgt@;
    let mut c: usize = 0;
    while c < ncon
        invariant
            g@.sound(),
            ncon == g@.ncon,
            members@.len() <= g@.n(),
            forall|x: int| 0 <= x < members@.len() ==> (#[trigger] members@[x] as int) < g@.n(),
            0 <= c <= ncon,
            cvwgt@.len() == base.len() + c,
            forall|i: int| 0 <= i < base.len() ==> #[trigger] cvwgt@[i] == base[i],
            forall|cc: int|
                0 <= cc < c ==> #[trigger] cvwgt@[base.len() + cc] == seq_sum(
                    as_ints(members@),
                    vweight(g@, cc),
                ) as i32,
        decreases ncon - c,
    {
        let s = weight_sum(g, members, c);
        cvwgt.push(s as i32);
        c += 1;
    }
}

/// Append the coarse neighbours `sorted` and their accumulated weights.
fn append_row(sorted: &[u32], acc: &[i64], adjncy: &mut Vec<u32>, adjwgt: &mut Vec<i32>)
    requires
        old(adjncy)@.len() == old(adjwgt)@.len(),
        forall|t: int| 0 <= t < sorted@.len() ==> (#[trigger] sorted@[t] as int) < acc@.len(),
    ensures
        final(adjncy)@ == old(adjncy)@ + sorted@,
        final(adjwgt)@.len() == final(adjncy)@.len(),
        forall|i: int| 0 <= i < old(adjwgt)@.len() ==> #[trigger] final(adjwgt)@[i] == old(adjwgt)@[i],
        forall|t: int|
            0 <= t < sorted@.len() ==> #[trigger] final(adjwgt)@[old(adjwgt)@.len() + t] == acc@[sorted@[t] as int] as i32,
{
    let ghost a0 = adjncy@;
    let ghost w0 = adjwgt@;
    let mut t: usize = 0;
    while t < sorted.len()
        invariant
            a0.len() == w0.len(),
            forall|y: int| 0 <= y < sorted@.len() ==> (#[trigger] sorted@[y] as int) < acc@.len(),
            0 <= t <= sorted@.len(),
            adjncy@ == a0 + sorted@.take(t as int),
            adjwgt@.len() == adjncy@.len(),
            forall|i: int| 0 <= i < w0.len() ==> #[trigger] adjwgt@[i] == w0[i],
            forall|y: int| 0 <= y < t ==> #[trigger] adjwgt@[w0.len() + y] == acc@[sorted@[y] as int] as i32,
        decreases sorted@.len() - t,
    {
        let cu = sorted[t];
        adjncy.push(cu);
        adjwgt.push(acc[cu as usize] as i32);
        proof {
            assert(sorted@.take(t + 1) =~= sorted@.take(t as int).push(cu));
        }
        t += 1;
    }
    proof {
        assert(sorted@.take(sorted@.len() as int) =~= sorted@);
    }
}

/// Rows already written keep their links and weights when more slots are appended.
proof fn lemma_rows_kept(
    g: GraphView,
    cmap: Seq<u32>,
    cn: int,
    xadj0: Seq<u32>,
    adjncy0: Seq<u32>,
    wts0: Seq<i32>,
    xadj1: Seq<u32>,
    adjncy1: Seq<u32>,
    wts1: Seq<i32>,
    cv: int,
)
    requires
        0 <= cv,
        xadj0.len() == cv + 1,
        xadj1.len() == cv + 2,
        xadj1.subrange(0, cv + 1) == xadj0,
        xadj0[cv] as int == adjncy0.len(),
        forall|i: int, j: int| 0 <= i <= j <= cv ==> #[trigger] xadj0[i] <= #[trigger] xadj0[j],
        adjncy0.len() <= adjncy1.len(),
        adjncy1.subrange(0, adjncy0.len() as int) == adjncy0,
        wts0.len() == adjncy0.len(),
        wts0.len() <= wts1.len(),
        forall|i: int| 0 <= i < wts0.len() ==> #[trigger] wts1[i] == wts0[i],
        forall|cc: int| 0 <= cc < cv ==> #[trigger] coarse_row_links(g, cmap, cn, xadj0, adjncy0, cc),
        forall|cc: int| 0 <= cc < cv ==> #[trigger] coarse_row_weights(g, cmap, xadj0, adjncy0, wts0, cc),
    ensures
        forall|cc: int| 0 <= cc < cv ==> #[trigger] coarse_row_links(g, cmap, cn, xadj1, adjncy1, cc),
        forall|cc: int| 0 <= cc < cv ==> #[trigger] coarse_row_weights(g, cmap, xadj1, adjncy1, wts1, cc),
{
    assert forall|cc: int| 0 <= cc < cv implies #[trigger] coarse_row_links(g, cmap, cn, xadj1, adjncy1, cc) by {
        lemma_row_kept(g, cmap, cn, xadj0, adjncy0, wts0, xadj1, adjncy1, wts1, cv, cc);
    }
    assert forall|cc: int| 0 <= cc < cv implies #[trigger] coarse_row_weights(g, cmap, xadj1, adjncy1, wts1, cc) by {
        lemma_row_kept(g, cmap, cn, xadj0, adjncy0, wts0, xadj1, adjncy1, wts1, cv, cc);
    }
}

proof fn lemma_row_kept(
    g: GraphView,
    cmap: Seq<u32>,
    cn: int,
    xadj0: Seq<u32>,
    adjncy0: Seq<u32>,
    wts0: Seq<i32>,
    xadj1: Seq<u32>,
    adjncy1: Seq<u32>,
    wts1: Seq<i32>,
    cv: int,
    cc: int,
)
    requires
        0 <= cc < cv,
        xadj0.len() == cv + 1,
        xadj1.len() == cv + 2,
        xadj1.subrange(0, cv + 1) == xadj0,
        xadj0[cv] as int == adjncy0.len(),
        forall|i: int, j: int| 0 <= i <= j <= cv ==> #[trigger] xadj0[i] <= #[trigger] xadj0[j],
        adjncy0.len() <= adjncy1.len(),
        adjncy1.subrange(0, adjncy0.len() as int) == adjncy0,
        wts0.len() == adjncy0.len(),
        wts0.len() <= wts1.len(),
        forall|i: int| 0 <= i < wts0.len() ==> #[trigger] wts1[i] == wts0[i],
        coarse_row_links(g, cmap, cn, xadj0, adjncy0, cc),
        coarse_row_weights(g, cmap, xadj0, adjncy0, wts0, cc),
    ensures
        coarse_row_links(g, cmap, cn, xadj1, adjncy1, cc),
        coarse_row_weights(g, cmap, xadj1, adjncy1, wts1, cc),
{
    assert(xadj1[cc] == xadj0[cc]);
    assert(xadj1[cc + 1] == xadj0[cc + 1]);
    assert(xadj0[cc] <= xadj0[cc + 1]);
    assert(xadj0[cc + 1] <= xadj0[cv]);
    let lo = xadj0[cc] as int;
    let hi = xadj0[cc + 1] as int;
    assert(adjncy1.subrange(lo, hi) =~= adjncy0.subrange(lo, hi)) by {
        assert forall|t: int| 0 <= t < hi - lo implies #[trigger] adjncy1.subrange(lo, hi)[t] == adjncy0.subrange(lo, hi)[t] by {
            assert(adjncy1.subrange(0, adjncy0.len() as int)[lo + t] == adjncy1[lo + t]);
        }
    }
    assert(coarse_row_links(g, cmap, cn, xadj0, adjncy0, cc));
    assert(coarse_row_weights(g, cmap, xadj0, adjncy0, wts0, cc));
    assert forall|j: int| xadj1[cc] <= j < xadj1[cc + 1] implies #[trigger] wts1[j] == coarse_edge_weight(
        g,
        cmap,
        cc,
        adjncy1[j] as int,
    ) as i32 by {
        assert(wts0[j] == coarse_edge_weight(g, cmap, cc, adjncy0[j] as int) as i32);
        assert(adjncy1.subrange(0, adjncy0.len() as int)[j] == adjncy1[j]);
    }
    assert(coarse_row_weights(g, cmap, xadj1, adjncy1, wts1, cc));
}

/// The row just appended for `cv` lists exactly the coarse neighbours of `cv`
/// with their accumulated weights.
proof fn lemma_new_row(
    g: GraphView,
    cmap: Seq<u32>,
    cn: int,
    xadj: Seq<u32>,
    adjncy: Seq<u32>,
    wts: Seq<i32>,
    adjncy0: Seq<u32>,
    wts0: Seq<i32>,
    cv: int,
    mem: Seq<int>,
    members: Seq<usize>,
    touched: Seq<u32>,
    sorted: Seq<u32>,
    mark: Seq<u64>,
    acc: Seq<i64>,
    stamp: u64,
)
    requires
        0 <= cv < cn,
        cn <= 0x1_0000_0000,
        xadj.len() == cv + 2,
        xadj[cv] as int == adjncy0.len(),
        xadj[cv + 1] as int == adjncy.len(),
        adjncy == adjncy0 + sorted,
        wts0.len() == adjncy0.len(),
        wts.len() == adjncy.len(),
        forall|t: int| 0 <= t < sorted.len() ==> #[trigger] wts[wts0.len() + t] == acc[sorted[t] as int] as i32,
        mem == members_upto(cmap, cv as u32, g.n()),
        as_ints(members) == mem,
        mark.len() == cn,
        acc.len() == cn,
        forall|cu: int|
            0 <= cu < cn ==> (#[trigger] mark[cu] == stamp <==> (cu != cv && group_hits(
                g,
                cmap,
                cu,
                as_ints(members),
                members.len() as int,
            ))),
        forall|cu: int|
            0 <= cu < cn && #[trigger] mark[cu] == stamp ==> acc[cu] as int == group_weight(
                g,
                cmap,
                cu,
                as_ints(members),
                members.len() as int,
            ),
        forall|t: int| 0 <= t < touched.len() ==> (#[trigger] touched[t] as int) < cn && mark[touched[t] as int] == stamp,
        forall|cu: int| 0 <= cu < cn && #[trigger] mark[cu] == stamp ==> touched.contains(cu as u32),
        strictly_increasing(sorted),
        forall|x: u32| sorted.contains(x) <==> touched.contains(x),
    ensures
        coarse_row_links(g, cmap, cn, xadj, adjncy, cv),
        coarse_row_weights(g, cmap, xadj, adjncy, wts, cv),
        forall|t: int| 0 <= t < sorted.len() ==> (#[trigger] sorted[t] as int) < cn,
{
    let row = adjncy.subrange(xadj[cv] as int, xadj[cv + 1] as int);
    assert(row =~= sorted);
    assert(members.len() == mem.len());
    assert forall|t: int| 0 <= t < sorted.len() implies (#[trigger] sorted[t] as int) < cn && mark[sorted[t] as int] == stamp by {
        assert(sorted.contains(sorted[t]));
        assert(touched.contains(sorted[t]));
        let q = choose|q: int| 0 <= q < touched.len() && #[trigger] touched[q] == sorted[t];
        assert((touched[q] as int) < cn && mark[touched[q] as int] == stamp);
    }
    assert forall|t: int| 0 <= t < row.len() implies (#[trigger] row[t] as int) < cn && coarse_adjacent(
        g,
        cmap,
        cv,
        row[t] as int,
    ) by {
        assert(row[t] == sorted[t]);
        assert(mark[sorted[t] as int] == stamp);
    }
    assert forall|cu: int| 0 <= cu < cn && #[trigger] coarse_adjacent(g, cmap, cv, cu) implies row.contains(cu as u32) by {
        assert(mark[cu] == stamp);
        assert(touched.contains(cu as u32));
        assert(sorted.contains(cu as u32));
    }
    assert forall|j: int| xadj[cv] <= j < xadj[cv + 1] implies #[trigger] wts[j] == coarse_edge_weight(
        g,
        cmap,
        cv,
        adjncy[j] as int,
    ) as i32 by {
        let t = j - wts0.len();
        assert(adjncy[j] == sorted[t]);
        assert(wts[wts0.len() + t] == acc[sorted[t] as int] as i32);
        assert(mark[sorted[t] as int] == stamp);
    }
}

/// Vertex weights written for earlier coarse vertices stay, and those of `cv` follow them.
proof fn lemma_weights_kept(
    g: GraphView,
    cmap: Seq<u32>,
    ncon: int,
    cvwgt0: Seq<i32>,
    cvwgt1: Seq<i32>,
    cv: int,
    members: Seq<usize>,
)
    requires
        0 <= cv,
        ncon == g.ncon,
        ncon >= 1,
        cvwgt0.len() == cv * ncon,
        cvwgt1.len() == cvwgt0.len() + ncon,
        forall|i: int| 0 <= i < cvwgt0.len() ==> #[trigger] cvwgt1[i] == cvwgt0[i],
        forall|c: int| 0 <= c < ncon ==> #[trigger] cvwgt1[cvwgt0.len() + c] == seq_sum(as_ints(members), vweight(g, c)) as i32,
        as_ints(members) == members_upto(cmap, cv as u32, g.n()),
        forall|cc: int, c: int|
            0 <= cc < cv && 0 <= c < ncon ==> #[trigger] weight_at(cvwgt0, ncon, cc, c) == coarse_vertex_weight(
                g,
                cmap,
                cc,
                c,
            ) as i32,
    ensures
        cvwgt1.len() == (cv + 1) * ncon,
        forall|cc: int, c: int|
            0 <= cc < cv + 1 && 0 <= c < ncon ==> #[trigger] weight_at(cvwgt1, ncon, cc, c)
                == coarse_vertex_weight(g, cmap, cc, c) as i32,
{
    assert((cv + 1) * ncon == cv * ncon + ncon) by (nonlinear_arith);
    assert forall|cc: int, c: int| 0 <= cc < cv + 1 && 0 <= c < ncon implies #[trigger] weight_at(cvwgt1, ncon, cc, c)
        == coarse_vertex_weight(g, cmap, cc, c) as i32 by {
        if cc < cv {
            assert(cc * ncon + c < cv * ncon) by (nonlinear_arith)
                requires
                    0 <= cc < cv,
                    0 <= c < ncon,
            ;
            assert(0 <= cc * ncon) by (nonlinear_arith)
                requires
                    0 <= cc,
                    0 <= ncon,
            ;
            assert(weight_at(cvwgt0, ncon, cc, c) == coarse_vertex_weight(g, cmap, cc, c) as i32);
            assert(cvwgt1[cc * ncon + c] == cvwgt0[cc * ncon + c]);
        } else {
            assert(cc * ncon + c == cvwgt0.len() + c);
        }
    }
}

/// `h` is the graph that contracting `g` along `cmap` gives: coarse vertex
/// `cv` carries the weights of its fine vertices summed (truncated to `i32`),
/// its row lists in increasing order the coarse vertices that its fine
/// vertices reach, and, when `g` stores edge weights, each coarse edge carries
/// the summed weight of the fine edges it replaces (truncated to `i32`);
/// without stored edge weights `h` stores none either.
pub open spec fn contraction_of(g: GraphView, cmap: Seq<u32>, h: GraphView) -> bool {
    &&& h.sound()
    &&& h.ncon == g.ncon
    &&& (h.adjwgt is Some <==> g.adjwgt is Some)
    &&& forall|cv: int, c: int|
        0 <= cv < h.n() && 0 <= c < g.ncon ==> #[trigger] h.vw(cv, c) == coarse_vertex_weight(g, cmap, cv, c) as i32
    &&& forall|cv: int| 0 <= cv < h.n() ==> #[trigger] coarse_row_links(g, cmap, h.n(), h.xadj, h.adjncy, cv)
    &&& g.adjwgt is Some ==> forall|cv: int|
        0 <= cv < h.n() ==> #[trigger] coarse_row_weights(g, cmap, h.xadj, h.adjncy, h.adjwgt->0, cv)
}

/// Contract `g` along `cmap`: coarse vertex `cv` carries the summed weights of
/// its fine vertices, is adjacent to the coarse vertices that its fine
/// vertices reach (listed in increasing order), and each coarse edge carries
/// the summed weight of the fine edges it replaces (kept only when `g` stores
/// edge weights). Sums are truncated to `i32`. When `g` is valid with
/// weights whose sums fit (and, with stored edge weights, no neighbour listed
/// twice) and every coarse vertex is hit, the coarse graph is valid too.
#[verifier::rlimit(60)]
pub fn build_coarse_graph(g: &CsrGraph, cmap: &[u32], cn: usize) -> (r: (CsrGraph, CoarseMap))
    requires
        g@.sound(),
        cmap@.len() == g@.n(),
        forall|v: int| 0 <= v < cmap@.len() ==> (#[trigger] cmap@[v] as int) < cn,
        cn <= 0x1_0000_0000,
        cn * g@.ncon <= usize::MAX,
    ensures
        r.0@.n() == cn,
        contraction_of(g@, cmap@, r.0@),
        r.1@ == cmap@,
        crate::coarsen::structure::contractible(g@) && crate::graph::partition::covers(cmap@, cn as int)
            ==> crate::coarsen::structure::contractible(r.0@),
        g@.valid() && crate::graph::partition::covers(cmap@, cn as int) && crate::coarsen::structure::coarse_sums_fit(
            g@,
            cmap@,
            cn as int,
        ) ==> r.0@.valid(),
{
    let ghost gv = g@;
    let ghost n = gv.n();
    let ncon = g.ncon() as usize;
    let (start, order) = bucket_by_target(cmap, cn);
    let mut mark: Vec<u64> = vec![0u64; cn];
    let mut acc: Vec<i64> = vec![0i64; cn];
    let mut xadj: Vec<u32> = Vec::new();
    xadj.push(0);
    let mut adjncy: Vec<u32> = Vec::new();
    let mut adjwgt: Vec<i32> = Vec::new();
    let mut cvwgt: Vec<i32> = Vec::new();
    proof {
        assert forall|v: int| 0 <= v < n implies #[trigger] degree(gv)(v) >= 0 by {
            assert(gv.xadj[v] <= gv.xadj[v + 1]);
        }
        lemma_degree_sum(gv, n);
        lemma_sum_below_le(cmap@, 0, n, degree(gv));
    }
    let mut cv: usize = 0;
    while cv < cn
        invariant
            gv == g@,
            gv.sound(),
            n == gv.n(),
            ncon == gv.ncon,
            cmap@.len() == n,
            forall|v: int| 0 <= v < n ==> (#[trigger] cmap@[v] as int) < cn,
            cn <= 0x1_0000_0000,
            cn * ncon <= usize::MAX,
            forall|v: int| 0 <= v < n ==> #[trigger] degree(gv)(v) >= 0,
            sum_all(n, degree(gv)) == gv.xadj[n] as int,
            start@.len() == cn + 1,
            start@[0] == 0,
            start@[cn as int] == n,
            order@.len() == n,
            forall|c: int| 0 <= c < cn ==> #[trigger] start@[c] <= start@[c + 1],
            forall|c: int|
                0 <= c < cn ==> #[trigger] start@[c + 1] - start@[c] == members_upto(cmap@, c as u32, n).len(),
            forall|c: int, x: int|
                0 <= c < cn && 0 <= x < start@[c + 1] - start@[c] ==> #[trigger] order@[start@[c] + x] as int
                    == members_upto(cmap@, c as u32, n)[x],
            0 <= cv <= cn,
            mark@.len() == cn,
            acc@.len() == cn,
            forall|cu: int| 0 <= cu < cn ==> #[trigger] mark@[cu] <= cv,
            xadj@.len() == cv + 1,
            xadj@[0] == 0,
            xadj@[cv as int] as int == adjncy@.len(),
            forall|i: int, j: int| 0 <= i <= j <= cv ==> #[trigger] xadj@[i] <= #[trigger] xadj@[j],
            adjwgt@.len() == adjncy@.len(),
            adjncy@.len() <= sum_below(cmap@, cv as int, n, degree(gv)),
            forall|j: int| 0 <= j < adjncy@.len() ==> (#[trigger] adjncy@[j] as int) < cn,
            forall|cc: int| 0 <= cc < cv ==> #[trigger] coarse_row_links(gv, cmap@, cn as int, xadj@, adjncy@, cc),
            forall|cc: int| 0 <= cc < cv ==> #[trigger] coarse_row_weights(gv, cmap@, xadj@, adjncy@, adjwgt@, cc),
            cvwgt@.len() == cv * ncon,
            forall|cc: int, c: int|
                0 <= cc < cv && 0 <= c < ncon ==> #[trigger] weight_at(cvwgt@, ncon as int, cc, c)
                    == coarse_vertex_weight(gv, cmap@, cc, c) as i32,
        decreases cn - cv,
    {
        proof {
            lemma_start_bound(start@, cn as int, cv as int);
        }
        let a = start[cv];
        let b = start[cv + 1];
        let members = &order.as_slice()[a..b];
        let ghost mem = members_upto(cmap@, cv as u32, n);
        proof {
            assert(as_ints(members@) =~= mem) by {
                assert forall|x: int| 0 <= x < mem.len() implies as_ints(members@)[x] == mem[x] by {
                    assert(members@[x] == order@[a + x]);
                }
            }
            lemma_members_props(cmap@, cv as u32, n);
            lemma_sum_regroup(cmap@, cv as int, n, degree(gv));
            lemma_sum_below_le(cmap@, cv + 1, n, degree(gv));
            lemma_sum_below_le(cmap@, cv as int, n, degree(gv));
            assert forall|x: int| 0 <= x < members@.len() implies (#[trigger] members@[x] as int) < n by {
                assert(as_ints(members@)[x] == mem[x]);
            }
        }
        let ghost cvwgt0 = cvwgt@;
        append_vertex_weights(g, members, &mut cvwgt);
        let stamp: u64 = (cv as u64) + 1;
        let touched = accumulate_row(g, cmap, members, cv as u32, stamp, &mut mark, &mut acc);
        let sorted = sort_distinct(touched.as_slice());
        let ghost xadj0 = xadj@;
        let ghost adjncy0 = adjncy@;
        let ghost adjwgt0 = adjwgt@;
        proof {
            assert forall|t: int| 0 <= t < sorted@.len() implies (#[trigger] sorted@[t] as int) < acc@.len() by {
                assert(sorted@.contains(sorted@[t]));
                assert(touched@.contains(sorted@[t]));
            }
        }
        append_row(sorted.as_slice(), acc.as_slice(), &mut adjncy, &mut adjwgt);
        proof {
            assert(adjncy@.len() <= gv.xadj[n] as int);
        }
        xadj.push(adjncy.len() as u32);
        proof {
            assert(xadj@.subrange(0, cv + 1) =~= xadj0);
            assert(adjncy@.subrange(0, adjncy0.len() as int) =~= adjncy0);
            lemma_rows_kept(gv, cmap@, cn as int, xadj0, adjncy0, adjwgt0, xadj@, adjncy@, adjwgt@, cv as int);
            lemma_new_row(gv, cmap@, cn as int, xadj@, adjncy@, adjwgt@, adjncy0, adjwgt0, cv as int, mem,
                members@, touched@, sorted@, mark@, acc@, stamp);
            lemma_weights_kept(gv, cmap@, ncon as int, cvwgt0, cvwgt@, cv as int, members@);
        }
        cv += 1;
    }
    let coarse_adjwgt = if g.adjwgt().is_some() {
        Some(adjwgt)
    } else {
        None
    };
    let coarse = CsrGraph::from_sound_parts(xadj, adjncy, g.ncon(), cvwgt, coarse_adjwgt);
    let mut cm: Vec<u32> = Vec::new();
    let mut v: usize = 0;
    while v < cmap.len()
        invariant
            0 <= v <= cmap@.len(),
            cm@ == cmap@.take(v as int),
        decreases cmap@.len() - v,
    {
        cm.push(cmap[v]);
        proof {
            assert(cmap@.take(v + 1) =~= cmap@.take(v as int).push(cmap@[v as int]));
        }
        v += 1;
    }
    proof {
        assert(cmap@.take(cmap@.len() as int) =~= cmap@);
        assert forall|cv: int, c: int| 0 <= cv < cn && 0 <= c < gv.ncon implies #[trigger] coarse@.vw(cv, c)
            == coarse_vertex_weight(gv, cmap@, cv, c) as i32 by {
            assert(weight_at(coarse@.vwgt, ncon as int, cv, c) == coarse_vertex_weight(gv, cmap@, cv, c) as i32);
        }
        if crate::coarsen::structure::contractible(gv) && crate::graph::partition::covers(cmap@, cn as int) {
            crate::coarsen::structure::lemma_contraction_contractible(gv, cmap@, coarse@);
        }
        if gv.valid() && crate::graph::partition::covers(cmap@, cn as int) && crate::coarsen::structure::coarse_sums_fit(
            gv,
            cmap@,
            cn as int,
        ) {
            crate::coarsen::structure::lemma_contraction_keeps_valid(gv, cmap@, coarse@);
        }
    }
    (coarse, CoarseMap::from_validated(cm))
}

/// Total of constraint `c` over the coarse vertices below `k`.
pub open spec fn coarse_total(g: GraphView, cmap: Seq<u32>, k: int, c: int) -> int
    decreases k,
{
    if k <= 0 {
        0
    } else {
        coarse_total(g, cmap, k - 1, c) + coarse_vertex_weight(g, cmap, k - 1, c)
    }
}

/// Contraction keeps the total vertex weight: summed over the coarse
/// vertices, the coarse weights of constraint `c` add up to the total weight
/// of constraint `c` over the fine vertices.
pub proof fn lemma_contraction_keeps_weight(g: GraphView, cmap: Seq<u32>, cn: int, c: int)
    requires
        cmap.len() == g.n(),
        0 <= cn <= 0x1_0000_0000,
        forall|v: int| 0 <= v < g.n() ==> (#[trigger] cmap[v] as int) < cn,
    ensures
        coarse_total(g, cmap, cn, c) == sum_all(g.n(), vweight(g, c)),
{
    lemma_total_is_grouped(g, cmap, cn, c);
    lemma_sum_below_all(cmap, cn, g.n(), vweight(g, c));
}

proof fn lemma_total_is_grouped(g: GraphView, cmap: Seq<u32>, k: int, c: int)
    requires
        cmap.len() == g.n(),
        0 <= k <= 0x1_0000_0000,
    ensures
        coarse_total(g, cmap, k, c) == sum_below(cmap, k, g.n(), vweight(g, c)),
    decreases k,
{
    if k <= 0 {
        lemma_sum_below_zero(cmap, k, g.n(), vweight(g, c));
    } else {
        lemma_total_is_grouped(g, cmap, k - 1, c);
        lemma_sum_regroup(cmap, k - 1, g.n(), vweight(g, c));
    }
}

proof fn lemma_sum_below_zero(cmap: Seq<u32>, k: int, i: int, f: spec_fn(int) -> int)
    requires
        k <= 0,
        0 <= i <= cmap.len(),
    ensures
        sum_below(cmap, k, i, f) == 0,
    decreases i,
{
    if i > 0 {
        lemma_sum_below_zero(cmap, k, i - 1, f);
    }
}


/// Two strictly increasing sequences that hold the same values are equal.
pub proof fn lemma_increasing_unique(a: Seq<u32>, b: Seq<u32>)
    requires
        strictly_increasing(a),
        strictly_increasing(b),
        forall|x: u32| a.contains(x) <==> b.contains(x),
    ensures
        a == b,
    decreases a.len() + b.len(),
{
    if a.len() == 0 {
        if b.len() > 0 {
            assert(b.contains(b[0]));
        }
        assert(a =~= b);
    } else if b.len() == 0 {
        assert(a.contains(a[0]));
    } else {
        assert(a.contains(a[0]));
        assert(b.contains(b[0]));
        let j = choose|j: int| 0 <= j < b.len() && b[j] == a[0];
        let i = choose|i: int| 0 <= i < a.len() && a[i] == b[0];
        if j > 0 {
            assert(b[0] < b[j]);
            if i > 0 {
                assert(a[0] < a[i]);
            }
        }
        if i > 0 {
            assert(a[0] < a[i]);
        }
        assert(a[0] == b[0]);
        let a1 = a.drop_first();
        let b1 = b.drop_first();
        assert forall|x: u32| a1.contains(x) <==> b1.contains(x) by {
            if a1.contains(x) {
                let k = choose|k: int| 0 <= k < a1.len() && a1[k] == x;
                assert(a[k + 1] == x);
                assert(a[0] < a[k + 1]);
                assert(a.contains(x));
                let m = choose|m: int| 0 <= m < b.len() && b[m] == x;
                assert(m != 0);
                assert(b1[m - 1] == x);
            }
            if b1.contains(x) {
                let k = choose|k: int| 0 <= k < b1.len() && b1[k] == x;
                assert(b[k + 1] == x);
                assert(b[0] < b[k + 1]);
                assert(b.contains(x));
                let m = choose|m: int| 0 <= m < a.len() && a[m] == x;
                assert(m != 0);
                assert(a1[m - 1] == x);
            }
        }
        assert(strictly_increasing(a1)) by {
            assert forall|p: int, q: int| 0 <= p < q < a1.len() implies #[trigger] a1[p] < #[trigger] a1[q] by {
                assert(a[p + 1] < a[q + 1]);
            }
        }
        assert(strictly_increasing(b1)) by {
            assert forall|p: int, q: int| 0 <= p < q < b1.len() implies #[trigger] b1[p] < #[trigger] b1[q] by {
                assert(b[p + 1] < b[q + 1]);
            }
        }
        lemma_increasing_unique(a1, b1);
        assert forall|k: int| 0 <= k < a.len() implies a[k] == b[k] by {
            if k > 0 {
                assert(a[k] == a1[k - 1]);
                assert(b[k] == b1[k - 1]);
            }
        }
        assert(a =~= b);
    }
}

/// The row of a monotone offset table that holds slot `j`.
proof fn lemma_row_of(xadj: Seq<u32>, k: int, j: int) -> (cv: int)
    requires
        0 < k < xadj.len(),
        xadj[0] <= j < xadj[k],
        forall|i: int, i2: int| #![trigger xadj[i], xadj[i2]] 0 <= i <= i2 <= k ==> xadj[i] <= xadj[i2],
    ensures
        0 <= cv < k,
        xadj[cv] <= j < xadj[cv + 1],
    decreases k,
{
    if xadj[k - 1] <= j {
        k - 1
    } else {
        if k - 1 == 0 {
            assert(false);
        }
        lemma_row_of(xadj, k - 1, j)
    }
}

/// The coarse graph of a map is determined by the map and its vertex count:
/// two graphs that are both the contraction of `g` along `cmap` with the
/// same number of vertices are the same graph.
pub proof fn lemma_contraction_unique(g: GraphView, cmap: Seq<u32>, h1: GraphView, h2: GraphView)
    requires
        contraction_of(g, cmap, h1),
        contraction_of(g, cmap, h2),
        h1.n() == h2.n(),
    ensures
        h1 == h2,
{
    let cn = h1.n();
    assert(h1.xadj.len() == cn + 1 && h2.xadj.len() == cn + 1);
    assert forall|cv: int| 0 <= cv < cn implies #[trigger] h1.adjncy.subrange(h1.xadj[cv] as int, h1.xadj[cv + 1] as int)
        == h2.adjncy.subrange(h2.xadj[cv] as int, h2.xadj[cv + 1] as int) by {
        let r1 = h1.adjncy.subrange(h1.xadj[cv] as int, h1.xadj[cv + 1] as int);
        let r2 = h2.adjncy.subrange(h2.xadj[cv] as int, h2.xadj[cv + 1] as int);
        assert(coarse_row_links(g, cmap, cn, h1.xadj, h1.adjncy, cv));
        assert(coarse_row_links(g, cmap, cn, h2.xadj, h2.adjncy, cv));
        assert forall|x: u32| r1.contains(x) <==> r2.contains(x) by {
            if r1.contains(x) {
                let t = choose|t: int| 0 <= t < r1.len() && r1[t] == x;
                assert((r1[t] as int) < cn && coarse_adjacent(g, cmap, cv, r1[t] as int));
                assert(r2.contains(x as int as u32));
            }
            if r2.contains(x) {
                let t = choose|t: int| 0 <= t < r2.len() && r2[t] == x;
                assert((r2[t] as int) < cn && coarse_adjacent(g, cmap, cv, r2[t] as int));
                assert(r1.contains(x as int as u32));
            }
        }
        lemma_increasing_unique(r1, r2);
    }
    assert forall|i: int| 0 <= i <= cn implies #[trigger] h1.xadj[i] == h2.xadj[i] by {
        lemma_offsets_agree(g, cmap, h1, h2, i);
    }
    assert(h1.xadj =~= h2.xadj);
    let m = h1.xadj[cn] as int;
    assert(h1.adjncy.len() == m && h2.adjncy.len() == m);
    assert forall|j: int| 0 <= j < m implies h1.adjncy[j] == h2.adjncy[j] && (h1.adjwgt is Some ==> h1.adjwgt->0[j]
        == h2.adjwgt->0[j]) by {
        let cv = lemma_row_of(h1.xadj, cn, j);
        let r1 = h1.adjncy.subrange(h1.xadj[cv] as int, h1.xadj[cv + 1] as int);
        let r2 = h2.adjncy.subrange(h2.xadj[cv] as int, h2.xadj[cv + 1] as int);
        assert(r1 == r2);
        assert(h1.adjncy[j] == r1[j - h1.xadj[cv]]);
        assert(h2.adjncy[j] == r2[j - h2.xadj[cv]]);
        if h1.adjwgt is Some {
            assert(coarse_row_weights(g, cmap, h1.xadj, h1.adjncy, h1.adjwgt->0, cv));
            assert(coarse_row_weights(g, cmap, h2.xadj, h2.adjncy, h2.adjwgt->0, cv));
        }
    }
    assert(h1.adjncy =~= h2.adjncy);
    if h1.adjwgt is Some {
        assert(h2.adjwgt is Some);
        assert(h1.adjwgt->0.len() == m && h2.adjwgt->0.len() == m);
        assert forall|j: int| 0 <= j < m implies h1.adjwgt->0[j] == h2.adjwgt->0[j] by {
            assert(h1.adjncy[j] == h2.adjncy[j]);
        }
        assert(h1.adjwgt->0 =~= h2.adjwgt->0);
    }
    assert(h1.adjwgt == h2.adjwgt);
    let nc = g.ncon as int;
    assert(h1.vwgt.len() == cn * nc && h2.vwgt.len() == cn * nc);
    assert forall|j: int| 0 <= j < cn * nc implies h1.vwgt[j] == h2.vwgt[j] by {
        let q = j / nc;
        let r = j % nc;
        assert(j == nc * q + r && 0 <= r < nc) by {
            vstd::arithmetic::div_mod::lemma_fundamental_div_mod(j, nc);
            vstd::arithmetic::div_mod::lemma_mod_pos_bound(j, nc);
        }
        assert(0 <= q < cn) by (nonlinear_arith)
            requires
                j == nc * q + r,
                0 <= r < nc,
                0 <= j < cn * nc,
                nc >= 1,
        ;
        assert(q * nc + r == j) by (nonlinear_arith)
            requires
                j == nc * q + r,
        ;
        assert(h1.vw(q, r) == coarse_vertex_weight(g, cmap, q, r) as i32);
        assert(h2.vw(q, r) == coarse_vertex_weight(g, cmap, q, r) as i32);
    }
    assert(h1.vwgt =~= h2.vwgt);
}

/// Equal rows give equal offsets.
proof fn lemma_offsets_agree(g: GraphView, cmap: Seq<u32>, h1: GraphView, h2: GraphView, i: int)
    requires
        contraction_of(g, cmap, h1),
        contraction_of(g, cmap, h2),
        h1.n() == h2.n(),
        0 <= i <= h1.n(),
        forall|cv: int| 0 <= cv < h1.n() ==> #[trigger] h1.adjncy.subrange(h1.xadj[cv] as int, h1.xadj[cv + 1] as int)
            == h2.adjncy.subrange(h2.xadj[cv] as int, h2.xadj[cv + 1] as int),
    ensures
        h1.xadj[i] == h2.xadj[i],
    decreases i,
{
    if i > 0 {
        lemma_offsets_agree(g, cmap, h1, h2, i - 1);
        let cv = i - 1;
        assert(h1.xadj[cv] <= h1.xadj[cv + 1]);
        assert(h2.xadj[cv] <= h2.xadj[cv + 1]);
        assert(h1.xadj[cv + 1] <= h1.xadj[h1.n()]);
        assert(h2.xadj[cv + 1] <= h2.xadj[h2.n()]);
        let r1 = h1.adjncy.subrange(h1.xadj[cv] as int, h1.xadj[cv + 1] as int);
        let r2 = h2.adjncy.subrange(h2.xadj[cv] as int, h2.xadj[cv + 1] as int);
        assert(r1 == r2);
        assert(r1.len() == r2.len());
    }
}

/// The graph that contracting `g` along `cmap` onto `cn` coarse vertices gives.
pub open spec fn contraction_graph(g: GraphView, cmap: Seq<u32>, cn: int) -> GraphView {
    choose|h: GraphView| contraction_of(g, cmap, h) && h.n() == cn
}

/// A contraction of `g` along `cmap` is `contraction_graph` of its size.
pub proof fn lemma_is_contraction_graph(g: GraphView, cmap: Seq<u32>, h: GraphView)
    requires
        contraction_of(g, cmap, h),
    ensures
        h == contraction_graph(g, cmap, h.n()),
{
    let h2 = contraction_graph(g, cmap, h.n());
    assert(contraction_of(g, cmap, h2) && h2.n() == h.n());
    lemma_contraction_unique(g, cmap, h, h2);
}

} // verus!
