use vstd::prelude::*;

use crate::coarsen::matching::{count_true, lemma_count_true_bounds, lemma_count_true_none, lemma_count_true_update};
use crate::graph::csr::{CsrGraph, GraphView};
use crate::graph::partition::{all_parts_present, part_present, partition_check, Partition};
use crate::api::{CoarseningMethod, MetisParams, MetisPartitioner, ObjectiveType};
use crate::error::PartitionError;
use crate::graph::repair::repair_contiguity;
use crate::graph::contiguity::{
    all_contiguous,
    contiguity_result, lemma_contiguous_ok, lemma_no_broken_part, lemma_single_part_contiguous, part_contiguous, part_mask,
};
use crate::graph::subgraph::{extract_subgraph, lemma_members_props, members_upto};
use crate::graph::topology::{lemma_closed_contains_reachable, lemma_reaches_extend, lemma_reaches_reverse, lemma_reaches_self, lemma_reaches_trans, lemma_reaches_widen};
use crate::init::{single_part, InitialPartitioner};
use crate::random::{random_up_to, seeded_rng};

verus! {

/// Marker of a vertex that no part has claimed yet.
pub open spec fn claimed(a: Seq<u32>) -> Seq<bool> {
    Seq::new(a.len(), |v: int| a[v] != u32::MAX)
}

/// Number of vertices that some part has claimed.
pub open spec fn n_claimed(a: Seq<u32>) -> int {
    count_true(claimed(a))
}

/// Claiming an unclaimed vertex adds one to the count.
proof fn lemma_claim(a: Seq<u32>, v: int, part: u32)
    requires
        0 <= v < a.len(),
        a[v] == u32::MAX,
        part != u32::MAX,
    ensures
        n_claimed(a.update(v, part)) == n_claimed(a) + 1,
        n_claimed(a.update(v, part)) <= a.len(),
        n_claimed(a) < a.len(),
{
    assert(claimed(a.update(v, part)) =~= claimed(a).update(v, true));
    lemma_count_true_update(claimed(a), v);
    lemma_count_true_bounds(claimed(a.update(v, part)));
    assert(!claimed(a)[v]);
    lemma_count_true_bounds(claimed(a));
}

/// Nothing is claimed in a fresh assignment.
proof fn lemma_none_claimed(n: nat)
    ensures
        n_claimed(Seq::new(n, |v: int| u32::MAX)) == 0,
{
    assert(claimed(Seq::new(n, |v: int| u32::MAX)) =~= Seq::new(n, |i: int| false));
    lemma_count_true_none(n);
}

/// The claimed count never exceeds the number of vertices.
proof fn lemma_claimed_bound(a: Seq<u32>)
    ensures
        0 <= n_claimed(a) <= a.len(),
{
    lemma_count_true_bounds(claimed(a));
}

/// Scanning the slots `j..hi` of a vertex: each neighbour not yet claimed
/// goes to `part` and onto the end of the queue, while any vertex is left
/// unclaimed. Gives the assignment, the queue and the count left unclaimed.
pub open spec fn scan_spec(g: GraphView, a: Seq<u32>, q: Seq<usize>, left: int, part: u32, j: int, hi: int) -> (
    Seq<u32>,
    Seq<usize>,
    int,
)
    decreases hi - j,
{
    if j >= hi || left <= 0 {
        (a, q, left)
    } else {
        let u = g.nbr(j);
        if a[u] == u32::MAX {
            scan_spec(g, a.update(u, part), q.push(u as usize), left - 1, part, j + 1, hi)
        } else {
            scan_spec(g, a, q, left, part, j + 1, hi)
        }
    }
}

/// Take the vertex at the front of `queue` (position `head`), if any, and
/// give each unclaimed neighbour to `part`, appending it to the queue;
/// stop once no vertex is left unclaimed. Returns whether a vertex was taken.
fn expand_front(
    g: &CsrGraph,
    assignment: &mut Vec<u32>,
    queue: &mut Vec<usize>,
    head: &mut usize,
    part: u32,
    unclaimed: &mut usize,
) -> (popped: bool)
    requires
        g@.sound(),
        old(assignment)@.len() == g@.n(),
        *old(head) <= old(queue)@.len(),
        forall|t: int| 0 <= t < old(queue)@.len() ==> (#[trigger] old(queue)@[t] as int) < g@.n(),
        *old(unclaimed) + n_claimed(old(assignment)@) == g@.n(),
        part != u32::MAX,
    ensures
        final(assignment)@.len() == g@.n(),
        popped == (*old(head) < old(queue)@.len()),
        *final(head) == *old(head) + (if popped { 1int } else { 0int }),
        final(queue)@.len() >= old(queue)@.len(),
        *final(head) <= final(queue)@.len(),
        !popped ==> final(assignment)@ == old(assignment)@ && final(queue)@ == old(queue)@ && *final(unclaimed)
            == *old(unclaimed),
        final(queue)@.len() - old(queue)@.len() == n_claimed(final(assignment)@) - n_claimed(old(assignment)@),
        forall|t: int| 0 <= t < final(queue)@.len() ==> (#[trigger] final(queue)@[t] as int) < g@.n(),
        *final(unclaimed) + n_claimed(final(assignment)@) == g@.n(),
        forall|v: int|
            0 <= v < g@.n() && old(assignment)@[v] != u32::MAX ==> #[trigger] final(assignment)@[v]
                == old(assignment)@[v],
        forall|v: int|
            0 <= v < g@.n() ==> #[trigger] final(assignment)@[v] == old(assignment)@[v]
                || final(assignment)@[v] == part,
        final(queue)@.subrange(0, old(queue)@.len() as int) == old(queue)@,
        popped ==> taken_closed(g@, final(assignment)@, old(queue)@[*old(head) as int] as int),
        forall|t: int|
            old(queue)@.len() <= t < final(queue)@.len() ==> grown_from(
                g@,
                old(assignment)@,
                final(assignment)@,
                old(queue)@[*old(head) as int] as int,
                #[trigger] final(queue)@[t] as int,
                part,
            ),
        forall|w: int|
            0 <= w < g@.n() && #[trigger] final(assignment)@[w] != old(assignment)@[w] ==> fresh_in(
                final(queue)@,
                old(queue)@.len() as int,
                w,
            ),
        popped ==> (final(assignment)@, final(queue)@, *final(unclaimed) as int) == scan_spec(
            g@,
            old(assignment)@,
            old(queue)@,
            *old(unclaimed) as int,
            part,
            g@.lo(old(queue)@[*old(head) as int] as int),
            g@.hi(old(queue)@[*old(head) as int] as int),
        ),
{
    let ghost gv = g@;
    let ghost a0 = assignment@;
    let ghost q0 = queue@;
    let ghost u0 = *unclaimed as int;
    if *head >= queue.len() {
        return false;
    }
    let n = g.n();
    let ghost h0 = *head;
    let v = queue[*head];
    proof {
        assert((q0[*old(head) as int] as int) < gv.n());
    }
    assert(v < n);
    *head = *head + 1;
    let xadj = g.xadj();
    let adjncy = g.adjncy();
    proof {
        assert(gv.xadj[v as int] <= gv.xadj[v as int + 1] <= gv.xadj[gv.n()]);
    }
    let hi = xadj[v + 1] as usize;
    let mut j = xadj[v] as usize;
    while j < hi && *unclaimed > 0
        invariant
            gv == g@,
            gv.sound(),
            adjncy@ == gv.adjncy,
            assignment@.len() == gv.n(),
            hi <= gv.m(),
            queue@.len() >= q0.len(),
            queue@.len() - q0.len() == n_claimed(assignment@) - n_claimed(a0),
            forall|t: int| 0 <= t < queue@.len() ==> (#[trigger] queue@[t] as int) < gv.n(),
            *unclaimed + n_claimed(assignment@) == gv.n(),
            part != u32::MAX,
            forall|w: int|
                0 <= w < gv.n() && a0[w] != u32::MAX ==> #[trigger] assignment@[w] == a0[w],
            forall|w: int| 0 <= w < gv.n() ==> #[trigger] assignment@[w] == a0[w] || assignment@[w] == part,
            (v as int) < gv.n(),
            gv.lo(v as int) <= j,
            hi == gv.hi(v as int),
            queue@.subrange(0, q0.len() as int) == q0,
            forall|jj: int| gv.lo(v as int) <= jj < j ==> assignment@[#[trigger] gv.nbr(jj)] != u32::MAX,
            forall|t: int|
                q0.len() <= t < queue@.len() ==> grown_from(gv, a0, assignment@, v as int, #[trigger] queue@[t] as int, part),
            forall|w: int|
                0 <= w < gv.n() && #[trigger] assignment@[w] != a0[w] ==> fresh_in(queue@, q0.len() as int, w),
            scan_spec(gv, a0, q0, u0, part, gv.lo(v as int), hi as int) == scan_spec(
                gv,
                assignment@,
                queue@,
                *unclaimed as int,
                part,
                j as int,
                hi as int,
            ),
        decreases hi - j,
    {
        let u = adjncy[j] as usize;
        proof {
            assert((gv.adjncy[j as int] as int) < gv.n());
        }
        let ghost a1 = assignment@;
        let ghost q1 = queue@;
        if assignment[u] == u32::MAX {
            proof {
                lemma_claim(assignment@, u as int, part);
            }
            assignment.set(u, part);
            queue.push(u);
            *unclaimed = *unclaimed - 1;
            proof {
                assert(queue@.subrange(0, q0.len() as int) =~= q1.subrange(0, q0.len() as int));
                assert(gv.topo().nbr(j as int) == u as int);
                assert(gv.topo().adjacent(v as int, u as int));
                assert forall|t: int| q0.len() <= t < queue@.len() implies grown_from(
                    gv,
                    a0,
                    assignment@,
                    v as int,
                    #[trigger] queue@[t] as int,
                    part,
                ) by {
                    if t < q1.len() {
                        assert(queue@[t] == q1[t]);
                        assert(grown_from(gv, a0, a1, v as int, q1[t] as int, part));
                    } else {
                        assert(queue@[t] == u);
                    }
                }
                assert forall|w: int| 0 <= w < gv.n() && #[trigger] assignment@[w] != a0[w] implies fresh_in(
                    queue@,
                    q0.len() as int,
                    w,
                ) by {
                    if w == u as int {
                        assert(queue@[q1.len() as int] == u);
                    } else {
                        assert(a1[w] != a0[w]);
                        let t = choose|t: int| q0.len() <= t < q1.len() && q1[t] as int == w;
                        assert(queue@[t] == q1[t]);
                    }
                }
            }
        }
        proof {
            assert forall|jj: int| gv.lo(v as int) <= jj < j + 1 implies assignment@[#[trigger] gv.nbr(jj)] != u32::MAX by {
                if jj < j {
                    assert(a1[gv.nbr(jj)] != u32::MAX);
                }
            }
        }
        j += 1;
    }
    proof {
        if j < hi {
            lemma_all_claimed(assignment@);
        }
        assert(gv.topo().lo(v as int) == gv.lo(v as int));
    }
    true
}

/// Every neighbour of `v` has been claimed.
pub open spec fn taken_closed(g: GraphView, a: Seq<u32>, v: int) -> bool {
    forall|j: int| g.lo(v) <= j < g.hi(v) ==> a[#[trigger] g.nbr(j)] != u32::MAX
}

/// `u` was unclaimed in `before`, belongs to `part` in `after`, and is a
/// neighbour of `v`.
pub open spec fn grown_from(g: GraphView, before: Seq<u32>, after: Seq<u32>, v: int, u: int, part: u32) -> bool {
    &&& before[u] == u32::MAX
    &&& after[u] == part
    &&& g.topo().adjacent(v, u)
}

/// `w` sits in `q` at position `from` or later.
pub open spec fn fresh_in(q: Seq<usize>, from: int, w: int) -> bool {
    exists|t: int| from <= t < q.len() && q[t] as int == w
}

/// When every vertex is counted as claimed, every vertex is claimed.
proof fn lemma_all_claimed(a: Seq<u32>)
    requires
        n_claimed(a) == a.len(),
    ensures
        forall|v: int| 0 <= v < a.len() ==> #[trigger] a[v] != u32::MAX,
{
    lemma_count_true_bounds(claimed(a));
    assert forall|v: int| 0 <= v < a.len() implies #[trigger] a[v] != u32::MAX by {
        if a[v] == u32::MAX {
            assert(!claimed(a)[v]);
        }
    }
}

/// Replace every unclaimed entry by part 0.
fn claim_rest(assignment: &mut Vec<u32>)
    ensures
        final(assignment)@.len() == old(assignment)@.len(),
        forall|v: int|
            0 <= v < old(assignment)@.len() ==> #[trigger] final(assignment)@[v] == if old(assignment)@[v]
                == u32::MAX {
                0
            } else {
                old(assignment)@[v]
            },
{
    let ghost a0 = assignment@;
    let mut v: usize = 0;
    while v < assignment.len()
        invariant
            assignment@.len() == a0.len(),
            0 <= v <= a0.len(),
            forall|w: int| 0 <= w < v ==> #[trigger] assignment@[w] == if a0[w] == u32::MAX {
                0
            } else {
                a0[w]
            },
            forall|w: int| v <= w < a0.len() ==> #[trigger] assignment@[w] == a0[w],
        decreases a0.len() - v,
    {
        if assignment[v] == u32::MAX {
            assignment.set(v, 0);
        }
        v += 1;
    }
}

/// Two parts grown from seed `sa` (part 0) and seed `sb` (part 1).
pub open spec fn grown_from_pair(g: GraphView, sa: usize, sb: usize) -> Seq<u32> {
    grow_spec(g, 2, seq![sa, sb])
}

/// How often `GrowBisect` redraws its second seed when it hits the first.
pub const REDRAW_LIMIT: usize = 64;

/// Whether `s` holds `v`.
fn holds(s: &Vec<usize>, v: usize) -> (r: bool)
    ensures
        r == s@.contains(v),
{
    let mut i: usize = 0;
    while i < s.len()
        invariant
            0 <= i <= s@.len(),
            forall|t: int| 0 <= t < i ==> s@[t] != v,
        decreases s@.len() - i,
    {
        if s[i] == v {
            return true;
        }
        i += 1;
    }
    false
}

/// The indices below `n`, as a set.
spec fn indices_below(n: nat) -> Set<usize> {
    Set::new(|w: usize| (w as int) < n)
}

/// There are `n` indices below `n`.
proof fn lemma_indices_below_len(n: nat)
    requires
        n <= usize::MAX,
    ensures
        indices_below(n).finite(),
        indices_below(n).len() == n,
    decreases n,
{
    if n == 0 {
        assert(indices_below(n) =~= Set::<usize>::empty());
    } else {
        let m = (n - 1) as nat;
        lemma_indices_below_len(m);
        assert(indices_below(n) =~= indices_below(m).insert(m as usize));
        assert(!indices_below(m).contains(m as usize));
    }
}

/// A sequence without repeats that holds every index below `n` has at
/// least `n` entries.
proof fn lemma_covering_len(s: Seq<usize>, n: nat)
    requires
        n <= usize::MAX,
        s.no_duplicates(),
        forall|w: usize| (w as int) < n ==> #[trigger] s.contains(w),
    ensures
        s.len() >= n,
{
    lemma_indices_below_len(n);
    s.lemma_cardinality_of_set();
    assert(indices_below(n).subset_of(s.to_set()));
    vstd::set_lib::lemma_len_subset(indices_below(n), s.to_set());
}

/// Pick `k` seed vertices: up to `10 * n` uniform draws, keeping each new
/// vertex; then the smallest vertices not yet picked; and, only when `k`
/// exceeds `n`, repeats.
fn pick_seeds(rng: &mut rand_pcg::Lcg128Xsl64, n: usize, k: usize) -> (seeds: Vec<usize>)
    requires
        n >= 1,
    ensures
        seeds@.len() == k,
        forall|t: int| 0 <= t < k ==> (#[trigger] seeds@[t] as int) < n,
        k <= n ==> seeds@.no_duplicates(),
{
    let mut seeds: Vec<usize> = Vec::new();
    let limit: usize = match n.checked_mul(10) {
        Some(l) => l,
        None => usize::MAX,
    };
    let mut attempts: usize = 0;
    while seeds.len() < k && attempts < limit
        invariant
            n >= 1,
            seeds@.len() <= k,
            forall|t: int| 0 <= t < seeds@.len() ==> (#[trigger] seeds@[t] as int) < n,
            seeds@.no_duplicates(),
        decreases limit - attempts,
    {
        let v = random_up_to(rng, n - 1);
        if !holds(&seeds, v) {
            seeds.push(v);
        }
        attempts += 1;
    }
    while seeds.len() < k
        invariant
            n >= 1,
            seeds@.len() <= k,
            forall|t: int| 0 <= t < seeds@.len() ==> (#[trigger] seeds@[t] as int) < n,
            k <= n ==> seeds@.no_duplicates(),
        decreases k - seeds@.len(),
    {
        let len0 = seeds.len();
        let mut v: usize = 0;
        while v < n && seeds.len() < k
            invariant
                n >= 1,
                0 <= v <= n,
                len0 <= seeds@.len() <= k,
                forall|t: int| 0 <= t < seeds@.len() ==> (#[trigger] seeds@[t] as int) < n,
                k <= n ==> seeds@.no_duplicates(),
                forall|w: usize| w < v ==> #[trigger] seeds@.contains(w),
            decreases n - v,
        {
            if !holds(&seeds, v) {
                proof {
                    assert forall|w: usize| w < v + 1 implies #[trigger] seeds@.push(v).contains(w) by {
                        if w < v {
                            assert(seeds@.contains(w));
                            let t = choose|t: int| 0 <= t < seeds@.len() && seeds@[t] == w;
                            assert(seeds@.push(v)[t] == w);
                        } else {
                            assert(seeds@.push(v)[seeds@.len() as int] == w);
                        }
                    }
                }
                seeds.push(v);
            }
            v += 1;
        }
        if seeds.len() < k {
            proof {
                if k <= n {
                    lemma_covering_len(seeds@, n as nat);
                }
            }
            seeds.push(seeds.len() % n);
        }
    }
    seeds
}

/// Entries still waiting in the first `upto` queues.
spec fn backlog(qs: Seq<Vec<usize>>, hs: Seq<usize>, upto: int) -> int
    decreases upto,
{
    if upto <= 0 {
        0
    } else {
        backlog(qs, hs, upto - 1) + (qs[upto - 1]@.len() - hs[upto - 1])
    }
}

/// Replacing one queue and its head changes the backlog by the difference.
proof fn lemma_backlog_update(qs: Seq<Vec<usize>>, hs: Seq<usize>, upto: int, i: int, q: Vec<usize>, h: usize)
    requires
        0 <= i < upto <= qs.len(),
        upto <= hs.len(),
    ensures
        backlog(qs.update(i, q), hs.update(i, h), upto) == backlog(qs, hs, upto) - (qs[i]@.len() - hs[i])
            + (q@.len() - h),
    decreases upto,
{
    if upto - 1 != i {
        lemma_backlog_update(qs, hs, upto - 1, i, q, h);
    } else {
        lemma_backlog_same(qs, hs, upto - 1, i, q, h);
    }
}

/// Queues past `upto` do not count.
proof fn lemma_backlog_same(qs: Seq<Vec<usize>>, hs: Seq<usize>, upto: int, i: int, q: Vec<usize>, h: usize)
    requires
        0 <= upto <= i < qs.len(),
        i < hs.len(),
    ensures
        backlog(qs.update(i, q), hs.update(i, h), upto) == backlog(qs, hs, upto),
    decreases upto,
{
    if upto > 0 {
        lemma_backlog_same(qs, hs, upto - 1, i, q, h);
    }
}

/// The backlog is never negative while heads stay within their queues.
proof fn lemma_backlog_nonneg(qs: Seq<Vec<usize>>, hs: Seq<usize>, upto: int)
    requires
        0 <= upto <= qs.len(),
        upto <= hs.len(),
        forall|p: int| 0 <= p < upto ==> (#[trigger] hs[p]) <= qs[p]@.len(),
    ensures
        backlog(qs, hs, upto) >= 0,
    decreases upto,
{
    if upto > 0 {
        lemma_backlog_nonneg(qs, hs, upto - 1);
    }
}

/// Whether every queue has been taken to its end.
fn all_taken(queues: &Vec<Vec<usize>>, heads: &Vec<usize>) -> (r: bool)
    requires
        queues@.len() == heads@.len(),
    ensures
        r == forall|p: int| 0 <= p < queues@.len() ==> (#[trigger] heads@[p]) >= queues@[p]@.len(),
{
    let mut p: usize = 0;
    while p < queues.len()
        invariant
            queues@.len() == heads@.len(),
            0 <= p <= queues@.len(),
            forall|q: int| 0 <= q < p ==> (#[trigger] heads@[q]) >= queues@[q]@.len(),
        decreases queues@.len() - p,
    {
        if heads[p] < queues[p].len() {
            return false;
        }
        p += 1;
    }
    true
}

/// Vertex `v` sits in the queue of part `p`.
pub open spec fn queued(qs: Seq<Vec<usize>>, p: int, v: int) -> bool {
    exists|t: int| 0 <= t < qs[p]@.len() && qs[p]@[t] as int == v
}

/// A claimed vertex sits in the queue of its part.
pub open spec fn listed(a: Seq<u32>, qs: Seq<Vec<usize>>, v: int) -> bool {
    a[v] != u32::MAX ==> queued(qs, a[v] as int, v)
}

/// A claimed vertex can be reached from its part's seed through its part.
pub open spec fn grown(g: GraphView, a: Seq<u32>, seeds: Seq<usize>, v: int) -> bool {
    a[v] != u32::MAX ==> g.topo().reaches(part_mask(a, a[v], g.n()), seeds[a[v] as int] as int, v)
}

/// What breadth-first growth keeps: queued vertices belong to their part,
/// claimed vertices are queued, vertices already taken off a queue have all
/// their neighbours claimed, and every claimed vertex is reachable from its
/// part's seed inside its part.
pub open spec fn grow_state(g: GraphView, a: Seq<u32>, qs: Seq<Vec<usize>>, hs: Seq<usize>, seeds: Seq<usize>, k: int) -> bool {
    &&& forall|p: int, t: int| 0 <= p < k && 0 <= t < qs[p]@.len() ==> a[#[trigger] qs[p]@[t] as int] == p
    &&& forall|v: int| 0 <= v < g.n() ==> #[trigger] listed(a, qs, v)
    &&& forall|p: int, t: int| 0 <= p < k && 0 <= t < hs[p] ==> taken_closed(g, a, #[trigger] qs[p]@[t] as int)
    &&& forall|v: int| 0 <= v < g.n() ==> #[trigger] grown(g, a, seeds, v)
}

/// Claiming more vertices keeps the earlier ones' parts reachable.
proof fn lemma_mask_grows(g: GraphView, a: Seq<u32>, b: Seq<u32>, p: u32)
    requires
        a.len() == g.n(),
        b.len() == g.n(),
        forall|w: int| 0 <= w < g.n() && a[w] != u32::MAX ==> #[trigger] b[w] == a[w],
        p != u32::MAX,
    ensures
        forall|i: int| 0 <= i < g.n() && #[trigger] part_mask(a, p, g.n())[i] ==> part_mask(b, p, g.n())[i],
{
}

/// One growth step keeps the growth state.
proof fn lemma_grow_step(
    g: GraphView,
    a: Seq<u32>,
    b: Seq<u32>,
    qs: Seq<Vec<usize>>,
    hs: Seq<usize>,
    q2: Vec<usize>,
    h2: usize,
    seeds: Seq<usize>,
    k: int,
    p: int,
    popped: bool,
)
    requires
        g.sound(),
        a.len() == g.n(),
        b.len() == g.n(),
        qs.len() == k,
        hs.len() == k,
        0 <= p < k,
        k <= u32::MAX,
        seeds.len() == k,
        forall|pp: int| 0 <= pp < k ==> (#[trigger] hs[pp]) <= qs[pp]@.len(),
        forall|pp: int, t: int| 0 <= pp < k && 0 <= t < qs[pp]@.len() ==> (#[trigger] qs[pp]@[t] as int) < g.n(),
        grow_state(g, a, qs, hs, seeds, k),
        forall|w: int| 0 <= w < g.n() ==> (#[trigger] a[w] == u32::MAX || a[w] < k),
        popped == (hs[p] < qs[p]@.len()),
        h2 == hs[p] + (if popped { 1int } else { 0int }),
        !popped ==> b == a && q2@ == qs[p]@,
        q2@.subrange(0, qs[p]@.len() as int) == qs[p]@,
        q2@.len() >= qs[p]@.len(),
        popped ==> taken_closed(g, b, qs[p]@[hs[p] as int] as int),
        forall|t: int|
            qs[p]@.len() <= t < q2@.len() ==> grown_from(g, a, b, qs[p]@[hs[p] as int] as int, #[trigger] q2@[t] as int, p as u32),
        forall|w: int| 0 <= w < g.n() && #[trigger] b[w] != a[w] ==> fresh_in(q2@, qs[p]@.len() as int, w),
        forall|w: int| 0 <= w < g.n() && a[w] != u32::MAX ==> #[trigger] b[w] == a[w],
        forall|w: int| 0 <= w < g.n() ==> #[trigger] b[w] == a[w] || b[w] == p as u32,
    ensures
        grow_state(g, b, qs.update(p, q2), hs.update(p, h2), seeds, k),
{
    let qs2 = qs.update(p, q2);
    let hs2 = hs.update(p, h2);
    let q = qs[p]@;
    assert forall|pp: int, t: int| 0 <= pp < k && 0 <= t < qs2[pp]@.len() implies b[#[trigger] qs2[pp]@[t] as int] == pp by {
        if pp != p {
            assert(a[qs[pp]@[t] as int] == pp);
        } else if t < q.len() {
            assert(q2@[t] == q[t]);
            assert(a[q[t] as int] == pp);
        } else {
            assert(grown_from(g, a, b, q[hs[p] as int] as int, q2@[t] as int, p as u32));
        }
    }
    assert forall|v: int| 0 <= v < g.n() implies #[trigger] listed(b, qs2, v) by {
        if b[v] != u32::MAX {
            if a[v] != u32::MAX {
                assert(listed(a, qs, v));
                let pv = a[v] as int;
                let t = choose|t: int| 0 <= t < qs[pv]@.len() && qs[pv]@[t] as int == v;
                if pv == p {
                    assert(q2@[t] == q[t]);
                } else {
                    assert(qs2[pv] == qs[pv]);
                }
                assert(qs2[pv]@[t] as int == v);
            } else {
                assert(b[v] != a[v]);
                let t = choose|t: int| q.len() <= t < q2@.len() && q2@[t] as int == v;
                assert(b[v] == p as u32);
                assert(qs2[p]@[t] as int == v);
            }
        }
    }
    assert forall|pp: int, t: int| 0 <= pp < k && 0 <= t < hs2[pp] implies taken_closed(g, b, #[trigger] qs2[pp]@[t] as int) by {
        let x = qs2[pp]@[t] as int;
        if pp != p || t < hs[p] {
            if pp == p {
                assert(q2@[t] == q[t]);
            }
            assert(taken_closed(g, a, x));
            assert forall|j: int| g.lo(x) <= j < g.hi(x) implies b[#[trigger] g.nbr(j)] != u32::MAX by {
                assert(a[g.nbr(j)] != u32::MAX);
                assert(0 <= g.nbr(j) < g.n()) by {
                    assert(0 <= x < g.n());
                    assert(g.xadj[x] <= g.xadj[x + 1] <= g.xadj[g.n()]);
                }
            }
        } else {
            assert(t == hs[p] as int);
            assert(q2@[t] == q[t]);
        }
    }
    assert forall|v: int| 0 <= v < g.n() implies #[trigger] grown(g, b, seeds, v) by {
        if b[v] != u32::MAX {
            let pv = b[v];
            lemma_mask_grows(g, a, b, pv);
            if a[v] != u32::MAX {
                assert(grown(g, a, seeds, v));
                lemma_reaches_widen(g.topo(), part_mask(a, pv, g.n()), part_mask(b, pv, g.n()), seeds[pv as int] as int, v);
            } else {
                assert(b[v] != a[v]);
                let t = choose|t: int| q.len() <= t < q2@.len() && q2@[t] as int == v;
                assert(popped);
                let x = q[hs[p] as int] as int;
                assert(grown_from(g, a, b, x, v, p as u32));
                assert(pv == p as u32);
                assert(a[x] == p);
                assert(grown(g, a, seeds, x));
                lemma_reaches_widen(g.topo(), part_mask(a, pv, g.n()), part_mask(b, pv, g.n()), seeds[p] as int, x);
                let j = choose|j: int| g.topo().lo(x) <= j < g.topo().hi(x) && #[trigger] g.topo().nbr(j) == v;
                assert(part_mask(b, pv, g.n())[v]);
                lemma_reaches_extend(g.topo(), part_mask(b, pv, g.n()), seeds[p] as int, x, j);
            }
        }
    }
}

/// Breadth-first growth in progress: the assignment (`u32::MAX` where
/// unclaimed), each part's queue and the position of its next vertex, how
/// many vertices are unclaimed, and whether growth goes on.
pub struct GrowState {
    pub a: Seq<u32>,
    pub qs: Seq<Seq<usize>>,
    pub hs: Seq<usize>,
    pub left: int,
    pub running: bool,
}

/// The growth state held by the executable variables.
pub open spec fn grow_view(a: Seq<u32>, queues: Seq<Vec<usize>>, heads: Seq<usize>, left: usize, running: bool) -> GrowState {
    GrowState { a, qs: Seq::new(queues.len(), |i: int| queues[i]@), hs: heads, left: left as int, running }
}

/// The same state with growth stopped.
pub open spec fn stopped(st: GrowState) -> GrowState {
    GrowState { a: st.a, qs: st.qs, hs: st.hs, left: st.left, running: false }
}

/// Placing the seeds of parts `0..p` on an unclaimed graph of `n` vertices:
/// a seed still unclaimed goes to its part and starts its queue; a seed that
/// an earlier part took leaves the part's queue empty.
pub open spec fn seeded_state(n: int, seeds: Seq<usize>, p: int) -> GrowState
    decreases p,
{
    if p <= 0 {
        GrowState {
            a: Seq::new(n as nat, |v: int| u32::MAX),
            qs: Seq::empty(),
            hs: Seq::empty(),
            left: n,
            running: true,
        }
    } else {
        let st = seeded_state(n, seeds, p - 1);
        let sv = seeds[p - 1] as int;
        if st.a[sv] == u32::MAX {
            GrowState {
                a: st.a.update(sv, (p - 1) as u32),
                qs: st.qs.push(seq![seeds[p - 1]]),
                hs: st.hs.push(0usize),
                left: st.left - 1,
                running: true,
            }
        } else {
            GrowState { a: st.a, qs: st.qs.push(Seq::empty()), hs: st.hs.push(0usize), left: st.left, running: true }
        }
    }
}

/// Part `p` takes the next vertex off its queue, if any, and claims its
/// unclaimed neighbours (`scan_spec`).
pub open spec fn expand_spec(g: GraphView, st: GrowState, p: int) -> GrowState {
    if st.hs[p] >= st.qs[p].len() {
        st
    } else {
        let v = st.qs[p][st.hs[p] as int] as int;
        let (a, q, left) = scan_spec(g, st.a, st.qs[p], st.left, p as u32, g.lo(v), g.hi(v));
        GrowState {
            a,
            qs: st.qs.update(p, q),
            hs: st.hs.update(p, (st.hs[p] + 1) as usize),
            left,
            running: st.running,
        }
    }
}

/// Every queue of the first `k` parts is used up.
pub open spec fn queues_done(st: GrowState, k: int) -> bool {
    forall|p: int| 0 <= p < k ==> (#[trigger] st.hs[p]) >= st.qs[p].len()
}

/// Part `p`'s turn: growth stops when nothing is left unclaimed; otherwise
/// the part expands, and growth stops once every queue is used up.
pub open spec fn turn_spec(g: GraphView, st: GrowState, p: int, k: int) -> GrowState {
    if st.left == 0 {
        stopped(st)
    } else {
        let s1 = expand_spec(g, st, p);
        if queues_done(s1, k) {
            stopped(s1)
        } else {
            s1
        }
    }
}

/// The turns of parts `p..k` in order, while growth goes on.
pub open spec fn round_spec(g: GraphView, st: GrowState, p: int, k: int) -> GrowState
    decreases k - p,
{
    if p >= k || !st.running {
        st
    } else {
        round_spec(g, turn_spec(g, st, p, k), p + 1, k)
    }
}

/// Up to `fuel` rounds, while growth goes on.
pub open spec fn rounds_spec(g: GraphView, st: GrowState, fuel: nat, k: int) -> GrowState
    decreases fuel,
{
    if fuel == 0 || !st.running {
        st
    } else {
        rounds_spec(g, round_spec(g, st, 0, k), (fuel - 1) as nat, k)
    }
}

/// What `grow_from_seeds` gives: the seeds placed, rounds of turns until
/// growth stops (it stops within `n + 1` rounds), and every vertex left
/// unclaimed given to part 0.
pub open spec fn grow_spec(g: GraphView, k: int, seeds: Seq<usize>) -> Seq<u32> {
    let st = rounds_spec(g, seeded_state(g.n(), seeds, k), (g.n() + 1) as nat, k);
    Seq::new(g.n() as nat, |v: int| if st.a[v] == u32::MAX { 0u32 } else { st.a[v] })
}

/// Grow `k` parts breadth-first from `seeds[p]` (part `p`), the parts taking
/// one vertex off their queues in turn (part 0, 1, ..., k - 1, 0, ...), until
/// every vertex is claimed or no part can grow; a seed already claimed by an
/// earlier part is skipped, and vertices never reached go to part 0. With
/// distinct seeds every seed stays in its own part.
pub fn grow_from_seeds(g: &CsrGraph, k: u32, seeds: &Vec<usize>) -> (r: Vec<u32>)
    requires
        g@.sound(),
        g@.n() >= 1,
        k >= 1,
        seeds@.len() == k,
        forall|t: int| 0 <= t < k ==> (#[trigger] seeds@[t] as int) < g@.n(),
    ensures
        r@.len() == g@.n(),
        forall|v: int| 0 <= v < g@.n() ==> #[trigger] r@[v] < k,
        seeds@.no_duplicates() ==> forall|p: int| 0 <= p < k ==> r@[#[trigger] seeds@[p] as int] == p,
        g@.valid() ==> forall|p: int| 0 <= p < k ==> #[trigger] part_contiguous(g@, r@, p as u32),
        r@ == grow_spec(g@, k as int, seeds@),
{
    let ghost gv = g@;
    let n = g.n();
    let ku = k as usize;
    let ghost distinct = seeds@.no_duplicates();
    let mut a: Vec<u32> = vec![u32::MAX; n];
    let mut queues: Vec<Vec<usize>> = Vec::new();
    let mut heads: Vec<usize> = Vec::new();
    let mut unclaimed: usize = n;
    proof {
        assert(a@ =~= Seq::new(n as nat, |v: int| u32::MAX));
        lemma_none_claimed(n as nat);
        assert(grow_view(a@, queues@, heads@, unclaimed, true).qs =~= Seq::<Seq<usize>>::empty());
        assert(heads@ =~= Seq::<usize>::empty());
    }
    let mut part: usize = 0;
    while part < ku
        invariant
            gv == g@,
            n == gv.n(),
            n >= 1,
            ku == k,
            seeds@.len() == k,
            forall|t: int| 0 <= t < k ==> (#[trigger] seeds@[t] as int) < n,
            distinct == seeds@.no_duplicates(),
            0 <= part <= ku,
            a@.len() == n,
            queues@.len() == part,
            heads@.len() == part,
            forall|p: int| 0 <= p < part ==> #[trigger] heads@[p] == 0,
            forall|p: int, t: int|
                0 <= p < part && 0 <= t < queues@[p]@.len() ==> (#[trigger] queues@[p]@[t] as int) < n,
            backlog(queues@, heads@, part as int) == n_claimed(a@),
            unclaimed + n_claimed(a@) == n,
            forall|v: int| 0 <= v < n ==> (#[trigger] a@[v] == u32::MAX || a@[v] < k),
            forall|v: int| 0 <= v < n && a@[v] != u32::MAX ==> (#[trigger] a@[v] as int) < part,
            part >= 1 ==> heads@[0] < queues@[0]@.len(),
            distinct ==> forall|p: int| 0 <= p < part ==> a@[#[trigger] seeds@[p] as int] == p,
            forall|v: int| 0 <= v < n && a@[v] != u32::MAX ==> seeds@[#[trigger] a@[v] as int] == v,
            forall|p: int|
                0 <= p < part ==> (#[trigger] queues@[p])@ == if a@[seeds@[p] as int] == p as u32 {
                    seq![seeds@[p]]
                } else {
                    Seq::<usize>::empty()
                },
            part >= 1 ==> a@[seeds@[0] as int] == 0,
            grow_view(a@, queues@, heads@, unclaimed, true) == seeded_state(n as int, seeds@, part as int),
        decreases ku - part,
    {
        let sv = seeds[part];
        let ghost qs0 = queues@;
        let ghost hs0 = heads@;
        let ghost a0_seed = a@;
        let ghost u0_seed = unclaimed;
        if a[sv] == u32::MAX {
            proof {
                lemma_claim(a@, sv as int, part as u32);
            }
            a.set(sv, part as u32);
            unclaimed = unclaimed - 1;
            queues.push(vec![sv]);
        } else {
            proof {
                if distinct {
                    let p = a@[sv as int] as int;
                    assert(seeds@[p] == sv);
                    assert(p < part);
                    assert(false);
                }
            }
            queues.push(Vec::new());
        }
        heads.push(0);
        proof {
            assert forall|p: int| 0 <= p < part + 1 implies (#[trigger] queues@[p])@ == if a@[seeds@[p] as int] == p as u32 {
                seq![seeds@[p]]
            } else {
                Seq::<usize>::empty()
            } by {
                if p < part {
                    assert(queues@[p] == qs0[p]);
                    if a@[seeds@[p] as int] != a0_seed[seeds@[p] as int] {
                        assert(seeds@[p] == sv);
                    }
                }
            }
            assert(queues@.subrange(0, part as int) =~= qs0);
            assert(heads@.subrange(0, part as int) =~= hs0);
            lemma_backlog_prefix(queues@, heads@, qs0, hs0, part as int);
        }
        proof {
            let st = seeded_state(n as int, seeds@, part as int);
            let nx = seeded_state(n as int, seeds@, part as int + 1);
            let nv = grow_view(a@, queues@, heads@, unclaimed, true);
            assert(st == grow_view(a0_seed, qs0, hs0, u0_seed, true));
            assert(nv.qs.len() == nx.qs.len());
            assert forall|i: int| 0 <= i < nv.qs.len() implies nv.qs[i] == nx.qs[i] by {
                if i < part {
                    assert(queues@[i] == qs0[i]);
                }
            }
            assert(nv.qs =~= nx.qs);
            assert(nv.hs =~= nx.hs);
            assert(nv.a =~= nx.a);
        }
        part += 1;
    }
    let mut running = true;
    let ghost mut pops: int = 0;
    let ghost st_init = grow_view(a@, queues@, heads@, unclaimed, running);
    let ghost mut rounds: int = 0;
    proof {
        lemma_claimed_bound(a@);
        assert forall|p: int, t: int| 0 <= p < k && 0 <= t < queues@[p]@.len() implies a@[#[trigger] queues@[p]@[t] as int] == p by {
            assert(queues@[p]@ == seq![seeds@[p]]);
        }
        assert forall|v: int| 0 <= v < n implies #[trigger] listed(a@, queues@, v) by {
            if a@[v] != u32::MAX {
                let pv = a@[v] as int;
                assert(seeds@[pv] == v);
                assert(queues@[pv]@ == seq![seeds@[pv]]);
                assert(queues@[pv]@[0] as int == v);
            }
        }
        assert forall|v: int| 0 <= v < n implies #[trigger] grown(gv, a@, seeds@, v) by {
            if a@[v] != u32::MAX {
                assert(seeds@[a@[v] as int] == v);
                lemma_reaches_self(gv.topo(), part_mask(a@, a@[v], n as int), v);
            }
        }
        assert(grow_state(gv, a@, queues@, heads@, seeds@, k as int));
    }
    while running
        invariant
            gv == g@,
            gv.sound(),
            n == gv.n(),
            n >= 1,
            ku == k,
            ku >= 1,
            seeds@.len() == k,
            forall|t: int| 0 <= t < k ==> (#[trigger] seeds@[t] as int) < n,
            distinct == seeds@.no_duplicates(),
            a@.len() == n,
            queues@.len() == ku,
            heads@.len() == ku,
            forall|p: int| 0 <= p < ku ==> (#[trigger] heads@[p]) <= queues@[p]@.len(),
            forall|p: int, t: int|
                0 <= p < ku && 0 <= t < queues@[p]@.len() ==> (#[trigger] queues@[p]@[t] as int) < n,
            pops + backlog(queues@, heads@, ku as int) == n_claimed(a@),
            0 <= pops,
            unclaimed + n_claimed(a@) == n,
            forall|v: int| 0 <= v < n ==> (#[trigger] a@[v] == u32::MAX || a@[v] < k),
            running ==> exists|p: int| 0 <= p < ku && (#[trigger] heads@[p]) < queues@[p]@.len(),
            distinct ==> forall|p: int| 0 <= p < ku ==> a@[#[trigger] seeds@[p] as int] == p,
            grow_state(gv, a@, queues@, heads@, seeds@, k as int),
            a@[seeds@[0] as int] != u32::MAX,
            !running ==> unclaimed == 0 || forall|p: int| 0 <= p < ku ==> (#[trigger] heads@[p]) >= queues@[p]@.len(),
            st_init == seeded_state(n as int, seeds@, k as int),
            0 <= rounds <= pops + 1,
            running ==> rounds <= pops,
            pops <= n,
            rounds_spec(gv, st_init, (n + 1) as nat, k as int) == rounds_spec(
                gv,
                grow_view(a@, queues@, heads@, unclaimed, running),
                (n + 1 - rounds) as nat,
                k as int,
            ),
        decreases n - pops + (if running { 1int } else { 0int }),
    {
        let ghost pops0 = pops;
        let ghost mut popped_any = false;
        let ghost st_r = grow_view(a@, queues@, heads@, unclaimed, running);
        let mut part: usize = 0;
        proof {
            lemma_backlog_nonneg(queues@, heads@, ku as int);
            lemma_claimed_bound(a@);
        }
        while part < ku && running
            invariant
                gv == g@,
                gv.sound(),
                n == gv.n(),
                ku == k,
                seeds@.len() == k,
                forall|t: int| 0 <= t < k ==> (#[trigger] seeds@[t] as int) < n,
                distinct == seeds@.no_duplicates(),
                0 <= part <= ku,
                a@.len() == n,
                queues@.len() == ku,
                heads@.len() == ku,
                forall|p: int| 0 <= p < ku ==> (#[trigger] heads@[p]) <= queues@[p]@.len(),
                forall|p: int, t: int|
                    0 <= p < ku && 0 <= t < queues@[p]@.len() ==> (#[trigger] queues@[p]@[t] as int) < n,
                pops + backlog(queues@, heads@, ku as int) == n_claimed(a@),
                pops >= pops0,
                popped_any ==> pops > pops0,
                st_r.running,
                round_spec(gv, st_r, 0, k as int) == round_spec(
                    gv,
                    grow_view(a@, queues@, heads@, unclaimed, running),
                    part as int,
                    k as int,
                ),
                unclaimed + n_claimed(a@) == n,
                forall|v: int| 0 <= v < n ==> (#[trigger] a@[v] == u32::MAX || a@[v] < k),
                running ==> exists|p: int| 0 <= p < ku && (#[trigger] heads@[p]) < queues@[p]@.len(),
                running ==> popped_any || exists|p: int| part <= p < ku && (#[trigger] heads@[p]) < queues@[p]@.len(),
                distinct ==> forall|p: int| 0 <= p < ku ==> a@[#[trigger] seeds@[p] as int] == p,
                grow_state(gv, a@, queues@, heads@, seeds@, k as int),
                a@[seeds@[0] as int] != u32::MAX,
                !running ==> unclaimed == 0 || forall|p: int| 0 <= p < ku ==> (#[trigger] heads@[p]) >= queues@[p]@.len(),
            decreases ku - part,
        {
            let ghost vb = grow_view(a@, queues@, heads@, unclaimed, running);
            if unclaimed == 0 {
                running = false;
                proof {
                    assert(grow_view(a@, queues@, heads@, unclaimed, running) == turn_spec(gv, vb, part as int, k as int));
                }
            } else {
                let ghost qs0 = queues@;
                let ghost hs0 = heads@;
                let ghost a0 = a@;
                let mut q: Vec<usize> = Vec::new();
                queues.set_and_swap(part, &mut q);
                let ghost q_in = q@;
                let mut h = heads[part];
                let popped = expand_front(g, &mut a, &mut q, &mut h, part as u32, &mut unclaimed);
                let ghost q_out = q@;
                queues.set_and_swap(part, &mut q);
                heads.set(part, h);
                proof {
                    let s1 = expand_spec(gv, vb, part as int);
                    assert(q_in == qs0[part as int]@);
                    assert(vb.qs[part as int] == q_in);
                    assert(queues@[part as int]@ == q_out);
                    let nv = grow_view(a@, queues@, heads@, unclaimed, running);
                    assert(nv.qs.len() == s1.qs.len());
                    assert forall|i: int| 0 <= i < nv.qs.len() implies nv.qs[i] == s1.qs[i] by {
                        if i != part {
                            assert(queues@[i] == qs0[i]);
                        }
                    }
                    assert(nv.qs =~= s1.qs);
                    assert(nv.hs =~= s1.hs);
                    assert(nv == s1);
                }
                proof {
                    assert(queues@ == qs0.update(part as int, queues@[part as int]));
                    assert(heads@ == hs0.update(part as int, h));
                    lemma_grow_step(gv, a0, a@, qs0, hs0, queues@[part as int], h, seeds@, k as int, part as int, popped);
                    lemma_backlog_update(qs0, hs0, ku as int, part as int, queues@[part as int], h);
                    if popped {
                        pops = pops + 1;
                        popped_any = true;
                    }
                    assert forall|p: int| 0 <= p < ku && p != part implies (#[trigger] heads@[p]) == hs0[p]
                        && queues@[p] == qs0[p] by {}
                    assert forall|p: int| 0 <= p < ku && distinct implies a@[#[trigger] seeds@[p] as int] == p by {
                        assert(a0[seeds@[p] as int] == p);
                    }
                    if !popped_any {
                        let w = choose|p: int| part <= p < ku && (#[trigger] hs0[p]) < qs0[p]@.len();
                        assert(w != part);
                        assert(heads@[w] < queues@[w]@.len());
                    }
                }
                let done = all_taken(&queues, &heads);
                proof {
                    let nv = grow_view(a@, queues@, heads@, unclaimed, running);
                    assert(done == queues_done(nv, k as int)) by {
                        if done {
                            assert forall|p: int| 0 <= p < k implies (#[trigger] nv.hs[p]) >= nv.qs[p].len() by {
                                assert(heads@[p] >= queues@[p]@.len());
                            }
                        }
                        if queues_done(nv, k as int) {
                            assert forall|p: int| 0 <= p < queues@.len() implies (#[trigger] heads@[p]) >= queues@[p]@.len() by {
                                assert(nv.hs[p] >= nv.qs[p].len());
                            }
                        }
                    }
                }
                if done {
                    running = false;
                }
                proof {
                    assert(grow_view(a@, queues@, heads@, unclaimed, running) == turn_spec(gv, vb, part as int, k as int));
                }
            }
            part += 1;
        }
        proof {
            lemma_backlog_nonneg(queues@, heads@, ku as int);
            lemma_claimed_bound(a@);
            assert(rounds_spec(gv, st_r, (n + 1 - rounds) as nat, k as int) == rounds_spec(
                gv,
                round_spec(gv, st_r, 0, k as int),
                (n + 1 - rounds - 1) as nat,
                k as int,
            ));
            rounds = rounds + 1;
        }
    }
    proof {
        if gv.valid() {
            lemma_grown_everywhere(gv, a@, queues@, heads@, seeds@, k as int, unclaimed as int);
        }
    }
    let ghost before_rest = a@;
    claim_rest(&mut a);
    proof {
        let fin = rounds_spec(gv, st_init, (n + 1) as nat, k as int);
        assert(fin.a == before_rest);
        assert(a@ =~= grow_spec(gv, k as int, seeds@));
        if gv.valid() {
            assert(a@ =~= before_rest);
            assert forall|p: int| 0 <= p < k implies #[trigger] part_contiguous(gv, a@, p as u32) by {
                lemma_grown_contiguous(gv, a@, queues@, heads@, seeds@, k as int, p);
            }
        }
    }
    a
}

/// Once growth stops on a valid graph, every vertex has been claimed.
proof fn lemma_grown_everywhere(
    g: GraphView,
    a: Seq<u32>,
    qs: Seq<Vec<usize>>,
    hs: Seq<usize>,
    seeds: Seq<usize>,
    k: int,
    unclaimed: int,
)
    requires
        g.valid(),
        a.len() == g.n(),
        qs.len() == k,
        hs.len() == k,
        seeds.len() == k,
        k >= 1,
        (seeds[0] as int) < g.n(),
        forall|w: int| 0 <= w < g.n() ==> (#[trigger] a[w] == u32::MAX || a[w] < k),
        grow_state(g, a, qs, hs, seeds, k),
        a[seeds[0] as int] != u32::MAX,
        unclaimed + n_claimed(a) == g.n(),
        unclaimed == 0 || forall|p: int| 0 <= p < k ==> (#[trigger] hs[p]) >= qs[p]@.len(),
    ensures
        forall|v: int| 0 <= v < g.n() ==> #[trigger] a[v] != u32::MAX,
{
    if unclaimed == 0 {
        lemma_all_claimed(a);
    } else {
        crate::graph::csr::lemma_valid_facts(g);
        crate::graph::csr::lemma_topo_symmetric(g);
        let t = g.topo();
        let all = t.everywhere();
        let marked = claimed(a);
        assert forall|v: int| 0 <= v < t.n() && #[trigger] marked[v] implies t.closed_at(marked, all, v) by {
            assert(listed(a, qs, v));
            let pv = a[v] as int;
            let i = choose|i: int| 0 <= i < qs[pv]@.len() && qs[pv]@[i] as int == v;
            assert(hs[pv] >= qs[pv]@.len());
            assert(taken_closed(g, a, qs[pv]@[i] as int));
            assert forall|j: int| t.lo(v) <= j < t.hi(v) && all[#[trigger] t.nbr(j)] implies marked[t.nbr(j)] by {
                assert(g.lo(v) <= j < g.hi(v));
                assert(a[g.nbr(j)] != u32::MAX);
            }
        }
        let s0 = seeds[0] as int;
        assert(t.reaches(all, 0, s0));
        lemma_reaches_reverse(t, all, 0, s0);
        lemma_closed_contains_reachable(t, marked, all, s0, 0);
        assert forall|v: int| 0 <= v < g.n() implies #[trigger] a[v] != u32::MAX by {
            assert(t.reaches(all, 0, v));
            lemma_closed_contains_reachable(t, marked, all, 0, v);
        }
    }
}

/// On a valid graph a fully claimed growth state has contiguous parts.
proof fn lemma_grown_contiguous(
    g: GraphView,
    a: Seq<u32>,
    qs: Seq<Vec<usize>>,
    hs: Seq<usize>,
    seeds: Seq<usize>,
    k: int,
    p: int,
)
    requires
        g.valid(),
        a.len() == g.n(),
        0 <= p < k,
        k <= u32::MAX,
        grow_state(g, a, qs, hs, seeds, k),
    ensures
        part_contiguous(g, a, p as u32),
{
    crate::graph::csr::lemma_valid_facts(g);
    crate::graph::csr::lemma_topo_symmetric(g);
    let t = g.topo();
    let mask = part_mask(a, p as u32, g.n());
    let mem = members_upto(a, p as u32, g.n());
    lemma_members_props(a, p as u32, g.n());
    if mem.len() > 0 {
        let first = mem[0];
        assert(a[first] == p as u32);
        assert(grown(g, a, seeds, first));
        let s = seeds[p] as int;
        assert(t.reaches(mask, s, first));
        lemma_reaches_reverse(t, mask, s, first);
        assert forall|v: int| 0 <= v < g.n() && a[v] == p as u32 implies #[trigger] t.reaches(mask, first, v) by {
            assert(grown(g, a, seeds, v));
            lemma_reaches_trans(t, mask, first, s, v);
        }
    }
}

/// The backlog of a prefix depends only on that prefix.
proof fn lemma_backlog_prefix(qs: Seq<Vec<usize>>, hs: Seq<usize>, qs0: Seq<Vec<usize>>, hs0: Seq<usize>, upto: int)
    requires
        0 <= upto <= qs.len(),
        upto <= hs.len(),
        qs.subrange(0, upto) == qs0,
        hs.subrange(0, upto) == hs0,
    ensures
        backlog(qs, hs, upto) == backlog(qs0, hs0, upto),
    decreases upto,
{
    if upto > 0 {
        assert(qs.subrange(0, upto - 1) =~= qs0.subrange(0, upto - 1));
        assert(hs.subrange(0, upto - 1) =~= hs0.subrange(0, upto - 1));
        lemma_backlog_prefix(qs, hs, qs0.subrange(0, upto - 1), hs0.subrange(0, upto - 1), upto - 1);
        lemma_backlog_prefix(qs0, hs0, qs0.subrange(0, upto - 1), hs0.subrange(0, upto - 1), upto - 1);
        assert(qs[upto - 1] == qs0[upto - 1]);
        assert(hs[upto - 1] == hs0[upto - 1]);
    }
}

/// Grows two parts from two random seeds (distinct whenever the graph has
/// two vertices); for more parts it grows them as `GrowKway` does.
pub struct GrowBisect;

/// Grows `k` parts breadth-first from `k` random seed vertices.
pub struct GrowKway;

/// `GrowKway` on `k >= 2` parts of a non-empty graph.
fn grow_kway(g: &CsrGraph, k: u32, seed: u64) -> (r: Partition)
    requires
        g@.sound(),
        g@.n() >= 1,
        k >= 1,
    ensures
        r@.fits(g@),
        r@.k == k,
        r@.tpwgts is None,
        k <= g@.n() ==> all_parts_present(r@.assignment, k as int),
        g@.valid() ==> contiguity_result(g@, r@) is Ok,
        exists|seeds: Seq<usize>|
            seeds.len() == k && (forall|t: int| 0 <= t < k ==> (#[trigger] seeds[t] as int) < g@.n()) && (k <= g@.n()
                ==> seeds.no_duplicates()) && r@.assignment == #[trigger] grow_spec(g@, k as int, seeds),
{
    let n = g.n();
    let mut rng = seeded_rng(seed);
    let seeds = pick_seeds(&mut rng, n, k as usize);
    let a = grow_from_seeds(g, k, &seeds);
    proof {
        if k <= n {
            assert forall|p: int| 0 <= p < k implies #[trigger] part_present(a@, p) by {
                assert(a@[seeds@[p] as int] == p);
            }
        }
    }
    let r = Partition::from_parts(a, k, None);
    proof {
        assert(r@.assignment == grow_spec(g@, k as int, seeds@));
        if g@.valid() {
            assert(partition_check(r@, g@) is Ok);
            lemma_contiguous_ok(g@, r@);
        }
    }
    r
}

/// One part on a valid graph passes the contiguity check.
proof fn lemma_single_part_ok(g: GraphView, r: Partition)
    requires
        g.valid(),
        r@.k == 1,
        r@.assignment == Seq::new(g.n() as nat, |v: int| 0u32),
        r@.tpwgts is None,
    ensures
        contiguity_result(g, r@) is Ok,
{
    lemma_single_part_contiguous(g);
    assert(partition_check(r@, g) is Ok);
    assert forall|q: int| 0 <= q < r@.k implies #[trigger] part_contiguous(g, r@.assignment, q as u32) by {
        assert(q == 0);
    }
    lemma_contiguous_ok(g, r@);
}

impl InitialPartitioner for GrowKway {
    /// One part for `k == 1`; otherwise `k` parts grown breadth-first
    /// (`grow_spec`) from seed vertices drawn from `seed`, distinct when
    /// there are enough vertices.
    fn partition(&self, g: &CsrGraph, k: u32, seed: u64) -> (r: Partition)
        ensures
            k <= g@.n() ==> all_parts_present(r@.assignment, k as int),
            g@.valid() ==> contiguity_result(g@, r@) is Ok,
            k >= 2 ==> exists|seeds: Seq<usize>|
                seeds.len() == k && (forall|t: int| 0 <= t < k ==> (#[trigger] seeds[t] as int) < g@.n()) && (k
                    <= g@.n() ==> seeds.no_duplicates()) && r@.assignment == #[trigger] grow_spec(g@, k as int, seeds),
    {
        if k == 1 {
            let r = single_part(g.n());
            proof {
                if g@.n() >= 1 {
                    assert(r@.assignment[0] == 0);
                    assert(part_present(r@.assignment, 0));
                }
                if g@.valid() {
                    lemma_single_part_ok(g@, r);
                }
            }
            return r;
        }
        grow_kway(g, k, seed)
    }
}

impl InitialPartitioner for GrowBisect {
    /// One part for `k == 1`; for `k == 2`, two parts grown breadth-first
    /// (`grow_spec`) from two distinct random seed vertices, or the lone
    /// vertex in part 1 on a one-vertex graph; for more parts, as `GrowKway`.
    fn partition(&self, g: &CsrGraph, k: u32, seed: u64) -> (r: Partition)
        ensures
            k <= g@.n() ==> all_parts_present(r@.assignment, k as int),
            g@.valid() ==> contiguity_result(g@, r@) is Ok,
            k == 2 && g@.n() >= 2 ==> exists|sa: usize, sb: usize|
                sa != sb && sa < g@.n() && sb < g@.n() && r@.assignment == #[trigger] grown_from_pair(g@, sa, sb),
            k == 2 && g@.n() == 1 ==> r@.assignment == seq![1u32],
            k > 2 ==> exists|seeds: Seq<usize>|
                seeds.len() == k && (forall|t: int| 0 <= t < k ==> (#[trigger] seeds[t] as int) < g@.n()) && (k
                    <= g@.n() ==> seeds.no_duplicates()) && r@.assignment == #[trigger] grow_spec(g@, k as int, seeds),
    {
        let n = g.n();
        if k == 1 {
            let r = single_part(n);
            proof {
                if n >= 1 {
                    assert(r@.assignment[0] == 0);
                    assert(part_present(r@.assignment, 0));
                }
                if g@.valid() {
                    lemma_single_part_ok(g@, r);
                }
            }
            return r;
        }
        if k > 2 {
            return grow_kway(g, k, seed);
        }
        let mut rng = seeded_rng(seed);
        let seed_a = random_up_to(&mut rng, n - 1);
        let mut seed_b = random_up_to(&mut rng, n - 1);
        let mut tries: usize = 0;
        while seed_b == seed_a && n > 1 && tries < REDRAW_LIMIT
            invariant
                seed_b < n,
            decreases REDRAW_LIMIT - tries,
        {
            seed_b = random_up_to(&mut rng, n - 1);
            tries += 1;
        }
        if seed_b == seed_a && n > 1 {
            seed_b = if seed_a + 1 < n {
                seed_a + 1
            } else {
                0
            };
        }
        if seed_a == seed_b {
            let a: Vec<u32> = vec![1u32];
            let r = Partition::from_parts(a, 2, None);
            proof {
                assert(r@.assignment =~= seq![1u32]);
                if g@.valid() {
                    assert(partition_check(r@, g@) is Ok);
                    lemma_lone_vertex_contiguous(g@, r@.assignment);
                    lemma_contiguous_ok(g@, r@);
                }
            }
            return r;
        }
        let seeds: Vec<usize> = vec![seed_a, seed_b];
        proof {
            assert(seeds@ =~= seq![seed_a, seed_b]);
            assert(seeds@.no_duplicates());
        }
        let a = grow_from_seeds(g, 2, &seeds);
        proof {
            assert forall|p: int| 0 <= p < 2 implies #[trigger] part_present(a@, p) by {
                assert(a@[seeds@[p] as int] == p);
            }
        }
        let r = Partition::from_parts(a, 2, None);
        proof {
            assert(r@.assignment == grown_from_pair(g@, seed_a, seed_b));
            if g@.valid() {
                assert(partition_check(r@, g@) is Ok);
                lemma_contiguous_ok(g@, r@);
            }
        }
        r
    }
}

/// A one-vertex graph in part 1 has both of its parts contiguous.
proof fn lemma_lone_vertex_contiguous(g: GraphView, a: Seq<u32>)
    requires
        g.n() == 1,
        a.len() == 1,
        a[0] == 1,
    ensures
        forall|p: int| 0 <= p < 2 ==> #[trigger] part_contiguous(g, a, p as u32),
{
    assert forall|p: int| 0 <= p < 2 implies #[trigger] part_contiguous(g, a, p as u32) by {
        let mem = members_upto(a, p as u32, 1);
        lemma_members_props(a, p as u32, 1);
        if mem.len() > 0 {
            assert(mem[0] == 0);
            lemma_reaches_self(g.topo(), part_mask(a, p as u32, 1), 0);
        }
    }
}

/// Seed offset of the first half in recursive bisection.
pub const LEFT_SEED_STEP: u64 = 0x9E37_79B9_7F4A_7C15u64;

/// Seed offset of the second half in recursive bisection.
pub const RIGHT_SEED_STEP: u64 = 0x6C62_272E_07BB_0142u64;

/// Fewest vertices on which recursive bisection into `k` parts can succeed:
/// none for one part, two for a bisection, and for more parts what the
/// first half (`k / 2` parts) and the second half (`k - k / 2` parts) need
/// together.
pub open spec fn recursive_min_vertices(k: nat) -> nat
    decreases k,
{
    if k <= 1 {
        0
    } else if k == 2 {
        2
    } else {
        recursive_min_vertices(k / 2) + recursive_min_vertices((k - k / 2) as nat)
    }
}

/// With every entry in part 0 or 1, the two parts' members number `i`.
proof fn lemma_two_part_members(a: Seq<u32>, i: int)
    requires
        0 <= i <= a.len(),
        forall|v: int| 0 <= v < i ==> #[trigger] a[v] < 2,
    ensures
        members_upto(a, 0, i).len() + members_upto(a, 1, i).len() == i,
    decreases i,
{
    if i > 0 {
        lemma_two_part_members(a, i - 1);
    }
}

/// Multilevel recursive bisection: bisect with the direct pipeline, then
/// split the first half into `k / 2` parts and the second into the rest.
pub struct RecursiveBisect {
    pub niter: u32,
    pub ncuts: u32,
    pub coarsen_to: u32,
    pub ufactor: u32,
    pub contig_fm: bool,
}

impl Default for RecursiveBisect {
    fn default() -> (r: Self)
        ensures
            r.niter == 10 && r.ncuts == 1 && r.coarsen_to == 20 && r.ufactor == 5 && r.contig_fm,
    {
        RecursiveBisect { niter: 10, ncuts: 1, coarsen_to: 20, ufactor: 5, contig_fm: true }
    }
}

impl RecursiveBisect {
    /// Partition `g` into `k` parts: one part for `k == 1`; a bisection by
    /// the direct pipeline (sorted heavy-edge matching, edge-cut FM, no
    /// balancing sweeps) for `k == 2`; otherwise that bisection, each half
    /// partitioned recursively (seeds offset by `LEFT_SEED_STEP` and
    /// `RIGHT_SEED_STEP`), the second half's parts numbered after the first
    /// half's, and the parts made contiguous. Errors of the bisections pass
    /// through. It succeeds only on graphs with at least
    /// `recursive_min_vertices(k)` vertices, and then some vertex lands in
    /// part `k - 2` or above: the second half's parts are the last ones.
    pub fn partition_graph(&self, g: &CsrGraph, k: u32, seed: u64) -> (r: Result<Partition, PartitionError>)
        requires
            g@.sound(),
            k >= 1,
        ensures
            r matches Ok(p) ==> p@.fits(g@) && p@.k == k,
            k != 2 ==> (r matches Ok(p) ==> p@.tpwgts is None),
            r matches Err(e) ==> e == PartitionError::CoarseningStalled || crate::api::is_input_error(e),
            k == 2 ==> (r matches Err(e) ==> crate::api::input_error(g@, 2) == Some(e) || (crate::api::input_error(g@, 2)
                is None && e == PartitionError::CoarseningStalled && exists|ls: Seq<GraphView>, ms: Seq<Seq<u32>>|
                crate::multilevel::hierarchy::stalled_run(
                    &(crate::coarsen::shem::SortedHeavyEdgeMatchWithParams { coarsen_to: self.coarsen_to, k: 2 }),
                    g@,
                    ls,
                    ms,
                ))),
            k == 1 ==> (r matches Ok(p) && p@.assignment == Seq::new(g@.n() as nat, |v: int| 0u32)),
            r is Ok ==> g@.n() >= recursive_min_vertices(k as nat),
            k >= 2 ==> (r matches Ok(p) ==> exists|v: int| 0 <= v < p@.assignment.len() && #[trigger] p@.assignment[v] + 2 >= k),
            k >= 2 ==> (crate::api::input_error(g@, 2) matches Some(e) ==> r == Err::<Partition, PartitionError>(e)),
            k == 2 && crate::api::input_error(g@, 2) is None && g@.n() <= crate::coarsen::stop_threshold(
                self.coarsen_to,
                2,
            ) ==> r is Ok,
            g@.valid() && (k != 2 || self.contig_fm) ==> (r matches Ok(p) ==> all_contiguous(
                g@,
                p@.assignment,
                p@.k,
            )),
        decreases k,
    {
        let n = g.n();
        if k == 1 {
            proof {
                if g@.valid() {
                    crate::graph::contiguity::lemma_single_part_contiguous(g@);
                }
            }
            return Ok(single_part(n));
        }
        let params = MetisParams {
            ufactor: self.ufactor,
            niter: self.niter,
            seed: Some(seed),
            coarsen_to: self.coarsen_to,
            ncuts: self.ncuts,
            tpwgts: None,
            contig_fm: self.contig_fm,
            use_recursive: false,
            objective: ObjectiveType::Cut,
            min_conn: false,
            lp_refine: false,
            lp_iter: 0,
            coarsen_method: CoarseningMethod::Shem,
        };
        let bisector = MetisPartitioner::with_params(params, 2);
        let bisection = match bisector.checked_direct_split(g, 2, seed) {
            Ok(p) => p,
            Err(e) => {
                return Err(e);
            },
        };
        if k == 2 {
            proof {
                assert(bisection@.assignment[0] + 2 >= k);
            }
            return Ok(bisection);
        }
        let k_left = k / 2;
        let k_right = k - k_left;
        let (left_g, _, l2g_left) = extract_subgraph(g, bisection.assignment(), 0);
        let (right_g, _, l2g_right) = extract_subgraph(g, bisection.assignment(), 1);
        let left_p = match self.partition_graph(&left_g, k_left, seed.wrapping_add(LEFT_SEED_STEP)) {
            Ok(p) => p,
            Err(e) => {
                return Err(e);
            },
        };
        let right_p = match self.partition_graph(&right_g, k_right, seed.wrapping_add(RIGHT_SEED_STEP)) {
            Ok(p) => p,
            Err(e) => {
                return Err(e);
            },
        };
        let ghost a0 = bisection@.assignment;
        proof {
            lemma_members_props(a0, 0, n as int);
            lemma_members_props(a0, 1, n as int);
            lemma_two_part_members(a0, n as int);
            assert(recursive_min_vertices(k as nat) == recursive_min_vertices(k_left as nat)
                + recursive_min_vertices(k_right as nat));
        }
        let mut assignment: Vec<u32> = vec![0u32; n];
        let la = left_p.assignment();
        let mut i: usize = 0;
        while i < l2g_left.len()
            invariant
                assignment@.len() == n,
                k_left < k,
                la@.len() == l2g_left@.len(),
                forall|t: int| 0 <= t < la@.len() ==> #[trigger] la@[t] < k_left,
                forall|t: int| 0 <= t < l2g_left@.len() ==> (#[trigger] l2g_left@[t] as int) < n,
                forall|v: int| 0 <= v < n ==> #[trigger] assignment@[v] < k,
                0 <= i <= l2g_left@.len(),
            decreases l2g_left@.len() - i,
        {
            assignment.set(l2g_left[i], la[i]);
            i += 1;
        }
        let ra = right_p.assignment();
        let ghost w: int = choose|v: int| 0 <= v < ra@.len() && #[trigger] ra@[v] + 2 >= k_right;
        proof {
            assert(k_right >= 2);
            assert(0 <= w < ra@.len() && ra@[w] + 2 >= k_right);
        }
        let mut i: usize = 0;
        while i < l2g_right.len()
            invariant
                assignment@.len() == n,
                k_left + k_right == k,
                ra@.len() == l2g_right@.len(),
                forall|t: int| 0 <= t < ra@.len() ==> #[trigger] ra@[t] < k_right,
                forall|t: int| 0 <= t < l2g_right@.len() ==> (#[trigger] l2g_right@[t] as int) < n,
                forall|t1: int, t2: int|
                    0 <= t1 < t2 < l2g_right@.len() ==> #[trigger] l2g_right@[t1] < #[trigger] l2g_right@[t2],
                forall|v: int| 0 <= v < n ==> #[trigger] assignment@[v] < k,
                0 <= i <= l2g_right@.len(),
                0 <= w < ra@.len(),
                w < i ==> assignment@[l2g_right@[w] as int] == ra@[w] + k_left,
            decreases l2g_right@.len() - i,
        {
            assignment.set(l2g_right[i], ra[i] + k_left);
            i += 1;
        }
        let ghost top = l2g_right@[w] as int;
        assert(assignment@[top] + 2 >= k);
        let mut p = Partition::from_parts(assignment, k, None);
        proof {
            assert(part_present(p@.assignment, p@.assignment[top] as int));
        }
        let ghost q = p@.assignment[top] as int;
        repair_contiguity(g, &mut p);
        proof {
            assert(part_present(p@.assignment, q));
            let v = choose|v: int| 0 <= v < p@.assignment.len() && p@.assignment[v] == q;
            assert(p@.assignment[v] + 2 >= k);
        }
        Ok(p)
    }
}

} // verus!
