use vstd::prelude::*;

use crate::graph::csr::{lemma_valid_facts, CsrGraph, GraphView};
use crate::graph::partition::{covers, targeted};

verus! {

/// Number of `true` entries.
pub open spec fn count_true(s: Seq<bool>) -> int
    decreases s.len(),
{
    if s.len() == 0 {
        0
    } else {
        count_true(s.drop_last()) + if s.last() {
            1int
        } else {
            0int
        }
    }
}

pub proof fn lemma_count_true_bounds(s: Seq<bool>)
    ensures
        0 <= count_true(s) <= s.len(),
        (exists|i: int| 0 <= i < s.len() && !#[trigger] s[i]) ==> count_true(s) < s.len(),
        (forall|i: int| 0 <= i < s.len() ==> #[trigger] s[i]) ==> count_true(s) == s.len(),
    decreases s.len(),
{
    if s.len() > 0 {
        lemma_count_true_bounds(s.drop_last());
        if exists|i: int| 0 <= i < s.len() && !#[trigger] s[i] {
            let i = choose|i: int| 0 <= i < s.len() && !#[trigger] s[i];
            if i < s.len() - 1 {
                assert(!s.drop_last()[i]);
            }
        }
        if forall|i: int| 0 <= i < s.len() ==> #[trigger] s[i] {
            assert forall|i: int| 0 <= i < s.drop_last().len() implies #[trigger] s.drop_last()[i] by {
                assert(s[i]);
            }
        }
    }
}

/// A pointwise smaller mask counts no more, and strictly less when it misses
/// a position of the larger one.
pub proof fn lemma_count_true_subset(r: Seq<bool>, m: Seq<bool>)
    requires
        r.len() == m.len(),
        forall|i: int| 0 <= i < r.len() && #[trigger] r[i] ==> m[i],
    ensures
        count_true(r) <= count_true(m),
        (exists|i: int| 0 <= i < r.len() && m[i] && !#[trigger] r[i]) ==> count_true(r) < count_true(m),
    decreases r.len(),
{
    if r.len() > 0 {
        let r0 = r.drop_last();
        let m0 = m.drop_last();
        assert forall|i: int| 0 <= i < r0.len() && #[trigger] r0[i] implies m0[i] by {
            assert(r[i]);
        }
        lemma_count_true_subset(r0, m0);
        if exists|i: int| 0 <= i < r.len() && m[i] && !#[trigger] r[i] {
            let i = choose|i: int| 0 <= i < r.len() && m[i] && !#[trigger] r[i];
            if i < r.len() - 1 {
                assert(m0[i] && !r0[i]);
            }
        }
    }
}

pub proof fn lemma_count_true_update(s: Seq<bool>, i: int)
    requires
        0 <= i < s.len(),
    ensures
        count_true(s.update(i, true)) == count_true(s) + if s[i] {
            0int
        } else {
            1int
        },
    decreases s.len(),
{
    if i == s.len() - 1 {
        assert(s.update(i, true).drop_last() =~= s.drop_last());
    } else {
        assert(s.update(i, true).drop_last() =~= s.drop_last().update(i, true));
        lemma_count_true_update(s.drop_last(), i);
    }
}

pub proof fn lemma_count_true_none(n: nat)
    ensures
        count_true(Seq::new(n, |i: int| false)) == 0,
    decreases n,
{
    if n > 0 {
        assert(Seq::new(n, |i: int| false).drop_last() =~= Seq::new((n - 1) as nat, |i: int| false));
        lemma_count_true_none((n - 1) as nat);
    }
}

/// State of a greedy matching pass: which fine vertices are matched, their
/// coarse vertex, the number of coarse vertices so far, and how many of them
/// merge two distinct fine vertices.
pub struct MatchState {
    pub matched: Seq<bool>,
    pub cmap: Seq<u32>,
    pub count: int,
    pub pairs: int,
}

/// Nothing matched yet.
pub open spec fn initial_match(n: int) -> MatchState {
    MatchState {
        matched: Seq::new(n as nat, |i: int| false),
        cmap: Seq::new(n as nat, |i: int| u32::MAX),
        count: 0,
        pairs: 0,
    }
}

/// Among the slots `lo..r`, the slot of the heaviest edge to an unmatched
/// neighbour; of equally heavy ones the last.
pub open spec fn free_best(g: GraphView, matched: Seq<bool>, lo: int, r: int) -> Option<int>
    decreases r - lo,
{
    if r <= lo {
        None
    } else {
        let b = free_best(g, matched, lo, r - 1);
        if matched[g.nbr(r - 1)] {
            b
        } else {
            match b {
                None => Some(r - 1),
                Some(jb) => if g.ew(r - 1) >= g.ew(jb) {
                    Some(r - 1)
                } else {
                    b
                },
            }
        }
    }
}

/// `v` and `u` become the next coarse vertex.
pub open spec fn pair_up(s: MatchState, v: int, u: int) -> MatchState {
    MatchState {
        matched: s.matched.update(v, true).update(u, true),
        cmap: s.cmap.update(v, s.count as u32).update(u, s.count as u32),
        count: s.count + 1,
        pairs: s.pairs + if u != v {
            1int
        } else {
            0int
        },
    }
}

/// `v` alone becomes the next coarse vertex.
pub open spec fn keep_alone(s: MatchState, v: int) -> MatchState {
    MatchState {
        matched: s.matched.update(v, true),
        cmap: s.cmap.update(v, s.count as u32),
        count: s.count + 1,
        pairs: s.pairs,
    }
}

/// Visit `v`: an unmatched vertex is matched with the neighbour across its
/// heaviest edge to an unmatched vertex, or kept alone when there is none.
pub open spec fn heavy_step(g: GraphView, s: MatchState, v: int) -> MatchState {
    if s.matched[v] {
        s
    } else {
        match free_best(g, s.matched, g.lo(v), g.hi(v)) {
            Some(j) => pair_up(s, v, g.nbr(j)),
            None => keep_alone(s, v),
        }
    }
}

/// The state after visiting the first `i` vertices of `order`.
pub open spec fn heavy_run(g: GraphView, order: Seq<usize>, i: int) -> MatchState
    decreases i,
{
    if i <= 0 {
        initial_match(g.n())
    } else {
        heavy_step(g, heavy_run(g, order, i - 1), order[i - 1] as int)
    }
}

/// The slot chosen by `free_best` lies in range and leads to an unmatched vertex.
pub proof fn lemma_free_best(g: GraphView, matched: Seq<bool>, lo: int, r: int)
    ensures
        free_best(g, matched, lo, r) matches Some(j) ==> lo <= j < r && !matched[g.nbr(j)],
        free_best(g, matched, lo, r) is None ==> forall|j: int| lo <= j < r ==> #[trigger] matched[g.nbr(j)],
    decreases r - lo,
{
    if r > lo {
        lemma_free_best(g, matched, lo, r - 1);
    }
}

/// Well-formedness of a matching state over `n` vertices.
pub open spec fn state_shape(s: MatchState, n: int) -> bool {
    &&& s.matched.len() == n
    &&& s.cmap.len() == n
    &&& s.pairs >= 0
    &&& s.count >= 0
    &&& s.count + s.pairs == count_true(s.matched)
}

proof fn lemma_heavy_step_shape(g: GraphView, s: MatchState, v: int)
    requires
        g.sound(),
        0 <= v < g.n(),
        state_shape(s, g.n()),
    ensures
        state_shape(heavy_step(g, s, v), g.n()),
{
    if !s.matched[v] {
        lemma_free_best(g, s.matched, g.lo(v), g.hi(v));
        lemma_count_true_update(s.matched, v);
        match free_best(g, s.matched, g.lo(v), g.hi(v)) {
            Some(j) => {
                let u = g.nbr(j);
                assert(g.xadj[v] <= g.xadj[v + 1] <= g.xadj[g.n()]);
                assert(0 <= u < g.n());
                lemma_count_true_update(s.matched.update(v, true), u);
            },
            None => {},
        }
    }
}

pub proof fn lemma_heavy_run_shape(g: GraphView, order: Seq<usize>, i: int)
    requires
        g.sound(),
        0 <= i <= order.len(),
        forall|t: int| 0 <= t < order.len() ==> (#[trigger] order[t] as int) < g.n(),
    ensures
        state_shape(heavy_run(g, order, i), g.n()),
    decreases i,
{
    if i <= 0 {
        lemma_count_true_none(g.n() as nat);
    } else {
        lemma_heavy_run_shape(g, order, i - 1);
        lemma_heavy_step_shape(g, heavy_run(g, order, i - 1), order[i - 1] as int);
    }
}

/// Slot of the heaviest edge from `v` to an unmatched neighbour (the last of
/// equally heavy ones), if any.
pub(crate) fn heaviest_free_slot(g: &CsrGraph, matched: &[bool], v: usize) -> (r: Option<usize>)
    requires
        g@.sound(),
        (v as int) < g@.n(),
        matched@.len() == g@.n(),
    ensures
        match r {
            Some(j) => free_best(g@, matched@, g@.lo(v as int), g@.hi(v as int)) == Some(j as int),
            None => free_best(g@, matched@, g@.lo(v as int), g@.hi(v as int)) is None,
        },
{
    let ghost gv = g@;
    let xadj = g.xadj();
    let adjncy = g.adjncy();
    proof {
        assert(gv.xadj[v as int] <= gv.xadj[v as int + 1] <= gv.xadj[gv.n()]);
    }
    let lo = xadj[v] as usize;
    let hi = xadj[v + 1] as usize;
    let mut best: Option<usize> = None;
    let mut best_w: i32 = 0;
    let mut j = lo;
    while j < hi
        invariant
            gv == g@,
            gv.sound(),
            xadj@ == gv.xadj,
            adjncy@ == gv.adjncy,
            matched@.len() == gv.n(),
            lo == gv.lo(v as int),
            hi == gv.hi(v as int),
            hi <= gv.m(),
            lo <= j <= hi,
            match best {
                Some(b) => free_best(gv, matched@, lo as int, j as int) == Some(b as int) && best_w == gv.ew(
                    b as int,
                ),
                None => free_best(gv, matched@, lo as int, j as int) is None,
            },
        decreases hi - j,
    {
        let u = adjncy[j] as usize;
        proof {
            assert((gv.adjncy[j as int] as int) < gv.n());
        }
        if !matched[u] {
            let w = g.edge_weight(j);
            match best {
                None => {
                    best = Some(j);
                    best_w = w;
                },
                Some(_) => {
                    if w >= best_w {
                        best = Some(j);
                        best_w = w;
                    }
                },
            }
        }
        j += 1;
    }
    best
}

/// Greedy heavy-edge matching: visit the vertices in `order`; each vertex
/// still unmatched is merged with the neighbour across its heaviest edge to an
/// unmatched vertex, or kept alone. Returns the fine-to-coarse map and the
/// number of coarse vertices.
pub fn match_heavy(g: &CsrGraph, order: &[usize]) -> (r: (Vec<u32>, usize))
    requires
        g@.sound(),
        forall|t: int| 0 <= t < order@.len() ==> (#[trigger] order@[t] as int) < g@.n(),
    ensures
        r.0@ == heavy_run(g@, order@, order@.len() as int).cmap,
        r.1 == heavy_run(g@, order@, order@.len() as int).count,
{
    let ghost gv = g@;
    let n = g.n();
    let adjncy = g.adjncy();
    let mut matched: Vec<bool> = vec![false; n];
    let mut cmap: Vec<u32> = vec![u32::MAX; n];
    let mut count: usize = 0;
    proof {
        assert(matched@ =~= initial_match(gv.n()).matched);
        assert(cmap@ =~= initial_match(gv.n()).cmap);
    }
    let mut i: usize = 0;
    while i < order.len()
        invariant
            gv == g@,
            gv.sound(),
            n == gv.n(),
            adjncy@ == gv.adjncy,
            forall|t: int| 0 <= t < order@.len() ==> (#[trigger] order@[t] as int) < gv.n(),
            0 <= i <= order@.len(),
            matched@ == heavy_run(gv, order@, i as int).matched,
            cmap@ == heavy_run(gv, order@, i as int).cmap,
            count == heavy_run(gv, order@, i as int).count,
        decreases order@.len() - i,
    {
        let ghost s = heavy_run(gv, order@, i as int);
        proof {
            lemma_heavy_run_shape(gv, order@, i as int);
        }
        let v = order[i];
        if !matched[v] {
            proof {
                lemma_count_true_bounds(s.matched);
                assert(!s.matched[v as int]);
            }
            let c = count as u32;
            match heaviest_free_slot(g, matched.as_slice(), v) {
                Some(j) => {
                    proof {
                        lemma_free_best(gv, s.matched, gv.lo(v as int), gv.hi(v as int));
                        assert(gv.xadj[v as int] <= gv.xadj[v as int + 1] <= gv.xadj[gv.n()]);
                    }
                    let u = adjncy[j] as usize;
                    proof {
                        assert((gv.adjncy[j as int] as int) < gv.n());
                    }
                    matched.set(v, true);
                    matched.set(u, true);
                    cmap.set(v, c);
                    cmap.set(u, c);
                },
                None => {
                    matched.set(v, true);
                    cmap.set(v, c);
                },
            }
            count += 1;
        }
        i += 1;
    }
    (cmap, count)
}

/// `v` and `w` are neighbours in `g`.
pub open spec fn linked(g: GraphView, v: int, w: int) -> bool {
    g.topo().adjacent(v, w) || g.topo().adjacent(w, v)
}

/// Some matched fine vertex below `n` belongs to coarse vertex `c`.
pub open spec fn holds_member(s: MatchState, n: int, c: int) -> bool {
    exists|v: int| 0 <= v < n && s.matched[v] && #[trigger] s.cmap[v] == c
}

/// Properties of a matching state once the vertices of `visited` have been visited.
pub open spec fn match_inv(g: GraphView, s: MatchState, visited: Seq<usize>) -> bool {
    let n = g.n();
    &&& state_shape(s, n)
    &&& forall|v: int| 0 <= v < n && #[trigger] s.matched[v] ==> (s.cmap[v] as int) < s.count
    &&& forall|c: int| 0 <= c < s.count ==> #[trigger] holds_member(s, n, c)
    &&& forall|t: int| 0 <= t < visited.len() ==> (#[trigger] visited[t] as int) < n && s.matched[visited[t] as int]
    &&& forall|v: int, w: int|
        0 <= v < n && 0 <= w < n && v != w && #[trigger] s.matched[v] && #[trigger] s.matched[w] && s.cmap[v]
            == s.cmap[w] ==> linked(g, v, w)
    &&& forall|v: int, w: int, x: int|
        0 <= v < n && 0 <= w < n && 0 <= x < n && v != w && w != x && v != x && #[trigger] s.matched[v]
            && #[trigger] s.matched[w] && #[trigger] s.matched[x] && s.cmap[v] == s.cmap[w] ==> s.cmap[v] != s.cmap[x]
}

proof fn lemma_heavy_step_inv(g: GraphView, s: MatchState, visited: Seq<usize>, v: int)
    requires
        g.sound(),
        0 <= v < g.n(),
        match_inv(g, s, visited),
    ensures
        match_inv(g, heavy_step(g, s, v), visited.push(v as usize)),
        heavy_step(g, s, v).pairs >= s.pairs,
{
    let n = g.n();
    lemma_heavy_step_shape(g, s, v);
    let s2 = heavy_step(g, s, v);
    let vis2 = visited.push(v as usize);
    if s.matched[v] {
        assert forall|t: int| 0 <= t < vis2.len() implies (#[trigger] vis2[t] as int) < n && s2.matched[vis2[t] as int] by {
            if t < visited.len() {
                assert(vis2[t] == visited[t]);
            }
        }
    } else {
        lemma_count_true_bounds(s.matched);
        assert(!s.matched[v]);
        assert(s.count < 0x1_0000_0000);
        lemma_free_best(g, s.matched, g.lo(v), g.hi(v));
        let c = s.count;
        let fresh = |w: int| w == v || (free_best(g, s.matched, g.lo(v), g.hi(v)) matches Some(j) && w == g.nbr(j));
        match free_best(g, s.matched, g.lo(v), g.hi(v)) {
            Some(j) => {
                let u = g.nbr(j);
                assert(g.xadj[v] <= g.xadj[v + 1] <= g.xadj[n]);
                assert(0 <= u < n);
                assert(!s.matched[u]);
                assert(g.topo().nbr(j) == u && g.topo().lo(v) == g.lo(v) && g.topo().hi(v) == g.hi(v));
                assert(g.topo().adjacent(v, u));
            },
            None => {},
        }
        assert forall|w: int| 0 <= w < n && s2.matched[w] && !s.matched[w] implies fresh(w) && s2.cmap[w] == c as u32 by {}
        assert forall|w: int| 0 <= w < n && s.matched[w] implies s2.matched[w] && s2.cmap[w] == s.cmap[w] && !fresh(w) by {}
        assert forall|w: int| 0 <= w < n && #[trigger] s2.matched[w] implies (s2.cmap[w] as int) < s2.count by {
            if s.matched[w] {
            }
        }
        assert forall|cc: int| 0 <= cc < s2.count implies #[trigger] holds_member(s2, n, cc) by {
            if cc < c {
                assert(holds_member(s, n, cc));
                let w = choose|w: int| 0 <= w < n && s.matched[w] && #[trigger] s.cmap[w] == cc;
                assert(s2.cmap[w] == cc);
            } else {
                assert(s2.matched[v] && s2.cmap[v] == cc);
            }
        }
        assert forall|t: int| 0 <= t < vis2.len() implies (#[trigger] vis2[t] as int) < n && s2.matched[vis2[t] as int] by {
            if t < visited.len() {
                assert(vis2[t] == visited[t]);
                assert(s.matched[visited[t] as int]);
            } else {
                assert(vis2[t] == v as usize);
            }
        }
        assert forall|a: int, b: int|
            0 <= a < n && 0 <= b < n && a != b && #[trigger] s2.matched[a] && #[trigger] s2.matched[b] && s2.cmap[a]
                == s2.cmap[b] implies linked(g, a, b) by {
            if s.matched[a] && s.matched[b] {
            } else if s.matched[a] {
                assert((s.cmap[a] as int) < c);
            } else if s.matched[b] {
                assert((s.cmap[b] as int) < c);
            } else {
                let j = free_best(g, s.matched, g.lo(v), g.hi(v))->0;
                assert(g.topo().adjacent(v, g.nbr(j)));
            }
        }
        assert forall|a: int, b: int, x: int|
            0 <= a < n && 0 <= b < n && 0 <= x < n && a != b && b != x && a != x && #[trigger] s2.matched[a]
                && #[trigger] s2.matched[b] && #[trigger] s2.matched[x] && s2.cmap[a] == s2.cmap[b] implies s2.cmap[a]
            != s2.cmap[x] by {
            if s.matched[a] && s.matched[b] && s.matched[x] {
            } else if s.matched[a] {
                assert((s.cmap[a] as int) < c);
            } else if s.matched[b] {
                assert((s.cmap[b] as int) < c);
            } else if s.matched[x] {
                assert((s.cmap[x] as int) < c);
            }
        }
    }
}

proof fn lemma_heavy_run_inv(g: GraphView, order: Seq<usize>, i: int)
    requires
        g.sound(),
        0 <= i <= order.len(),
        forall|t: int| 0 <= t < order.len() ==> (#[trigger] order[t] as int) < g.n(),
    ensures
        match_inv(g, heavy_run(g, order, i), order.take(i)),
    decreases i,
{
    if i <= 0 {
        lemma_count_true_none(g.n() as nat);
        assert(order.take(0) =~= Seq::<usize>::empty());
    } else {
        lemma_heavy_run_inv(g, order, i - 1);
        let s = heavy_run(g, order, i - 1);
        lemma_heavy_step_inv(g, s, order.take(i - 1), order[i - 1] as int);
        assert(order.take(i - 1).push(order[i - 1]) =~= order.take(i));
    }
}

/// A greedy heavy-edge pass over an order that visits every vertex yields a
/// matching: every fine vertex lands in one of `count` coarse vertices, each
/// coarse vertex is hit, merges at most two fine vertices and only
/// neighbouring ones, and `count` is the number of fine vertices less the
/// number of merged pairs.
pub proof fn lemma_heavy_matching(g: GraphView, order: Seq<usize>)
    requires
        g.sound(),
        forall|t: int| 0 <= t < order.len() ==> (#[trigger] order[t] as int) < g.n(),
        forall|v: usize| (v as int) < g.n() ==> #[trigger] order.contains(v),
    ensures
        ({
            let s = heavy_run(g, order, order.len() as int);
            &&& s.cmap.len() == g.n()
            &&& forall|v: int| 0 <= v < g.n() ==> (#[trigger] s.cmap[v] as int) < s.count
            &&& covers(s.cmap, s.count)
            &&& s.count + s.pairs == g.n()
            &&& 0 <= s.pairs
            &&& forall|v: int, w: int|
                0 <= v < g.n() && 0 <= w < g.n() && v != w && #[trigger] s.cmap[v] == #[trigger] s.cmap[w] ==> linked(g, v, w)
            &&& forall|v: int, w: int, x: int|
                0 <= v < g.n() && 0 <= w < g.n() && 0 <= x < g.n() && v != w && w != x && v != x && #[trigger] s.cmap[v]
                    == #[trigger] s.cmap[w] ==> s.cmap[v] != #[trigger] s.cmap[x]
        }),
{
    let s = heavy_run(g, order, order.len() as int);
    lemma_heavy_run_inv(g, order, order.len() as int);
    assert(order.take(order.len() as int) =~= order);
    assert forall|v: int| 0 <= v < g.n() implies #[trigger] s.matched[v] by {
        assert(order.contains(v as usize));
        let t = choose|t: int| 0 <= t < order.len() && order[t] == v as usize;
        assert(s.matched[order[t] as int]);
    }
    lemma_count_true_bounds(s.matched);
    assert forall|v: int| 0 <= v < g.n() implies (#[trigger] s.cmap[v] as int) < s.count by {
        assert(s.matched[v]);
    }
    assert forall|c: int| 0 <= c < s.count implies #[trigger] targeted(s.cmap, c) by {
        assert(holds_member(s, g.n(), c));
        let w = choose|w: int| 0 <= w < g.n() && s.matched[w] && #[trigger] s.cmap[w] == c;
    }
    assert forall|v: int, w: int|
        0 <= v < g.n() && 0 <= w < g.n() && v != w && #[trigger] s.cmap[v] == #[trigger] s.cmap[w] implies linked(g, v, w) by {
        assert(s.matched[v] && s.matched[w]);
    }
    assert forall|v: int, w: int, x: int|
        0 <= v < g.n() && 0 <= w < g.n() && 0 <= x < g.n() && v != w && w != x && v != x && #[trigger] s.cmap[v]
            == #[trigger] s.cmap[w] implies s.cmap[v] != #[trigger] s.cmap[x] by {
        assert(s.matched[v] && s.matched[w] && s.matched[x]);
    }
}

/// In a valid graph with at least two vertices every vertex has a neighbour.
pub proof fn lemma_has_neighbor(g: GraphView, v: int)
    requires
        g.valid(),
        g.n() >= 2,
        0 <= v < g.n(),
    ensures
        g.lo(v) < g.hi(v),
{
    lemma_valid_facts(g);
    let t = g.topo();
    let target = if v == 0 {
        1int
    } else {
        v
    };
    assert(t.reaches(t.everywhere(), 0, target));
    let p = choose|p: Seq<int>| #[trigger] t.is_walk(p, t.everywhere()) && p[0] == 0 && p.last() == target;
    assert(p.len() >= 2);
    if v == 0 {
        assert(t.adjacent(p[0], p[1]));
    } else {
        let a = p[p.len() - 2];
        assert(t.adjacent(a, p[p.len() - 2 + 1]));
        let j = choose|j: int| t.lo(a) <= j < t.hi(a) && #[trigger] t.nbr(j) == v;
        assert(0 <= a < g.n());
        assert(g.lo(a) <= j < g.hi(a));
        assert(t.adjacent(g.nbr(j), a));
    }
}

proof fn lemma_heavy_pairs_grow(g: GraphView, order: Seq<usize>, i: int, k: int)
    requires
        g.sound(),
        0 <= i <= k <= order.len(),
        forall|t: int| 0 <= t < order.len() ==> (#[trigger] order[t] as int) < g.n(),
    ensures
        heavy_run(g, order, i).pairs <= heavy_run(g, order, k).pairs,
    decreases k - i,
{
    if i < k {
        lemma_heavy_pairs_grow(g, order, i, k - 1);
        lemma_heavy_run_inv(g, order, k - 1);
        lemma_heavy_step_inv(g, heavy_run(g, order, k - 1), order.take(k - 1), order[k - 1] as int);
    }
}

/// On a valid graph with at least two vertices, a greedy heavy-edge pass over
/// an order that visits every vertex leaves strictly fewer coarse vertices
/// than fine ones.
pub proof fn lemma_heavy_shrinks(g: GraphView, order: Seq<usize>)
    requires
        g.valid(),
        g.n() >= 2,
        forall|t: int| 0 <= t < order.len() ==> (#[trigger] order[t] as int) < g.n(),
        forall|v: usize| (v as int) < g.n() ==> #[trigger] order.contains(v),
    ensures
        heavy_run(g, order, order.len() as int).count < g.n(),
{
    lemma_valid_facts(g);
    lemma_heavy_matching(g, order);
    assert(order.contains(0usize));
    assert(order.len() >= 1);
    let v0 = order[0] as int;
    lemma_has_neighbor(g, v0);
    let s0 = initial_match(g.n());
    lemma_free_best(g, s0.matched, g.lo(v0), g.hi(v0));
    let lo = g.lo(v0);
    if free_best(g, s0.matched, g.lo(v0), g.hi(v0)) is None {
        assert(s0.matched[g.nbr(lo)]);
        assert(g.xadj[v0] <= g.xadj[v0 + 1] <= g.xadj[g.n()]);
        assert(false);
    }
    let j = free_best(g, s0.matched, g.lo(v0), g.hi(v0))->0;
    assert(g.nbr(j) != v0);
    assert(heavy_run(g, order, 0) == s0);
    assert(!s0.matched[v0]);
    assert(heavy_run(g, order, 1) == heavy_step(g, s0, v0));
    assert(heavy_run(g, order, 1).pairs == 1);
    lemma_heavy_pairs_grow(g, order, 1, order.len() as int);
}

/// The part of `match_inv` that holds whichever partner a vertex is given.
pub open spec fn base_inv(g: GraphView, s: MatchState, visited: Seq<usize>) -> bool {
    let n = g.n();
    &&& state_shape(s, n)
    &&& forall|v: int| 0 <= v < n && #[trigger] s.matched[v] ==> (s.cmap[v] as int) < s.count
    &&& forall|c: int| 0 <= c < s.count ==> #[trigger] holds_member(s, n, c)
    &&& forall|t: int| 0 <= t < visited.len() ==> (#[trigger] visited[t] as int) < n && s.matched[visited[t] as int]
    &&& forall|v: int, w: int, x: int|
        0 <= v < n && 0 <= w < n && 0 <= x < n && v != w && w != x && v != x && #[trigger] s.matched[v]
            && #[trigger] s.matched[w] && #[trigger] s.matched[x] && s.cmap[v] == s.cmap[w] ==> s.cmap[v] != s.cmap[x]
}

pub proof fn lemma_base_initial(g: GraphView)
    ensures
        base_inv(g, initial_match(g.n()), Seq::<usize>::empty()),
{
    lemma_count_true_none(g.n() as nat);
}

/// Visiting a vertex that is already matched changes nothing.
pub proof fn lemma_base_skip(g: GraphView, s: MatchState, visited: Seq<usize>, v: int)
    requires
        g.sound(),
        base_inv(g, s, visited),
        0 <= v < g.n(),
        s.matched[v],
    ensures
        base_inv(g, s, visited.push(v as usize)),
{
    let vis2 = visited.push(v as usize);
    assert forall|t: int| 0 <= t < vis2.len() implies (#[trigger] vis2[t] as int) < g.n() && s.matched[vis2[t] as int] by {
        if t < visited.len() {
            assert(vis2[t] == visited[t]);
        } else {
            assert(vis2[t] == v as usize);
        }
    }
}

/// Merging two unmatched vertices (or keeping one alone when `u == v`) keeps
/// the matching invariant.
pub proof fn lemma_base_pair(g: GraphView, s: MatchState, visited: Seq<usize>, v: int, u: int)
    requires
        g.sound(),
        base_inv(g, s, visited),
        0 <= v < g.n(),
        0 <= u < g.n(),
        !s.matched[v],
        !s.matched[u],
    ensures
        base_inv(g, pair_up(s, v, u), visited.push(v as usize)),
        pair_up(s, v, u).pairs >= s.pairs,
{
    let n = g.n();
    let s2 = pair_up(s, v, u);
    let vis2 = visited.push(v as usize);
    lemma_count_true_bounds(s.matched);
    assert(s.count < 0x1_0000_0000);
    lemma_count_true_update(s.matched, v);
    lemma_count_true_update(s.matched.update(v, true), u);
    let c = s.count;
    assert forall|w: int| 0 <= w < n && #[trigger] s2.matched[w] implies (s2.cmap[w] as int) < s2.count by {
        if s.matched[w] {
        }
    }
    assert forall|cc: int| 0 <= cc < s2.count implies #[trigger] holds_member(s2, n, cc) by {
        if cc < c {
            assert(holds_member(s, n, cc));
            let w = choose|w: int| 0 <= w < n && s.matched[w] && #[trigger] s.cmap[w] == cc;
            assert(s2.cmap[w] == cc);
        } else {
            assert(s2.matched[v] && s2.cmap[v] == cc);
        }
    }
    assert forall|t: int| 0 <= t < vis2.len() implies (#[trigger] vis2[t] as int) < n && s2.matched[vis2[t] as int] by {
        if t < visited.len() {
            assert(vis2[t] == visited[t]);
        } else {
            assert(vis2[t] == v as usize);
        }
    }
    assert forall|a: int, b: int, x: int|
        0 <= a < n && 0 <= b < n && 0 <= x < n && a != b && b != x && a != x && #[trigger] s2.matched[a]
            && #[trigger] s2.matched[b] && #[trigger] s2.matched[x] && s2.cmap[a] == s2.cmap[b] implies s2.cmap[a]
        != s2.cmap[x] by {
        if s.matched[a] && s.matched[b] && s.matched[x] {
        } else if s.matched[a] {
            assert((s.cmap[a] as int) < c);
        } else if s.matched[b] {
            assert((s.cmap[b] as int) < c);
        } else if s.matched[x] {
            assert((s.cmap[x] as int) < c);
        }
    }
}

/// Keeping an unmatched vertex alone keeps the matching invariant.
pub proof fn lemma_base_alone(g: GraphView, s: MatchState, visited: Seq<usize>, v: int)
    requires
        g.sound(),
        base_inv(g, s, visited),
        0 <= v < g.n(),
        !s.matched[v],
    ensures
        base_inv(g, keep_alone(s, v), visited.push(v as usize)),
{
    lemma_base_pair(g, s, visited, v, v);
    assert(s.matched.update(v, true).update(v, true) =~= s.matched.update(v, true));
    assert(s.cmap.update(v, s.count as u32).update(v, s.count as u32) =~= s.cmap.update(v, s.count as u32));
}

/// Once every vertex has been visited, the state describes a matching.
pub proof fn lemma_base_complete(g: GraphView, s: MatchState, visited: Seq<usize>)
    requires
        g.sound(),
        base_inv(g, s, visited),
        forall|v: usize| (v as int) < g.n() ==> #[trigger] visited.contains(v),
    ensures
        s.cmap.len() == g.n(),
        forall|v: int| 0 <= v < g.n() ==> (#[trigger] s.cmap[v] as int) < s.count,
        covers(s.cmap, s.count),
        s.count + s.pairs == g.n(),
        0 <= s.pairs,
        forall|v: int, w: int, x: int|
            0 <= v < g.n() && 0 <= w < g.n() && 0 <= x < g.n() && v != w && w != x && v != x && #[trigger] s.cmap[v]
                == #[trigger] s.cmap[w] ==> s.cmap[v] != #[trigger] s.cmap[x],
{
    assert forall|v: int| 0 <= v < g.n() implies #[trigger] s.matched[v] by {
        assert(visited.contains(v as usize));
        let t = choose|t: int| 0 <= t < visited.len() && visited[t] == v as usize;
        assert(s.matched[visited[t] as int]);
    }
    lemma_count_true_bounds(s.matched);
    assert forall|v: int| 0 <= v < g.n() implies (#[trigger] s.cmap[v] as int) < s.count by {
        assert(s.matched[v]);
    }
    assert forall|c: int| 0 <= c < s.count implies #[trigger] targeted(s.cmap, c) by {
        assert(holds_member(s, g.n(), c));
        let w = choose|w: int| 0 <= w < g.n() && s.matched[w] && #[trigger] s.cmap[w] == c;
    }
    assert forall|v: int, w: int, x: int|
        0 <= v < g.n() && 0 <= w < g.n() && 0 <= x < g.n() && v != w && w != x && v != x && #[trigger] s.cmap[v]
            == #[trigger] s.cmap[w] implies s.cmap[v] != #[trigger] s.cmap[x] by {
        assert(s.matched[v] && s.matched[w] && s.matched[x]);
    }
}

} // verus!
