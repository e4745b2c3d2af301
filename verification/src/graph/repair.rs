use vstd::prelude::*;

use super::contiguity::{all_contiguous, check_contiguity, contiguity_result, part_mask};
use super::csr::{lemma_topo_symmetric, CsrGraph, GraphView};
use crate::coarsen::matching::{count_true, lemma_count_true_bounds};
use super::partition::{part_present, Partition, PartitionView};
use super::topology::{
    lemma_closed_contains_reachable, lemma_reaches_ends, lemma_reaches_extend, lemma_reaches_reverse,
    lemma_reaches_self, lemma_reaches_trans, reach_set,
};

verus! {

/// `q` is `p` with some vertices moved between its parts.
pub open spec fn same_parts(p: PartitionView, q: PartitionView) -> bool {
    &&& q.k == p.k
    &&& q.tpwgts == p.tpwgts
    &&& q.assignment.len() == p.assignment.len()
    &&& forall|v: int| 0 <= v < q.assignment.len() ==> #[trigger] q.assignment[v] < q.k
}

/// Every labelled vertex of `part` carries the label of everything it
/// reaches inside the part.
pub open spec fn labels_closed(g: GraphView, a: Seq<u32>, part: u32, comp: Seq<usize>) -> bool {
    forall|u: int, w: int|
        0 <= u < g.n() && 0 <= w < g.n() && comp[u] != usize::MAX && a[w] == part && #[trigger] g.topo().reaches(
            part_mask(a, part, g.n()),
            u,
            w,
        ) ==> comp[w] == comp[u]
}

/// Two labelled vertices share a label exactly when one reaches the other
/// inside the part.
pub open spec fn labels_exact(g: GraphView, a: Seq<u32>, part: u32, comp: Seq<usize>) -> bool {
    forall|u: int, w: int|
        #![trigger comp[u], comp[w]]
        #![trigger g.topo().reaches(part_mask(a, part, g.n()), u, w)]
        0 <= u < g.n() && 0 <= w < g.n() && comp[u] != usize::MAX && comp[w] != usize::MAX ==> (comp[u]
            == comp[w] <==> g.topo().reaches(part_mask(a, part, g.n()), u, w))
}

/// Which vertices below `n` carry label `c`.
pub open spec fn label_marks(comp: Seq<usize>, c: int, n: int) -> Seq<bool> {
    Seq::new(n as nat, |x: int| comp[x] as int == c)
}

/// Number of vertices below `n` that carry label `c`.
pub open spec fn label_count(comp: Seq<usize>, c: int, n: int) -> int {
    count_true(label_marks(comp, c, n))
}

/// Some vertex below `n` carries label `c`.
pub open spec fn label_used(comp: Seq<usize>, n: int, c: int) -> bool {
    exists|v: int| 0 <= v < n && #[trigger] comp[v] == c
}

/// Vertices of `part` that have no label yet.
pub open spec fn unlabelled_mask(a: Seq<u32>, part: u32, comp: Seq<usize>, n: int) -> Seq<bool> {
    Seq::new(n as nat, |v: int| a[v] == part && comp[v] == usize::MAX)
}

/// On a symmetric graph, from an unlabelled vertex of `part`, whatever the
/// part reaches is reached through unlabelled vertices of the part alone,
/// when the labels already given are closed.
proof fn lemma_fresh_reach(g: GraphView, a: Seq<u32>, part: u32, comp: Seq<usize>, start: int, w: int)
    requires
        g.sound(),
        g.symmetric(),
        a.len() == g.n(),
        comp.len() == g.n(),
        labels_closed(g, a, part, comp),
        0 <= start < g.n(),
        a[start] == part,
        comp[start] == usize::MAX,
        g.topo().reaches(part_mask(a, part, g.n()), start, w),
    ensures
        g.topo().reaches(unlabelled_mask(a, part, comp, g.n()), start, w),
{
    lemma_topo_symmetric(g);
    let t = g.topo();
    let n = g.n();
    let mp = part_mask(a, part, n);
    let mu = unlabelled_mask(a, part, comp, n);
    let r = Seq::new(n as nat, |x: int| t.reaches(mu, start, x));
    lemma_reaches_self(t, mu, start);
    assert forall|z: int| 0 <= z < n && #[trigger] r[z] implies t.closed_at(r, mp, z) by {
        lemma_reaches_ends(t, mu, start, z);
        assert forall|j: int| t.lo(z) <= j < t.hi(z) && mp[#[trigger] t.nbr(j)] implies r[t.nbr(j)] by {
            let y = t.nbr(j);
            assert(t.xadj[z + 1] <= t.xadj[t.n()]);
            assert(0 <= y < n);
            if comp[y] == usize::MAX {
                assert(mu[y]);
                lemma_reaches_extend(t, mu, start, z, j);
            } else {
                // y reaches z back inside the part, so z would carry y's label
                lemma_reaches_self(t, mp, z);
                lemma_reaches_extend(t, mp, z, z, j);
                lemma_reaches_reverse(t, mp, z, y);
                assert(t.reaches(part_mask(a, part, g.n()), y, z));
                assert(comp[z] == comp[y]);
                assert(false);
            }
        }
    }
    lemma_closed_contains_reachable(t, r, mp, start, w);
}

/// `v` is the smallest vertex of its piece: no smaller vertex of its part
/// reaches it inside the part.
pub open spec fn piece_head(g: GraphView, a: Seq<u32>, v: int) -> bool {
    forall|w: int|
        0 <= w < v && a[w] == a[v] ==> !#[trigger] g.topo().reaches(part_mask(a, a[v], g.n()), w, v)
}

/// Number of pieces over all parts, counted by their smallest vertices.
pub open spec fn piece_count(g: GraphView, a: Seq<u32>) -> int {
    count_true(Seq::new(g.n() as nat, |v: int| piece_head(g, a, v)))
}

/// `v` lies in the piece of `c`: its part, reached from `c` inside the part.
pub open spec fn in_piece(g: GraphView, a: Seq<u32>, c: int, v: int) -> bool {
    a[v] == a[c] && g.topo().reaches(part_mask(a, a[c], g.n()), c, v)
}

/// `a` with the piece of `c` moved, whole, to part `to`.
pub open spec fn move_piece(g: GraphView, a: Seq<u32>, c: int, to: u32) -> Seq<u32> {
    Seq::new(a.len(), |v: int| if in_piece(g, a, c, v) { to } else { a[v] })
}

/// Every vertex lies in the piece of some piece head at or below it.
proof fn lemma_head_exists(g: GraphView, a: Seq<u32>, v: int) -> (r: int)
    requires
        a.len() == g.n(),
        0 <= v < g.n(),
    ensures
        0 <= r <= v,
        a[r] == a[v],
        piece_head(g, a, r),
        g.topo().reaches(part_mask(a, a[v], g.n()), r, v),
    decreases v,
{
    let t = g.topo();
    let mask = part_mask(a, a[v], g.n());
    if piece_head(g, a, v) {
        lemma_reaches_self(t, mask, v);
        v
    } else {
        let w = choose|w: int| 0 <= w < v && a[w] == a[v] && #[trigger] t.reaches(mask, w, v);
        let r = lemma_head_exists(g, a, w);
        lemma_reaches_trans(t, mask, r, w, v);
        r
    }
}

/// On a symmetric graph, a walk inside the part from a vertex outside the
/// piece of `c` never enters that piece.
proof fn lemma_outside_piece_reach(g: GraphView, a: Seq<u32>, c: int, to: u32, u: int, z: int)
    requires
        g.sound(),
        g.symmetric(),
        a.len() == g.n(),
        0 <= c < g.n(),
        to != a[c],
        0 <= u < g.n(),
        a[u] == a[c],
        !in_piece(g, a, c, u),
        g.topo().reaches(part_mask(a, a[c], g.n()), u, z),
    ensures
        g.topo().reaches(part_mask(move_piece(g, a, c, to), a[c], g.n()), u, z),
{
    lemma_topo_symmetric(g);
    let t = g.topo();
    let n = g.n();
    let p = a[c];
    let mp = part_mask(a, p, n);
    let a2 = move_piece(g, a, c, to);
    let m2 = part_mask(a2, p, n);
    let r = Seq::new(n as nat, |x: int| t.reaches(m2, u, x));
    assert(m2[u]);
    lemma_reaches_self(t, m2, u);
    assert forall|y: int| 0 <= y < n && #[trigger] r[y] implies t.closed_at(r, mp, y) by {
        lemma_reaches_ends(t, m2, u, y);
        assert(a2[y] == p);
        assert(!in_piece(g, a, c, y) && a[y] == p);
        assert forall|j: int| t.lo(y) <= j < t.hi(y) && mp[#[trigger] t.nbr(j)] implies r[t.nbr(j)] by {
            let z2 = t.nbr(j);
            assert(t.xadj[y + 1] <= t.xadj[t.n()]);
            assert(0 <= z2 < n);
            if in_piece(g, a, c, z2) {
                lemma_reaches_self(t, mp, y);
                lemma_reaches_extend(t, mp, y, y, j);
                lemma_reaches_reverse(t, mp, y, z2);
                lemma_reaches_trans(t, mp, c, z2, y);
                assert(in_piece(g, a, c, y));
            } else {
                assert(m2[z2]);
                lemma_reaches_extend(t, m2, u, y, j);
            }
        }
    }
    lemma_closed_contains_reachable(t, r, mp, u, z);
}

/// A walk inside the part from a vertex of the piece of `c` stays in the
/// piece, which is part `to` once moved.
proof fn lemma_inside_piece_reach(g: GraphView, a: Seq<u32>, c: int, to: u32, u: int, z: int)
    requires
        g.sound(),
        a.len() == g.n(),
        0 <= c < g.n(),
        in_piece(g, a, c, u),
        g.topo().reaches(part_mask(a, a[c], g.n()), u, z),
    ensures
        g.topo().reaches(part_mask(move_piece(g, a, c, to), to, g.n()), u, z),
{
    let t = g.topo();
    let n = g.n();
    let p = a[c];
    let mp = part_mask(a, p, n);
    let a2 = move_piece(g, a, c, to);
    let cm = Seq::new(n as nat, |x: int| in_piece(g, a, c, x));
    let r = Seq::new(n as nat, |x: int| t.reaches(cm, u, x));
    lemma_reaches_ends(t, mp, c, u);
    lemma_reaches_self(t, cm, u);
    assert forall|y: int| 0 <= y < n && #[trigger] r[y] implies t.closed_at(r, mp, y) by {
        lemma_reaches_ends(t, cm, u, y);
        assert(in_piece(g, a, c, y));
        assert forall|j: int| t.lo(y) <= j < t.hi(y) && mp[#[trigger] t.nbr(j)] implies r[t.nbr(j)] by {
            let z2 = t.nbr(j);
            assert(t.xadj[y + 1] <= t.xadj[t.n()]);
            assert(0 <= z2 < n);
            lemma_reaches_extend(t, mp, c, y, j);
            assert(in_piece(g, a, c, z2));
            assert(cm[z2]);
            lemma_reaches_extend(t, cm, u, y, j);
        }
    }
    lemma_closed_contains_reachable(t, r, mp, u, z);
    let m2 = part_mask(a2, to, n);
    assert forall|i: int| 0 <= i < cm.len() && #[trigger] cm[i] implies m2[i] by {
        assert(a2[i] == to);
    }
    crate::graph::topology::lemma_reaches_widen(t, cm, m2, u, z);
}

/// Moving the piece of `c` does not make a vertex the head of a piece that
/// was not one before.
proof fn lemma_head_after_move(g: GraphView, a: Seq<u32>, c: int, to: u32, v: int)
    requires
        g.sound(),
        g.symmetric(),
        a.len() == g.n(),
        0 <= c < g.n(),
        to != a[c],
        0 <= v < g.n(),
        piece_head(g, move_piece(g, a, c, to), v),
    ensures
        piece_head(g, a, v),
{
    lemma_topo_symmetric(g);
    let t = g.topo();
    let n = g.n();
    let p = a[c];
    let a2 = move_piece(g, a, c, to);
    let mp = part_mask(a, p, n);
    if !piece_head(g, a, v) {
        let w = choose|w: int|
            0 <= w < v && a[w] == a[v] && #[trigger] t.reaches(part_mask(a, a[v], n), w, v);
        if in_piece(g, a, c, v) {
            lemma_reaches_reverse(t, mp, w, v);
            lemma_reaches_trans(t, mp, c, v, w);
            assert(in_piece(g, a, c, w));
            lemma_inside_piece_reach(g, a, c, to, w, v);
            assert(a2[w] == to && a2[v] == to);
            assert(t.reaches(part_mask(a2, a2[v], n), w, v));
        } else if a[v] == p {
            if in_piece(g, a, c, w) {
                lemma_reaches_trans(t, mp, c, w, v);
                assert(false);
            }
            lemma_outside_piece_reach(g, a, c, to, w, v);
            assert(a2[w] == p && a2[v] == p);
            assert(t.reaches(part_mask(a2, a2[v], n), w, v));
        } else {
            let q = a[v];
            assert(!in_piece(g, a, c, w));
            assert(a2[w] == q && a2[v] == q);
            let mq = part_mask(a, q, n);
            let m2 = part_mask(a2, q, n);
            assert forall|i: int| 0 <= i < mq.len() && #[trigger] mq[i] implies m2[i] by {
                if in_piece(g, a, c, i) {
                    assert(a[i] == p);
                }
            }
            crate::graph::topology::lemma_reaches_widen(t, mq, m2, w, v);
        }
        assert(!piece_head(g, a2, v));
    }
}

/// On a symmetric graph, moving a whole piece into a part it touches merges
/// it with a piece there, so the number of pieces drops.
pub proof fn lemma_move_piece_shrinks(g: GraphView, a: Seq<u32>, c: int, to: u32, x: int, j: int)
    requires
        g.sound(),
        g.symmetric(),
        a.len() == g.n(),
        0 <= c < g.n(),
        to != a[c],
        in_piece(g, a, c, x),
        g.lo(x) <= j < g.hi(x),
        a[g.nbr(j)] == to,
    ensures
        piece_count(g, move_piece(g, a, c, to)) < piece_count(g, a),
{
    lemma_topo_symmetric(g);
    let t = g.topo();
    let n = g.n();
    let p = a[c];
    let a2 = move_piece(g, a, c, to);
    let mp = part_mask(a, p, n);
    let m2 = part_mask(a2, to, n);
    let before = Seq::new(n as nat, |v: int| piece_head(g, a, v));
    let after = Seq::new(n as nat, |v: int| piece_head(g, a2, v));
    assert forall|v: int| 0 <= v < after.len() && #[trigger] after[v] implies before[v] by {
        lemma_head_after_move(g, a, c, to, v);
    }
    // the head of the moved piece and the head of the piece it touches meet
    lemma_reaches_ends(t, mp, c, x);
    assert(t.xadj[x + 1] <= t.xadj[t.n()]);
    let q = g.nbr(j);
    assert(0 <= q < n);
    let r0 = lemma_head_exists(g, a, c);
    lemma_reaches_reverse(t, mp, r0, c);
    assert(in_piece(g, a, c, r0));
    let rq = lemma_head_exists(g, a, q);
    lemma_reaches_trans(t, mp, r0, c, x);
    lemma_inside_piece_reach(g, a, c, to, r0, x);
    assert(!in_piece(g, a, c, q));
    assert(m2[q]);
    lemma_reaches_extend(t, m2, r0, x, j);
    let mq = part_mask(a, to, n);
    assert forall|i: int| 0 <= i < mq.len() && #[trigger] mq[i] implies m2[i] by {
        if in_piece(g, a, c, i) {
            assert(a[i] == p);
        }
    }
    crate::graph::topology::lemma_reaches_widen(t, mq, m2, rq, q);
    lemma_reaches_reverse(t, m2, rq, q);
    lemma_reaches_trans(t, m2, r0, q, rq);
    lemma_reaches_reverse(t, m2, r0, rq);
    assert(!in_piece(g, a, c, rq));
    assert(a2[r0] == to && a2[rq] == to);
    if r0 < rq {
        assert(t.reaches(part_mask(a2, a2[rq], n), r0, rq));
        assert(!after[rq] && before[rq]);
    } else {
        assert(r0 != rq);
        assert(t.reaches(part_mask(a2, a2[r0], n), rq, r0));
        assert(!after[r0] && before[r0]);
    }
    crate::coarsen::matching::lemma_count_true_subset(after, before);
}

/// Mask of the unlabelled vertices of `part`.
fn unlabelled_flags(a: &[u32], part: u32, comp: &Vec<usize>) -> (m: Vec<bool>)
    requires
        comp@.len() == a@.len(),
    ensures
        m@ == unlabelled_mask(a@, part, comp@, a@.len() as int),
{
    let n = a.len();
    let mut m: Vec<bool> = Vec::new();
    let mut v: usize = 0;
    while v < n
        invariant
            n == a@.len(),
            comp@.len() == n,
            0 <= v <= n,
            m@ == unlabelled_mask(a@, part, comp@, v as int),
        decreases n - v,
    {
        m.push(a[v] == part && comp[v] == usize::MAX);
        proof {
            assert(m@ =~= unlabelled_mask(a@, part, comp@, v + 1));
        }
        v += 1;
    }
    m
}

/// Label the connected pieces of `part` (in order of their smallest vertex)
/// and count their sizes; `comp[v]` is the piece of `v`, `usize::MAX` outside
/// the part. Each piece is what a search from its first vertex reaches
/// through unlabelled vertices of the part; on a symmetric graph the pieces
/// are exactly the connected components of the part.
fn part_components(g: &CsrGraph, a: &[u32], part: u32) -> (r: (Vec<usize>, Vec<usize>))
    requires
        g@.sound(),
        a@.len() == g@.n(),
    ensures
        r.0@.len() == g@.n(),
        r.1@.len() <= g@.n(),
        forall|v: int| 0 <= v < g@.n() ==> (#[trigger] r.0@[v] == usize::MAX <==> a@[v] != part),
        forall|v: int| 0 <= v < g@.n() && #[trigger] r.0@[v] != usize::MAX ==> r.0@[v] < r.1@.len(),
        forall|c: int| 0 <= c < r.1@.len() ==> #[trigger] label_used(r.0@, g@.n(), c),
        forall|c: int| 0 <= c < r.1@.len() ==> #[trigger] r.1@[c] as int == label_count(r.0@, c, g@.n()),
        g@.symmetric() ==> labels_exact(g@, a@, part, r.0@),
{
    let ghost gv = g@;
    let n = g.n();
    let mut comp: Vec<usize> = vec![usize::MAX; n];
    let mut sizes: Vec<usize> = Vec::new();
    let mut start: usize = 0;
    while start < n
        invariant
            gv == g@,
            gv.sound(),
            n == gv.n(),
            a@.len() == n,
            comp@.len() == n,
            0 <= start <= n,
            sizes@.len() <= start,
            forall|v: int| 0 <= v < n && #[trigger] comp@[v] != usize::MAX ==> a@[v] == part && comp@[v] < sizes@.len(),
            forall|v: int| 0 <= v < start && a@[v] == part ==> #[trigger] comp@[v] != usize::MAX,
            forall|c: int| 0 <= c < sizes@.len() ==> #[trigger] label_used(comp@, n as int, c),
            forall|c: int| 0 <= c < sizes@.len() ==> #[trigger] sizes@[c] as int == label_count(comp@, c, n as int),
            gv.symmetric() ==> labels_closed(gv, a@, part, comp@),
            gv.symmetric() ==> labels_exact(gv, a@, part, comp@),
        decreases n - start,
    {
        if a[start] == part && comp[start] == usize::MAX {
            let cid = sizes.len();
            let allowed = unlabelled_flags(a, part, &comp);
            let ghost comp0 = comp@;
            let ghost t = gv.topo();
            let ghost mp = part_mask(a@, part, n as int);
            proof {
                assert(allowed@[start as int]);
            }
            let xadj = g.xadj();
            let adjncy = g.adjncy();
            let visited = reach_set(xadj, adjncy, start, allowed.as_slice());
            proof {
                assert(t == (crate::graph::topology::Topo { xadj: xadj@, adjncy: adjncy@ }));
                assert forall|x: int| 0 <= x < n && #[trigger] visited@[x] implies a@[x] == part && comp0[x]
                    == usize::MAX by {
                    lemma_reaches_ends(t, allowed@, start as int, x);
                }
            }
            let mut size: usize = 0;
            let mut w: usize = 0;
            while w < n
                invariant
                    n == gv.n(),
                    visited@.len() == n,
                    comp@.len() == n,
                    0 <= w <= n,
                    size <= w,
                    size as int == count_true(Seq::new(w as nat, |x: int| visited@[x])),
                    forall|x: int| 0 <= x < n ==> #[trigger] comp@[x] == if x < w && visited@[x] {
                        cid
                    } else {
                        comp0[x]
                    },
                decreases n - w,
            {
                proof {
                    assert(Seq::new((w + 1) as nat, |x: int| visited@[x]).drop_last() =~= Seq::new(
                        w as nat,
                        |x: int| visited@[x],
                    ));
                }
                if visited[w] {
                    comp.set(w, cid);
                    size += 1;
                }
                w += 1;
            }
            proof {
                assert(w == n);
                assert(label_marks(comp@, cid as int, n as int) =~= Seq::new(n as nat, |x: int| visited@[x]));
                assert(size as int == label_count(comp@, cid as int, n as int));
                assert forall|c: int| 0 <= c < cid implies #[trigger] sizes@[c] as int == label_count(comp@, c, n as int) by {
                    assert(label_marks(comp@, c, n as int) =~= label_marks(comp0, c, n as int));
                }
            }
            let ghost sizes0 = sizes@;
            sizes.push(size);
            proof {
                assert forall|c: int| 0 <= c < sizes@.len() implies #[trigger] sizes@[c] as int == label_count(
                    comp@,
                    c,
                    n as int,
                ) by {
                    if c < cid {
                        assert(sizes@[c] == sizes0[c]);
                    }
                }
                assert(visited@[start as int]) by {
                    lemma_reaches_self(t, allowed@, start as int);
                }
                assert(comp@[start as int] == cid);
                assert forall|v: int| 0 <= v < n && #[trigger] comp@[v] != usize::MAX implies a@[v] == part
                    && comp@[v] < sizes@.len() by {
                    if !visited@[v] {
                        assert(comp@[v] == comp0[v]);
                    }
                }
                assert forall|v: int| 0 <= v < start + 1 && a@[v] == part implies #[trigger] comp@[v]
                    != usize::MAX by {
                    if v < start {
                        assert(comp0[v] != usize::MAX);
                    }
                }
                assert forall|c: int| 0 <= c < sizes@.len() implies #[trigger] label_used(comp@, n as int, c) by {
                    if c < cid {
                        assert(label_used(comp0, n as int, c));
                        let v = choose|v: int| 0 <= v < n && #[trigger] comp0[v] == c;
                        assert(!visited@[v]);
                        assert(comp@[v] == c);
                    } else {
                        assert(comp@[start as int] == c);
                    }
                }
                if gv.symmetric() {
                    lemma_topo_symmetric(gv);
                    assert forall|u: int, x: int|
                        0 <= u < n && 0 <= x < n && comp@[u] != usize::MAX && a@[x] == part
                            && #[trigger] t.reaches(mp, u, x) implies comp@[x] == comp@[u] by {
                        if visited@[u] {
                            // the search from start reaches u, hence x
                            crate::graph::topology::lemma_reaches_widen(t, allowed@, mp, start as int, u);
                            lemma_reaches_trans(t, mp, start as int, u, x);
                            lemma_fresh_reach(gv, a@, part, comp0, start as int, x);
                            assert(visited@[x]);
                        } else {
                            assert(comp0[u] != usize::MAX);
                            assert(comp0[x] == comp0[u]);
                            assert(!visited@[x]);
                        }
                    }
                    assert forall|u: int, x: int|
                        #![trigger comp@[u], comp@[x]]
                        #![trigger t.reaches(mp, u, x)]
                        0 <= u < n && 0 <= x < n && comp@[u] != usize::MAX && comp@[x] != usize::MAX implies (
                        comp@[u] == comp@[x] <==> t.reaches(mp, u, x)) by {
                        if visited@[u] && visited@[x] {
                            crate::graph::topology::lemma_reaches_widen(t, allowed@, mp, start as int, u);
                            crate::graph::topology::lemma_reaches_widen(t, allowed@, mp, start as int, x);
                            lemma_reaches_reverse(t, mp, start as int, u);
                            lemma_reaches_trans(t, mp, u, start as int, x);
                        } else if visited@[u] {
                            assert(comp0[x] != usize::MAX);
                            assert(comp0[x] < cid);
                            if t.reaches(mp, u, x) {
                                lemma_reaches_reverse(t, mp, u, x);
                                assert(comp0[u] == comp0[x]);
                            }
                        } else if visited@[x] {
                            assert(comp0[u] != usize::MAX);
                            assert(comp0[u] < cid);
                            if t.reaches(mp, u, x) {
                                assert(comp0[x] == comp0[u]);
                            }
                        } else {
                            assert(comp@[u] == comp0[u] && comp@[x] == comp0[x]);
                            assert(comp0[u] == comp0[x] <==> t.reaches(mp, u, x));
                        }
                    }
                }
            }
        }
        start += 1;
    }
    (comp, sizes)
}

/// Slot `j` of `x`, a vertex labelled `sec`, leads into part `q`, another
/// part than `part`.
pub open spec fn slot_into(g: GraphView, a: Seq<u32>, comp: Seq<usize>, sec: usize, part: int, q: int, x: int, j: int) -> bool {
    &&& comp[x] == sec
    &&& g.lo(x) <= j < g.hi(x)
    &&& a[g.nbr(j)] as int == q
    &&& q != part
}

/// On a valid graph, a piece that leaves out some vertex `y` of its part has
/// a vertex with a neighbour outside the part.
proof fn lemma_piece_touches_outside(g: GraphView, a: Seq<u32>, c: int, y: int)
    requires
        g.valid(),
        a.len() == g.n(),
        0 <= c < g.n(),
        0 <= y < g.n(),
        a[y] == a[c],
        !in_piece(g, a, c, y),
    ensures
        exists|x: int, j: int|
            #![trigger in_piece(g, a, c, x), g.nbr(j)]
            in_piece(g, a, c, x) && g.lo(x) <= j < g.hi(x) && a[g.nbr(j)] != a[c],
{
    crate::graph::csr::lemma_valid_facts(g);
    lemma_topo_symmetric(g);
    let t = g.topo();
    let n = g.n();
    let p = a[c];
    let mp = part_mask(a, p, n);
    let all = t.everywhere();
    if !exists|x: int, j: int|
        #![trigger in_piece(g, a, c, x), g.nbr(j)]
        in_piece(g, a, c, x) && g.lo(x) <= j < g.hi(x) && a[g.nbr(j)] != a[c] {
        let cm = Seq::new(n as nat, |x: int| in_piece(g, a, c, x));
        assert forall|w: int| 0 <= w < n && #[trigger] cm[w] implies t.closed_at(cm, all, w) by {
            assert(in_piece(g, a, c, w));
            assert forall|j: int| t.lo(w) <= j < t.hi(w) && all[#[trigger] t.nbr(j)] implies cm[t.nbr(j)] by {
                let z = t.nbr(j);
                assert(t.xadj[w + 1] <= t.xadj[t.n()]);
                assert(0 <= z < n);
                assert(g.lo(w) <= j < g.hi(w));
                assert(a[g.nbr(j)] == a[c]);
                lemma_reaches_extend(t, mp, c, w, j);
            }
        }
        assert(t.reaches(all, 0, c));
        assert(t.reaches(all, 0, y));
        lemma_reaches_reverse(t, all, 0, c);
        lemma_reaches_trans(t, all, c, 0, y);
        lemma_reaches_self(t, mp, c);
        assert(cm[c]);
        lemma_closed_contains_reachable(t, cm, all, c, y);
        assert(false);
    }
}

/// A part whose vertices all carry one label, exactly given, is contiguous.
proof fn lemma_single_label_contiguous(g: GraphView, a: Seq<u32>, part: u32, comp: Seq<usize>, nlab: int)
    requires
        a.len() == g.n(),
        comp.len() == g.n(),
        nlab <= 1,
        forall|v: int| 0 <= v < g.n() ==> (#[trigger] comp[v] == usize::MAX <==> a[v] != part),
        forall|v: int| 0 <= v < g.n() && #[trigger] comp[v] != usize::MAX ==> comp[v] < nlab,
        labels_exact(g, a, part, comp),
    ensures
        crate::graph::contiguity::part_contiguous(g, a, part),
{
    let n = g.n();
    let mem = crate::graph::subgraph::members_upto(a, part, n);
    crate::graph::subgraph::lemma_members_props(a, part, n);
    if mem.len() > 0 {
        let r = mem[0];
        assert(a[r] == part);
        assert(comp[r] != usize::MAX);
        assert forall|v: int| 0 <= v < n && a[v] == part implies #[trigger] g.topo().reaches(
            part_mask(a, part, n),
            mem[0],
            v,
        ) by {
            assert(comp[v] != usize::MAX);
            assert(comp[r] == comp[v]);
        }
    }
}

/// A piece count is at least one on a nonempty graph and at most the number
/// of vertices.
proof fn lemma_piece_count_bounds(g: GraphView, a: Seq<u32>)
    requires
        a.len() == g.n(),
    ensures
        piece_count(g, a) <= g.n(),
        g.n() >= 1 ==> piece_count(g, a) >= 1,
{
    let n = g.n();
    let heads = Seq::new(n as nat, |v: int| piece_head(g, a, v));
    crate::coarsen::matching::lemma_count_true_bounds(heads);
    if n >= 1 {
        let none = Seq::new(n as nat, |v: int| false);
        crate::coarsen::matching::lemma_count_true_none(n as nat);
        crate::coarsen::matching::lemma_count_true_update(none, 0);
        let one = none.update(0, true);
        assert(heads[0]);
        assert forall|i: int| 0 <= i < one.len() && #[trigger] one[i] implies heads[i] by {
            assert(i == 0);
        }
        crate::coarsen::matching::lemma_count_true_subset(one, heads);
    }
}

/// Moving vertices between the parts keeps a partition that describes the
/// graph describing it.
proof fn lemma_same_parts_check(g: GraphView, p: PartitionView, q: PartitionView)
    requires
        same_parts(p, q),
    ensures
        crate::graph::partition::partition_check(p, g) is Ok ==> crate::graph::partition::partition_check(q, g) is Ok,
{
}

/// With no vertex, every part is contiguous.
proof fn lemma_empty_graph_contiguous(g: GraphView, p: PartitionView)
    requires
        g.n() == 0,
    ensures
        all_contiguous(g, p.assignment, p.k),
{
    assert forall|q: int| 0 <= q < p.k implies #[trigger] crate::graph::contiguity::part_contiguous(
        g,
        p.assignment,
        q as u32,
    ) by {
        crate::graph::subgraph::lemma_members_props(p.assignment, q as u32, 0);
    }
}

/// Which vertices lie in the piece of `c`.
pub open spec fn piece_marks(g: GraphView, a: Seq<u32>, c: int) -> Seq<bool> {
    Seq::new(g.n() as nat, |v: int| in_piece(g, a, c, v))
}

/// Number of vertices in the piece of `c`.
pub open spec fn piece_size(g: GraphView, a: Seq<u32>, c: int) -> int {
    count_true(piece_marks(g, a, c))
}

/// Adjacency slots in `lo..r` that lead into part `q`.
pub open spec fn row_hits(g: GraphView, a: Seq<u32>, q: int, lo: int, r: int) -> int
    decreases r - lo,
{
    if r <= lo {
        0
    } else {
        row_hits(g, a, q, lo, r - 1) + if a[g.nbr(r - 1)] as int == q {
            1int
        } else {
            0int
        }
    }
}

/// Adjacency slots into part `q` of the vertices below `x` that `marks` selects.
pub open spec fn marked_hits(g: GraphView, a: Seq<u32>, marks: Seq<bool>, q: int, x: int) -> int
    decreases x,
{
    if x <= 0 {
        0
    } else {
        marked_hits(g, a, marks, q, x - 1) + if marks[x - 1] {
            row_hits(g, a, q, g.lo(x - 1), g.hi(x - 1))
        } else {
            0int
        }
    }
}

/// Number of edges (adjacency slots) from the piece of `c` into part `q`.
pub open spec fn piece_links(g: GraphView, a: Seq<u32>, c: int, q: int) -> int {
    marked_hits(g, a, piece_marks(g, a, c), q, g.n())
}

/// One repair move among `k` parts, from `a` to `b`: the piece of `c` goes,
/// whole, to the part `q` other than its own that it has the most edges
/// into (the highest such part among equals, and at least one edge), while
/// the piece of `m`, another piece of the same part and at least as large,
/// stays.
pub open spec fn piece_move(g: GraphView, k: int, a: Seq<u32>, b: Seq<u32>, c: int, m: int, q: u32) -> bool {
    &&& 0 <= c < g.n()
    &&& 0 <= m < g.n()
    &&& a[m] == a[c]
    &&& !in_piece(g, a, c, m)
    &&& piece_size(g, a, c) <= piece_size(g, a, m)
    &&& q != a[c]
    &&& (q as int) < k
    &&& piece_links(g, a, c, q as int) > 0
    &&& forall|q2: int|
        0 <= q2 < k && q2 != a[c] ==> #[trigger] piece_links(g, a, c, q2) <= piece_links(g, a, c, q as int) && (
        piece_links(g, a, c, q2) == piece_links(g, a, c, q as int) ==> q2 <= q)
    &&& b == move_piece(g, a, c, q)
}

/// `b` follows from `a` by one repair move among `k` parts.
pub open spec fn repair_move(g: GraphView, k: int, a: Seq<u32>, b: Seq<u32>) -> bool {
    exists|c: int, m: int, q: u32| #[trigger] piece_move(g, k, a, b, c, m, q)
}

/// Step `i` of the sequence `s` is a repair move.
pub open spec fn repair_step_at(g: GraphView, k: int, s: Seq<Seq<u32>>, i: int) -> bool {
    repair_move(g, k, s[i], s[i + 1])
}

/// The assignments `s` follow one another by repair moves among `k` parts.
pub open spec fn repair_path(g: GraphView, k: int, s: Seq<Seq<u32>>) -> bool {
    &&& s.len() >= 1
    &&& forall|i: int| 0 <= i < s.len() - 1 ==> #[trigger] repair_step_at(g, k, s, i)
}

/// On a labelling that is exact for `part`, the piece of a labelled vertex
/// has as many vertices as its label.
proof fn lemma_piece_size_label(g: GraphView, a: Seq<u32>, part: u32, comp: Seq<usize>, c: int)
    requires
        labels_exact(g, a, part, comp),
        a.len() == g.n(),
        comp.len() == g.n(),
        forall|v: int| 0 <= v < g.n() ==> (#[trigger] comp[v] == usize::MAX <==> a[v] != part),
        0 <= c < g.n(),
        comp[c] != usize::MAX,
    ensures
        piece_marks(g, a, c) == label_marks(comp, comp[c] as int, g.n()),
        piece_size(g, a, c) == label_count(comp, comp[c] as int, g.n()),
{
    assert forall|v: int| 0 <= v < g.n() implies #[trigger] piece_marks(g, a, c)[v] == label_marks(
        comp,
        comp[c] as int,
        g.n(),
    )[v] by {
        if a[v] == part {
            assert(comp[v] != usize::MAX);
            assert(comp[c] == comp[v] <==> g.topo().reaches(part_mask(a, part, g.n()), c, v));
        } else {
            assert(comp[v] == usize::MAX);
        }
    }
    assert(piece_marks(g, a, c) =~= label_marks(comp, comp[c] as int, g.n()));
}

/// `x` capped at `usize::MAX`.
pub open spec fn saturated(x: int) -> int {
    if x < usize::MAX {
        x
    } else {
        usize::MAX as int
    }
}

/// Vertices moved along the path `s` of assignments of `n` vertices: the
/// vertices whose part changes, summed over its steps.
pub open spec fn repair_cost(n: int, s: Seq<Seq<u32>>) -> int
    decreases s.len(),
{
    if s.len() <= 1 {
        0
    } else {
        repair_cost(n, s.drop_last()) + changed_count(s[s.len() - 2], s[s.len() - 1], n)
    }
}

/// Which vertices below `i` have another part in `a` than in `a0`.
pub open spec fn diff_marks(a0: Seq<u32>, a: Seq<u32>, i: int) -> Seq<bool> {
    Seq::new(i as nat, |x: int| a[x] != a0[x])
}

/// The count of changed vertices, as a count of marks.
proof fn lemma_changed_marks(a0: Seq<u32>, a: Seq<u32>, i: int)
    requires
        0 <= i,
    ensures
        changed_count(a0, a, i) == count_true(diff_marks(a0, a, i)),
    decreases i,
{
    if i > 0 {
        lemma_changed_marks(a0, a, i - 1);
        assert(diff_marks(a0, a, i).drop_last() =~= diff_marks(a0, a, i - 1));
    }
}

/// Number of vertices below `i` whose part differs between `a0` and `a`.
pub open spec fn changed_count(a0: Seq<u32>, a: Seq<u32>, i: int) -> int
    decreases i,
{
    if i <= 0 {
        0
    } else {
        changed_count(a0, a, i - 1) + if a[i - 1] != a0[i - 1] {
            1int
        } else {
            0
        }
    }
}

/// An assignment differs from itself nowhere.
proof fn lemma_changed_none(a: Seq<u32>, i: int)
    ensures
        changed_count(a, a, i) == 0,
    decreases i,
{
    if i > 0 {
        lemma_changed_none(a, i - 1);
    }
}

/// Changing one vertex raises the count by at most one; the count never
/// exceeds the number of vertices.
proof fn lemma_changed_update(a0: Seq<u32>, a: Seq<u32>, v: int, x: u32, i: int)
    requires
        0 <= v < a.len(),
        0 <= i <= a.len(),
    ensures
        changed_count(a0, a.update(v, x), i) <= changed_count(a0, a, i) + 1,
        changed_count(a0, a.update(v, x), i) <= i,
        v >= i ==> changed_count(a0, a.update(v, x), i) == changed_count(a0, a, i),
    decreases i,
{
    if i > 0 {
        lemma_changed_update(a0, a, v, x, i - 1);
    }
}

/// Every part that has a vertex under `a0` still has one under `a`.
pub open spec fn keeps_parts(a0: Seq<u32>, a: Seq<u32>) -> bool {
    forall|q: int| #[trigger] part_present(a0, q) ==> part_present(a, q)
}

/// Reassign pieces of parts that are not connected: while some part is not
/// contiguous (at most `n * k` rounds), find the first part with several
/// pieces, keep its largest piece (the last of equal size), and move the
/// first other piece that touches another part, whole, to the part it has
/// the most edges into (the highest part id among equals). Returns the
/// number of vertices moved. On a valid graph every move merges pieces, so
/// the rounds end with every part contiguous, and the result follows from
/// the input by a sequence of such moves (`repair_path`), whose moved
/// vertices (`repair_cost`, capped at `usize::MAX`) the result counts.
pub fn repair_contiguity(g: &CsrGraph, partition: &mut Partition) -> (moved: usize)
    requires
        g@.sound(),
        old(partition)@.fits(g@),
    ensures
        same_parts(old(partition)@, final(partition)@),
        keeps_parts(old(partition)@.assignment, final(partition)@.assignment),
        moved >= changed_count(old(partition)@.assignment, final(partition)@.assignment, g@.n()),
        contiguity_result(g@, old(partition)@) is Ok ==> final(partition)@ == old(partition)@ && moved == 0,
        g@.valid() ==> all_contiguous(g@, final(partition)@.assignment, final(partition)@.k),
        g@.valid() ==> exists|path: Seq<Seq<u32>>|
            repair_path(g@, old(partition)@.k as int, path) && path[0] == old(partition)@.assignment && #[trigger] path.last()
                == final(partition)@.assignment && moved as int == saturated(repair_cost(g@.n(), path)),
        g@.valid() && crate::graph::partition::partition_check(old(partition)@, g@) is Ok ==> contiguity_result(
            g@,
            final(partition)@,
        ) is Ok,
{
    let ghost gv = g@;
    let ghost p0 = partition@;
    let ghost keep = gv.valid();
    proof {
        if keep {
            crate::graph::csr::lemma_valid_facts(gv);
        }
    }
    let n = g.n();
    let k = partition.k() as usize;
    let xadj = g.xadj();
    let adjncy = g.adjncy();
    let mut reassigned: usize = 0;
    let rounds: usize = match n.checked_mul(k) {
        Some(x) => x,
        None => usize::MAX,
    };
    proof {
        assert(rounds >= n) by (nonlinear_arith)
            requires
                k >= 1,
                rounds == usize::MAX || rounds == n * k,
                n <= usize::MAX,
        ;
        lemma_piece_count_bounds(gv, p0.assignment);
        lemma_changed_none(p0.assignment, n as int);
        if keep && n == 0 {
            lemma_empty_graph_contiguous(gv, p0);
        }
    }
    let ghost mut path: Seq<Seq<u32>> = seq![p0.assignment];
    let mut round: usize = 0;
    while round < rounds
        invariant_except_break
            round > 0 ==> contiguity_result(gv, p0) is Err,
            round == 0 ==> partition@ == p0 && reassigned == 0,
        invariant
            gv == g@,
            gv.sound(),
            n == gv.n(),
            k == p0.k,
            k >= 1,
            xadj@ == gv.xadj,
            adjncy@ == gv.adjncy,
            same_parts(p0, partition@),
            keeps_parts(p0.assignment, partition@.assignment),
            reassigned >= changed_count(p0.assignment, partition@.assignment, n as int),
            p0.fits(gv),
            rounds >= n,
            keep ==> gv.valid() && gv.symmetric() && gv.topo().connected(),
            keep ==> piece_count(gv, partition@.assignment) + round <= n,
            keep && n >= 1 ==> piece_count(gv, partition@.assignment) >= 1,
            keep && n == 0 ==> all_contiguous(gv, partition@.assignment, k as u32),
            keep ==> repair_path(gv, k as int, path) && path[0] == p0.assignment && path.last() == partition@.assignment,
            keep ==> reassigned as int == saturated(repair_cost(n as int, path)),
        ensures
            same_parts(p0, partition@),
            keeps_parts(p0.assignment, partition@.assignment),
            reassigned >= changed_count(p0.assignment, partition@.assignment, n as int),
            contiguity_result(gv, p0) is Ok ==> partition@ == p0 && reassigned == 0,
            keep ==> all_contiguous(gv, partition@.assignment, k as u32),
            keep ==> repair_path(gv, k as int, path) && path[0] == p0.assignment && path.last() == partition@.assignment,
            keep ==> reassigned as int == saturated(repair_cost(n as int, path)),
        decreases rounds - round,
    {
        if check_contiguity(g, partition).is_ok() {
            proof {
                crate::graph::contiguity::lemma_checked_parts_contiguous(gv, partition@);
            }
            break;
        }
        assert(contiguity_result(gv, p0) is Err);
        let ghost a_r = partition@;
        let ghost r_r = reassigned as int;
        let mut made_progress = false;
        let mut part: usize = 0;
        while part < k
            invariant_except_break
                !made_progress,
                partition@ == a_r,
                keep ==> forall|q: int|
                    0 <= q < part ==> #[trigger] crate::graph::contiguity::part_contiguous(gv, a_r.assignment, q as u32),
            invariant
                gv == g@,
                gv.sound(),
                n == gv.n(),
                k == p0.k,
                xadj@ == gv.xadj,
                adjncy@ == gv.adjncy,
                same_parts(p0, partition@),
                same_parts(p0, a_r),
                keeps_parts(p0.assignment, a_r.assignment),
                made_progress ==> keeps_parts(p0.assignment, partition@.assignment),
                reassigned >= changed_count(p0.assignment, partition@.assignment, n as int),
                !made_progress ==> reassigned == r_r,
                made_progress ==> reassigned as int == saturated(
                    r_r + changed_count(a_r.assignment, partition@.assignment, n as int),
                ),
                p0.fits(gv),
                0 <= part <= k,
                keep ==> gv.valid() && gv.symmetric() && gv.topo().connected(),
            ensures
                same_parts(p0, partition@),
                made_progress ==> keeps_parts(p0.assignment, partition@.assignment),
                !made_progress ==> partition@ == a_r,
                keep && !made_progress ==> forall|q: int|
                    0 <= q < k ==> #[trigger] crate::graph::contiguity::part_contiguous(gv, a_r.assignment, q as u32),
                keep && made_progress ==> piece_count(gv, partition@.assignment) < piece_count(gv, a_r.assignment),
                keep && made_progress ==> repair_move(gv, k as int, a_r.assignment, partition@.assignment),
                !made_progress ==> reassigned == r_r,
                made_progress ==> reassigned as int == saturated(
                    r_r + changed_count(a_r.assignment, partition@.assignment, n as int),
                ),
            decreases k - part,
        {
            let (comp, sizes) = part_components(g, partition.assignment(), part as u32);
            if sizes.len() > 1 {
                // the largest piece, the last among equals
                let mut main: usize = 0;
                let mut i: usize = 1;
                while i < sizes.len()
                    invariant
                        1 <= i <= sizes@.len(),
                        main < i,
                        forall|t: int| 0 <= t < i ==> #[trigger] sizes@[t] <= sizes@[main as int],
                    decreases sizes@.len() - i,
                {
                    if sizes[i] >= sizes[main] {
                        main = i;
                    }
                    i += 1;
                }
                let ghost first_sec: int = if main == 0 {
                    1
                } else {
                    0
                };
                let mut sec: usize = 0;
                let mut done = false;
                while sec < sizes.len() && !done
                    invariant
                        gv == g@,
                        gv.sound(),
                        n == gv.n(),
                        k == p0.k,
                        xadj@ == gv.xadj,
                        adjncy@ == gv.adjncy,
                        same_parts(p0, partition@),
                        same_parts(p0, a_r),
                        p0.fits(gv),
                        comp@.len() == n,
                        part < k,
                        0 <= sec <= sizes@.len(),
                        main < sizes@.len(),
                        first_sec == if main == 0 {
                            1int
                        } else {
                            0int
                        },
                        made_progress == done,
                        !done ==> reassigned == r_r,
                        done ==> reassigned as int == saturated(
                            r_r + changed_count(a_r.assignment, partition@.assignment, n as int),
                        ),
                        keeps_parts(p0.assignment, a_r.assignment),
                        done ==> keeps_parts(p0.assignment, partition@.assignment),
                        reassigned >= changed_count(p0.assignment, partition@.assignment, n as int),
                        keep ==> gv.valid() && gv.symmetric() && gv.topo().connected(),
                        !done ==> partition@ == a_r,
                        keep && !done ==> sec <= first_sec,
                        keep && done ==> piece_count(gv, partition@.assignment) < piece_count(gv, a_r.assignment),
                        keep && done ==> repair_move(gv, k as int, a_r.assignment, partition@.assignment),
                        forall|t: int| 0 <= t < sizes@.len() ==> #[trigger] sizes@[t] <= sizes@[main as int],
                        forall|c: int| 0 <= c < sizes@.len() ==> #[trigger] sizes@[c] as int == label_count(comp@, c, n as int),
                        forall|v: int| 0 <= v < n ==> (#[trigger] comp@[v] == usize::MAX <==> a_r.assignment[v] != part as u32),
                        forall|v: int| 0 <= v < n && #[trigger] comp@[v] != usize::MAX ==> comp@[v] < sizes@.len(),
                        forall|c: int| 0 <= c < sizes@.len() ==> #[trigger] label_used(comp@, n as int, c),
                        gv.symmetric() ==> labels_exact(gv, a_r.assignment, part as u32, comp@),
                    decreases sizes@.len() - sec,
                {
                    if sec != main {
                        let a = partition.assignment();
                        let mut counts: Vec<u64> = vec![0u64; k];
                        let mut members: Vec<usize> = Vec::new();
                        let mut v: usize = 0;
                        while v < n
                            invariant
                                gv == g@,
                                gv.sound(),
                                n == gv.n(),
                                k == p0.k,
                                xadj@ == gv.xadj,
                                adjncy@ == gv.adjncy,
                                a@ == partition@.assignment,
                                same_parts(p0, partition@),
                                p0.fits(gv),
                                comp@.len() == n,
                                counts@.len() == k,
                                0 <= v <= n,
                                forall|t: int|
                                    0 <= t < members@.len() ==> (#[trigger] members@[t] as int) < v && comp@[members@[t] as int]
                                        == sec,
                                forall|x: int| 0 <= x < v && comp@[x] == sec ==> #[trigger] members@.contains(x as usize),
                                members@.len() <= v,
                                members@.len() == count_true(label_marks(comp@, sec as int, v as int)),
                                forall|q: int| 0 <= q < k ==> #[trigger] counts@[q] <= gv.xadj[v as int],
                                forall|q: int|
                                    0 <= q < k && q != part ==> #[trigger] counts@[q] as int == marked_hits(
                                        gv,
                                        a@,
                                        label_marks(comp@, sec as int, n as int),
                                        q,
                                        v as int,
                                    ),
                                forall|q: int|
                                    0 <= q < k ==> (#[trigger] counts@[q] > 0 <==> exists|x: int, j: int|
                                        0 <= x < v && #[trigger] slot_into(gv, a@, comp@, sec, part as int, q, x, j)),
                            decreases n - v,
                        {
                            proof {
                                assert(gv.xadj[v as int] <= gv.xadj[v as int + 1] <= gv.xadj[gv.n()]);
                            }
                            if comp[v] == sec {
                                let ghost m0 = members@;
                                members.push(v);
                                proof {
                                    assert(members@ == m0.push(v));
                                    assert forall|x: int| 0 <= x < v + 1 && comp@[x] == sec implies #[trigger] members@.contains(
                                        x as usize,
                                    ) by {
                                        if x < v {
                                            assert(m0.contains(x as usize));
                                            let t = choose|t: int| 0 <= t < m0.len() && m0[t] == x as usize;
                                            assert(members@[t] == x as usize);
                                        } else {
                                            assert(members@[members@.len() - 1] == x as usize);
                                        }
                                    }
                                }
                                let lo = xadj[v] as usize;
                                let hi = xadj[v + 1] as usize;
                                let mut j = lo;
                                while j < hi
                                    invariant
                                        gv.sound(),
                                        n == gv.n(),
                                        adjncy@ == gv.adjncy,
                                        a@.len() == n,
                                        forall|u: int| 0 <= u < n ==> #[trigger] a@[u] < k,
                                        counts@.len() == k,
                                        (v as int) < n,
                                        comp@.len() == n,
                                        comp@[v as int] == sec,
                                        lo == gv.lo(v as int),
                                        hi == gv.hi(v as int),
                                        lo <= j <= hi,
                                        hi <= gv.m(),
                                        forall|q: int| 0 <= q < k ==> #[trigger] counts@[q] <= j,
                                        forall|q: int|
                                            0 <= q < k && q != part ==> #[trigger] counts@[q] as int == marked_hits(
                                                gv,
                                                a@,
                                                label_marks(comp@, sec as int, n as int),
                                                q,
                                                v as int,
                                            ) + row_hits(gv, a@, q, lo as int, j as int),
                                        forall|q: int|
                                            0 <= q < k ==> (#[trigger] counts@[q] > 0 <==> (exists|x: int, jj: int|
                                                0 <= x < v && #[trigger] slot_into(gv, a@, comp@, sec, part as int, q, x, jj)) || (
                                            exists|jj: int|
                                                lo <= jj < j && #[trigger] slot_into(
                                                    gv,
                                                    a@,
                                                    comp@,
                                                    sec,
                                                    part as int,
                                                    q,
                                                    v as int,
                                                    jj,
                                                ))),
                                    decreases hi - j,
                                {
                                    let u = adjncy[j] as usize;
                                    proof {
                                        assert((gv.adjncy[j as int] as int) < gv.n());
                                    }
                                    let up = a[u] as usize;
                                    let ghost c0 = counts@;
                                    if up != part {
                                        let c = counts[up] + 1;
                                        counts.set(up, c);
                                    }
                                    proof {
                                        assert forall|q: int| 0 <= q < k implies (#[trigger] counts@[q] > 0 <==> (exists|x: int, jj: int|
                                            0 <= x < v && #[trigger] slot_into(gv, a@, comp@, sec, part as int, q, x, jj)) || (
                                        exists|jj: int|
                                            lo <= jj < j + 1 && #[trigger] slot_into(
                                                gv,
                                                a@,
                                                comp@,
                                                sec,
                                                part as int,
                                                q,
                                                v as int,
                                                jj,
                                            ))) by {
                                            if q == up as int && up != part {
                                                assert(slot_into(gv, a@, comp@, sec, part as int, q, v as int, j as int));
                                            } else {
                                                assert(counts@[q] == c0[q]);
                                                if exists|jj: int|
                                                    lo <= jj < j + 1 && #[trigger] slot_into(
                                                        gv,
                                                        a@,
                                                        comp@,
                                                        sec,
                                                        part as int,
                                                        q,
                                                        v as int,
                                                        jj,
                                                    ) {
                                                    let jj = choose|jj: int|
                                                        lo <= jj < j + 1 && #[trigger] slot_into(
                                                            gv,
                                                            a@,
                                                            comp@,
                                                            sec,
                                                            part as int,
                                                            q,
                                                            v as int,
                                                            jj,
                                                        );
                                                    assert(jj != j);
                                                }
                                            }
                                        }
                                    }
                                    j += 1;
                                }
                            }
                            proof {
                                assert forall|q: int| 0 <= q < k implies (#[trigger] counts@[q] > 0 <==> exists|x: int, j: int|
                                    0 <= x < v + 1 && #[trigger] slot_into(gv, a@, comp@, sec, part as int, q, x, j)) by {
                                    if exists|x: int, j: int|
                                        0 <= x < v + 1 && #[trigger] slot_into(gv, a@, comp@, sec, part as int, q, x, j) {
                                        let (x, j) = choose|x: int, j: int|
                                            0 <= x < v + 1 && #[trigger] slot_into(gv, a@, comp@, sec, part as int, q, x, j);
                                        if x < v {
                                        } else {
                                            assert(comp@[v as int] == sec);
                                        }
                                    }
                                }
                            }
                            proof {
                                assert(label_marks(comp@, sec as int, v + 1).drop_last() =~= label_marks(
                                    comp@,
                                    sec as int,
                                    v as int,
                                ));
                            }
                            v += 1;
                        }
                        // the foreign part with the most edges, the highest id among equals
                        let mut best: Option<usize> = None;
                        let mut q: usize = 0;
                        while q < k
                            invariant
                                0 <= q <= k,
                                counts@.len() == k,
                                best matches Some(b) ==> b < k && b != part && counts@[b as int] > 0,
                                best is None ==> forall|q2: int| 0 <= q2 < q && q2 != part ==> #[trigger] counts@[q2] == 0,
                                best matches Some(b) ==> forall|q2: int|
                                    0 <= q2 < q && q2 != part ==> #[trigger] counts@[q2] <= counts@[b as int] && (counts@[q2]
                                        == counts@[b as int] ==> q2 <= b),
                            decreases k - q,
                        {
                            if q != part && counts[q] > 0 {
                                let better = match best {
                                    None => true,
                                    Some(b) => counts[q] >= counts[b],
                                };
                                if better {
                                    best = Some(q);
                                }
                            }
                            q += 1;
                        }
                        if let Some(bp) = best {
                            let ghost a0 = a@;
                            let ghost r0 = reassigned as int;
                            let ghost (x0, j0) = choose|x: int, j: int|
                                0 <= x < n && #[trigger] slot_into(gv, a0, comp@, sec, part as int, bp as int, x, j);
                            let mut t: usize = 0;
                            while t < members.len()
                                invariant
                                    0 <= t <= members@.len(),
                                    forall|tt: int| 0 <= tt < members@.len() ==> (#[trigger] members@[tt] as int) < n,
                                    n == gv.n(),
                                    bp < k,
                                    k == p0.k,
                                    same_parts(p0, partition@),
                                    p0.fits(gv),
                                    a0.len() == n,
                                    partition@.k == a_r.k,
                                    partition@.tpwgts == a_r.tpwgts,
                                    forall|x: int|
                                        0 <= x < n ==> #[trigger] partition@.assignment[x] == if exists|tt: int|
                                            0 <= tt < t && members@[tt] == x as usize {
                                            bp as u32
                                        } else {
                                            a0[x]
                                        },
                                    reassigned >= changed_count(p0.assignment, partition@.assignment, n as int),
                                    p0.assignment.len() == n,
                                    reassigned as int == saturated(r0 + t),
                                    0 <= r0 <= usize::MAX,
                                decreases members@.len() - t,
                            {
                                let ghost before = partition@.assignment;
                                partition.set_part(members[t], bp as u32);
                                proof {
                                    lemma_changed_update(p0.assignment, before, members@[t as int] as int, bp as u32, n as int);
                                }
                                proof {
                                    assert forall|x: int| 0 <= x < n implies #[trigger] partition@.assignment[x] == if exists|tt: int|
                                        0 <= tt < t + 1 && members@[tt] == x as usize {
                                        bp as u32
                                    } else {
                                        a0[x]
                                    } by {
                                        if x == members@[t as int] as int {
                                            assert(members@[t as int] == x as usize);
                                        } else {
                                            assert(partition@.assignment[x] == before[x]);
                                            if exists|tt: int| 0 <= tt < t + 1 && members@[tt] == x as usize {
                                                let tt = choose|tt: int| 0 <= tt < t + 1 && members@[tt] == x as usize;
                                                assert(tt != t);
                                            }
                                        }
                                    }
                                }
                                if reassigned < usize::MAX {
                                    reassigned = reassigned + 1;
                                }
                                t += 1;
                            }
                            proof {
                                assert(diff_marks(a0, partition@.assignment, n as int) =~= label_marks(
                                    comp@,
                                    sec as int,
                                    n as int,
                                )) by {
                                    assert forall|x: int| 0 <= x < n implies #[trigger] diff_marks(
                                        a0,
                                        partition@.assignment,
                                        n as int,
                                    )[x] == label_marks(comp@, sec as int, n as int)[x] by {
                                        let mem = exists|tt: int| 0 <= tt < members@.len() && members@[tt] == x as usize;
                                        if comp@[x] == sec {
                                            assert(members@.contains(x as usize));
                                            assert(mem);
                                            assert(a0[x] == part as u32);
                                        } else if mem {
                                            let tt = choose|tt: int| 0 <= tt < members@.len() && members@[tt] == x as usize;
                                            assert(comp@[members@[tt] as int] == sec);
                                        }
                                    }
                                }
                                lemma_changed_marks(a0, partition@.assignment, n as int);
                                assert(reassigned as int == saturated(
                                    r0 + changed_count(a0, partition@.assignment, n as int),
                                ));
                            }
                            proof {
                                assert(a0 == a_r.assignment);
                                assert forall|q: int| #[trigger] part_present(p0.assignment, q) implies part_present(
                                    partition@.assignment,
                                    q,
                                ) by {
                                    assert(part_present(a0, q));
                                    let w = if q == part as int {
                                        choose|y: int| 0 <= y < n && #[trigger] comp@[y] == main
                                    } else {
                                        choose|y: int| 0 <= y < a0.len() && a0[y] == q
                                    };
                                    if q == part as int {
                                        assert(label_used(comp@, n as int, main as int));
                                        assert(comp@[w] != usize::MAX);
                                    }
                                    assert(a0[w] == q);
                                    if exists|tt: int| 0 <= tt < t && members@[tt] == w as usize {
                                        let tt = choose|tt: int| 0 <= tt < t && members@[tt] == w as usize;
                                        assert(comp@[members@[tt] as int] == sec);
                                    }
                                    assert(partition@.assignment[w] == q);
                                }
                            }
                            proof {
                                if keep {
                                    let c = x0;
                                    assert(comp@[c] == sec);
                                    assert(comp@[c] != usize::MAX);
                                    assert(a0[c] == part as u32);
                                    let ghost moved_a = move_piece(gv, a0, c, bp as u32);
                                    assert forall|x: int| 0 <= x < n implies #[trigger] partition@.assignment[x]
                                        == moved_a[x] by {
                                        let inp = in_piece(gv, a0, c, x);
                                        let mem = exists|tt: int| 0 <= tt < members@.len() && members@[tt] == x as usize;
                                        if comp@[x] == sec {
                                            assert(members@.contains(x as usize));
                                            assert(mem);
                                            assert(a0[x] == part as u32);
                                            assert(comp@[c] == comp@[x]);
                                            assert(gv.topo().reaches(part_mask(a0, part as u32, gv.n()), c, x));
                                            assert(inp);
                                        } else {
                                            if mem {
                                                let tt = choose|tt: int| 0 <= tt < members@.len() && members@[tt] == x as usize;
                                                assert(comp@[members@[tt] as int] == sec);
                                            }
                                            if inp {
                                                assert(a0[x] == part as u32);
                                                assert(comp@[x] != usize::MAX);
                                                assert(gv.topo().reaches(part_mask(a0, part as u32, gv.n()), c, x));
                                            }
                                        }
                                    }
                                    assert(partition@.assignment =~= moved_a);
                                    assert(a0 == a_r.assignment);
                                    assert(in_piece(gv, a0, c, x0)) by {
                                        lemma_reaches_self(gv.topo(), part_mask(a0, part as u32, gv.n()), c);
                                    }
                                    lemma_move_piece_shrinks(gv, a0, c, bp as u32, x0, j0);
                                    assert(label_used(comp@, n as int, main as int));
                                    let m = choose|y: int| 0 <= y < n && #[trigger] comp@[y] == main;
                                    lemma_piece_size_label(gv, a0, part as u32, comp@, c);
                                    lemma_piece_size_label(gv, a0, part as u32, comp@, m);
                                    assert(sizes@[sec as int] <= sizes@[main as int]);
                                    assert(!in_piece(gv, a0, c, m)) by {
                                        if in_piece(gv, a0, c, m) {
                                            assert(comp@[c] == comp@[m]);
                                        }
                                    }
                                    assert(a0[gv.nbr(j0)] == bp as u32);
                                    assert(piece_marks(gv, a0, c) == label_marks(comp@, sec as int, n as int));
                                    assert forall|q2: int| 0 <= q2 < k && q2 != part implies #[trigger] piece_links(
                                        gv,
                                        a0,
                                        c,
                                        q2,
                                    ) == counts@[q2] as int by {}
                                    assert(piece_links(gv, a0, c, bp as int) == counts@[bp as int] as int);
                                    assert forall|q2: int| 0 <= q2 < k && q2 != a0[c] implies #[trigger] piece_links(
                                        gv,
                                        a0,
                                        c,
                                        q2,
                                    ) <= piece_links(gv, a0, c, bp as int) && (piece_links(gv, a0, c, q2) == piece_links(
                                        gv,
                                        a0,
                                        c,
                                        bp as int,
                                    ) ==> q2 <= bp) by {
                                        assert(counts@[q2] <= counts@[bp as int]);
                                    }
                                    assert(piece_move(gv, k as int, a0, partition@.assignment, c, m, bp as u32));
                                    assert(repair_move(gv, k as int, a_r.assignment, partition@.assignment));
                                }
                            }
                            made_progress = true;
                            done = true;
                        } else {
                            proof {
                                if keep && sec as int == first_sec {
                                    // a second piece exists, so this one touches another part
                                    assert(label_used(comp@, n as int, sec as int));
                                    let c = choose|c: int| 0 <= c < n && #[trigger] comp@[c] == sec;
                                    assert(label_used(comp@, n as int, main as int));
                                    let y = choose|y: int| 0 <= y < n && #[trigger] comp@[y] == main;
                                    assert(comp@[c] != usize::MAX && comp@[y] != usize::MAX);
                                    assert(a@[c] == part as u32 && a@[y] == part as u32);
                                    if in_piece(gv, a@, c, y) {
                                        assert(gv.topo().reaches(part_mask(a@, part as u32, gv.n()), c, y));
                                        assert(comp@[c] == comp@[y]);
                                    }
                                    lemma_piece_touches_outside(gv, a@, c, y);
                                    let (x, j) = choose|x: int, j: int|
                                        #![trigger in_piece(gv, a@, c, x), gv.nbr(j)]
                                        in_piece(gv, a@, c, x) && gv.lo(x) <= j < gv.hi(x) && a@[gv.nbr(j)] != a@[c];
                                    lemma_reaches_ends(gv.topo(), part_mask(a@, part as u32, gv.n()), c, x);
                                    assert(comp@[x] != usize::MAX);
                                    assert(comp@[x] == comp@[c]);
                                    assert(gv.xadj[x + 1] <= gv.xadj[gv.n()]);
                                    let q2 = a@[gv.nbr(j)] as int;
                                    assert(0 <= q2 < k);
                                    assert(slot_into(gv, a@, comp@, sec, part as int, q2, x, j));
                                    assert(counts@[q2] > 0);
                                    assert(false);
                                }
                            }
                        }
                    }
                    sec += 1;
                }
                if made_progress {
                    break;
                }
                proof {
                    if keep {
                        assert(false);
                    }
                }
            } else {
                proof {
                    if keep {
                        lemma_single_label_contiguous(gv, a_r.assignment, part as u32, comp@, sizes@.len() as int);
                    }
                }
            }
            part += 1;
        }
        if !made_progress {
            break;
        }
        round += 1;
        proof {
            if keep {
                let old_path = path;
                path = path.push(partition@.assignment);
                assert(path.drop_last() =~= old_path);
                let d = changed_count(a_r.assignment, partition@.assignment, n as int);
                lemma_changed_marks(a_r.assignment, partition@.assignment, n as int);
                lemma_count_true_bounds(diff_marks(a_r.assignment, partition@.assignment, n as int));
                assert(d >= 0);
                assert(repair_cost(n as int, path) == repair_cost(n as int, old_path) + d);
                assert forall|i: int| 0 <= i < path.len() - 1 implies #[trigger] repair_step_at(gv, k as int, path, i) by {
                    if i < old_path.len() - 1 {
                        assert(repair_step_at(gv, k as int, old_path, i));
                        assert(path[i] == old_path[i] && path[i + 1] == old_path[i + 1]);
                    } else {
                        assert(path[i] == a_r.assignment);
                    }
                }
            }
            lemma_same_parts_check(gv, p0, partition@);
            if keep {
                lemma_piece_count_bounds(gv, partition@.assignment);
                if n == 0 {
                    lemma_empty_graph_contiguous(gv, partition@);
                }
            }
        }
    }
    proof {
        if keep {
            assert(repair_path(gv, k as int, path) && path[0] == p0.assignment && path.last() == partition@.assignment
                && reassigned as int == saturated(repair_cost(n as int, path)));
        }
        lemma_same_parts_check(gv, p0, partition@);
        if gv.valid() && crate::graph::partition::partition_check(p0, gv) is Ok {
            crate::graph::contiguity::lemma_contiguous_ok(gv, partition@);
        }
    }
    reassigned
}

} // verus!
