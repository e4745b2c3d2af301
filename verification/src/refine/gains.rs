use vstd::prelude::*;

use crate::graph::csr::{CsrGraph, GraphView};

verus! {

/// Total weight of the slots `lo..r` whose neighbour lies in part `p`.
pub open spec fn part_weight(g: GraphView, a: Seq<u32>, p: u32, lo: int, r: int) -> int
    decreases r - lo,
{
    if r <= lo {
        0
    } else {
        part_weight(g, a, p, lo, r - 1) + if a[g.nbr(r - 1)] == p {
            g.ew(r - 1)
        } else {
            0
        }
    }
}

/// Total of `|ew|` over the slots `lo..r`.
pub open spec fn abs_weight(g: GraphView, lo: int, r: int) -> int
    decreases r - lo,
{
    if r <= lo {
        0
    } else {
        abs_weight(g, lo, r - 1) + if g.ew(r - 1) >= 0 {
            g.ew(r - 1)
        } else {
            -g.ew(r - 1)
        }
    }
}

/// The parts other than `from` met along the slots `lo..r`, each once, in
/// order of first appearance.
pub open spec fn first_parts(g: GraphView, a: Seq<u32>, from: u32, lo: int, r: int) -> Seq<u32>
    decreases r - lo,
{
    if r <= lo {
        Seq::empty()
    } else {
        let s = first_parts(g, a, from, lo, r - 1);
        let p = a[g.nbr(r - 1)];
        if p == from || s.contains(p) {
            s
        } else {
            s.push(p)
        }
    }
}

/// Largest `part_weight` over the parts `ps`, taken over the slots `lo..r`.
pub open spec fn best_part_weight(g: GraphView, a: Seq<u32>, ps: Seq<u32>, lo: int, r: int) -> int
    decreases ps.len(),
{
    if ps.len() == 0 {
        0
    } else if ps.len() == 1 {
        part_weight(g, a, ps[0], lo, r)
    } else {
        let rest = best_part_weight(g, a, ps.drop_last(), lo, r);
        let w = part_weight(g, a, ps.last(), lo, r);
        if w > rest {
            w
        } else {
            rest
        }
    }
}

/// Gain of moving `v` to its best adjacent part under the edge-cut objective:
/// the largest weight of edges into one other part minus the weight of edges
/// inside its own part; minus the internal weight when no other part is adjacent.
pub open spec fn cut_gain(g: GraphView, a: Seq<u32>, v: int) -> int {
    let from = a[v];
    let ps = first_parts(g, a, from, g.lo(v), g.hi(v));
    let internal = part_weight(g, a, from, g.lo(v), g.hi(v));
    if ps.len() == 0 {
        -internal
    } else {
        best_part_weight(g, a, ps, g.lo(v), g.hi(v)) - internal
    }
}

proof fn lemma_part_weight_bound(g: GraphView, a: Seq<u32>, p: u32, lo: int, r: int)
    ensures
        -abs_weight(g, lo, r) <= part_weight(g, a, p, lo, r) <= abs_weight(g, lo, r),
        0 <= abs_weight(g, lo, r),
    decreases r - lo,
{
    if r > lo {
        lemma_part_weight_bound(g, a, p, lo, r - 1);
    }
}

proof fn lemma_abs_weight_bound(g: GraphView, lo: int, r: int)
    requires
        lo <= r,
    ensures
        abs_weight(g, lo, r) <= 0x8000_0000 * (r - lo),
    decreases r - lo,
{
    if r > lo {
        lemma_abs_weight_bound(g, lo, r - 1);
    }
}

proof fn lemma_best_part_weight_bound(g: GraphView, a: Seq<u32>, ps: Seq<u32>, lo: int, r: int)
    ensures
        -abs_weight(g, lo, r) <= best_part_weight(g, a, ps, lo, r) <= abs_weight(g, lo, r),
    decreases ps.len(),
{
    lemma_part_weight_bound(g, a, 0, lo, r);
    if ps.len() == 1 {
        lemma_part_weight_bound(g, a, ps[0], lo, r);
    } else if ps.len() > 1 {
        lemma_best_part_weight_bound(g, a, ps.drop_last(), lo, r);
        lemma_part_weight_bound(g, a, ps.last(), lo, r);
    }
}

/// The adjacent parts of `v` other than `from`, in order of first appearance,
/// each with the weight of the edges into it minus the weight of the edges
/// into `from`; and that internal weight.
pub fn cut_candidates(g: &CsrGraph, a: &[u32], v: usize, from: u32) -> (r: (Vec<(u32, i64)>, i64))
    requires
        g@.sound(),
        a@.len() == g@.n(),
        (v as int) < g@.n(),
    ensures
        r.0@.len() == first_parts(g@, a@, from, g@.lo(v as int), g@.hi(v as int)).len(),
        forall|i: int|
            0 <= i < r.0@.len() ==> (#[trigger] r.0@[i]).0 == first_parts(g@, a@, from, g@.lo(v as int), g@.hi(v as int))[i]
                && r.0@[i].1 == part_weight(g@, a@, r.0@[i].0, g@.lo(v as int), g@.hi(v as int)) - part_weight(
                g@,
                a@,
                from,
                g@.lo(v as int),
                g@.hi(v as int),
            ),
        r.1 == part_weight(g@, a@, from, g@.lo(v as int), g@.hi(v as int)),
{
    let ghost gv = g@;
    let xadj = g.xadj();
    let adjncy = g.adjncy();
    proof {
        assert(gv.xadj[v as int] <= gv.xadj[v as int + 1] <= gv.xadj[gv.n()]);
    }
    let lo = xadj[v] as usize;
    let hi = xadj[v + 1] as usize;
    let mut cands: Vec<(u32, i64)> = Vec::new();
    let mut internal: i64 = 0;
    let mut j = lo;
    while j < hi
        invariant
            gv == g@,
            gv.sound(),
            xadj@ == gv.xadj,
            adjncy@ == gv.adjncy,
            a@.len() == gv.n(),
            (v as int) < gv.n(),
            lo == gv.lo(v as int),
            hi == gv.hi(v as int),
            hi <= gv.m(),
            lo <= j <= hi,
            internal == part_weight(gv, a@, from, lo as int, j as int),
            cands@.len() == first_parts(gv, a@, from, lo as int, j as int).len(),
            forall|i: int|
                0 <= i < cands@.len() ==> (#[trigger] cands@[i]).0 == first_parts(gv, a@, from, lo as int, j as int)[i]
                    && cands@[i].1 == part_weight(gv, a@, cands@[i].0, lo as int, j as int),
            -0x8000_0000 * (j - lo) <= internal <= 0x8000_0000 * (j - lo),
            forall|i: int|
                0 <= i < cands@.len() ==> -0x8000_0000 * (j - lo) <= (#[trigger] cands@[i]).1 <= 0x8000_0000 * (j
                    - lo),
        decreases hi - j,
    {
        let u = adjncy[j] as usize;
        proof {
            assert((gv.adjncy[j as int] as int) < gv.n());
            lemma_first_parts_distinct(gv, a@, from, lo as int, j as int);
        }
        let part = a[u];
        let ew = g.edge_weight(j) as i64;
        let ghost c0 = cands@;
        let ghost fp0 = first_parts(gv, a@, from, lo as int, j as int);
        if part == from {
            internal = internal + ew;
            proof {
                assert forall|i: int| 0 <= i < cands@.len() implies (#[trigger] cands@[i]).0 != part by {
                    assert(fp0.contains(cands@[i].0)) by {
                        assert(fp0[i] == cands@[i].0);
                    }
                }
            }
        } else {
            let mut i: usize = 0;
            while i < cands.len() && cands[i].0 != part
                invariant
                    0 <= i <= cands@.len(),
                    cands@ == c0,
                    forall|t: int| 0 <= t < i ==> (#[trigger] cands@[t]).0 != part,
                decreases cands@.len() - i,
            {
                i += 1;
            }
            if i < cands.len() {
                let (p, w) = cands[i];
                proof {
                    assert(fp0[i as int] == part);
                    assert(fp0.contains(part));
                    assert forall|t: int| 0 <= t < c0.len() && t != i implies (#[trigger] c0[t]).0 != part by {
                        assert(fp0[t] == c0[t].0);
                    }
                }
                cands.set(i, (p, w + ew));
            } else {
                proof {
                    assert(!fp0.contains(part)) by {
                        if fp0.contains(part) {
                            let t = choose|t: int| 0 <= t < fp0.len() && fp0[t] == part;
                            assert(c0[t].0 == part);
                        }
                    }
                }
                cands.push((part, ew));
            }
        }
        proof {
            let fp1 = first_parts(gv, a@, from, lo as int, j + 1);
            assert(gv.nbr(j as int) == u as int);
            assert forall|i: int|
                0 <= i < cands@.len() implies (#[trigger] cands@[i]).0 == fp1[i] && cands@[i].1 == part_weight(
                gv,
                a@,
                cands@[i].0,
                lo as int,
                j + 1,
            ) && -0x8000_0000 * (j + 1 - lo) <= cands@[i].1 <= 0x8000_0000 * (j + 1 - lo) by {
                if i < c0.len() {
                    assert(c0[i].0 == fp0[i]);
                    assert(c0[i].1 == part_weight(gv, a@, c0[i].0, lo as int, j as int));
                    if part == from || c0[i].0 != part {
                        assert(fp0.contains(c0[i].0));
                        lemma_first_parts_distinct(gv, a@, from, lo as int, j as int);
                        assert(cands@[i] == c0[i]);
                    }
                    if part != from && fp0.contains(part) {
                        assert(fp1 == fp0);
                    }
                } else {
                    assert(part != from && !fp0.contains(part));
                    lemma_absent_part(gv, a@, from, part, lo as int, j as int);
                    assert(fp1 == fp0.push(part));
                }
            }
        }
        j += 1;
    }
    let ghost c1 = cands@;
    let ghost lov = lo as int;
    let ghost hiv = hi as int;
    proof {
        lemma_first_parts_distinct(gv, a@, from, lov, hiv);
        lemma_abs_weight_bound(gv, lov, hiv);
        assert forall|t: int| 0 <= t < c1.len() implies -0x7fff_ffff_8000_0000 <= (#[trigger] c1[t]).1 - internal
            <= 0x7fff_ffff_8000_0000 by {
            assert(first_parts(gv, a@, from, lov, hiv)[t] == c1[t].0);
            assert(first_parts(gv, a@, from, lov, hiv).contains(c1[t].0));
            lemma_two_parts_bound(gv, a@, c1[t].0, from, lov, hiv);
            assert(0x8000_0000 * (hiv - lov) <= 0x7fff_ffff_8000_0000) by (nonlinear_arith)
                requires
                    hiv - lov <= 0xffff_ffff,
            ;
        }
    }
    let mut i: usize = 0;
    while i < cands.len()
        invariant
            0 <= i <= cands@.len(),
            cands@.len() == c1.len(),
            forall|t: int| 0 <= t < c1.len() ==> -0x7fff_ffff_8000_0000 <= (#[trigger] c1[t]).1 - internal <= 0x7fff_ffff_8000_0000,
            forall|t: int| 0 <= t < i ==> #[trigger] cands@[t] == (c1[t].0, (c1[t].1 - internal) as i64),
            forall|t: int| i <= t < cands@.len() ==> #[trigger] cands@[t] == c1[t],
        decreases cands@.len() - i,
    {
        let (p, w) = cands[i];
        cands.set(i, (p, w - internal));
        i += 1;
    }
    (cands, internal)
}

/// A part never met along the slots carries no weight.
proof fn lemma_absent_part(g: GraphView, a: Seq<u32>, from: u32, p: u32, lo: int, r: int)
    requires
        p != from,
        !first_parts(g, a, from, lo, r).contains(p),
    ensures
        part_weight(g, a, p, lo, r) == 0,
    decreases r - lo,
{
    if r > lo {
        let s = first_parts(g, a, from, lo, r - 1);
        assert(!s.contains(p)) by {
            if s.contains(p) {
                let t = choose|t: int| 0 <= t < s.len() && s[t] == p;
                assert(first_parts(g, a, from, lo, r)[t] == p);
            }
        }
        lemma_absent_part(g, a, from, p, lo, r - 1);
        if a[g.nbr(r - 1)] == p {
            assert(first_parts(g, a, from, lo, r) == s.push(p));
            assert(first_parts(g, a, from, lo, r)[s.len() as int] == p);
        }
    }
}

/// Edges into two different parts come from different slots.
proof fn lemma_two_parts_bound(g: GraphView, a: Seq<u32>, p: u32, q: u32, lo: int, r: int)
    requires
        p != q,
    ensures
        -abs_weight(g, lo, r) <= part_weight(g, a, p, lo, r) - part_weight(g, a, q, lo, r) <= abs_weight(g, lo, r),
    decreases r - lo,
{
    if r > lo {
        lemma_two_parts_bound(g, a, p, q, lo, r - 1);
    }
}

/// Each part met along the slots is a part of some neighbour, other than `from`.
pub proof fn lemma_first_parts_in(g: GraphView, a: Seq<u32>, from: u32, lo: int, r: int, t: int)
    requires
        0 <= t < first_parts(g, a, from, lo, r).len(),
    ensures
        first_parts(g, a, from, lo, r)[t] != from,
        exists|j: int| lo <= j < r && #[trigger] a[g.nbr(j)] == first_parts(g, a, from, lo, r)[t],
    decreases r - lo,
{
    if r > lo {
        let s = first_parts(g, a, from, lo, r - 1);
        if t < s.len() {
            lemma_first_parts_in(g, a, from, lo, r - 1, t);
            assert(first_parts(g, a, from, lo, r)[t] == s[t]);
            let j = choose|j: int| lo <= j < r - 1 && #[trigger] a[g.nbr(j)] == s[t];
            assert(lo <= j < r);
        } else {
            assert(a[g.nbr(r - 1)] == first_parts(g, a, from, lo, r)[t]);
        }
    }
}

pub proof fn lemma_first_parts_distinct(g: GraphView, a: Seq<u32>, from: u32, lo: int, r: int)
    ensures
        first_parts(g, a, from, lo, r).no_duplicates(),
        !first_parts(g, a, from, lo, r).contains(from),
    decreases r - lo,
{
    if r > lo {
        lemma_first_parts_distinct(g, a, from, lo, r - 1);
    }
}

proof fn lemma_best_part_weight_member(g: GraphView, a: Seq<u32>, ps: Seq<u32>, lo: int, r: int)
    requires
        ps.len() > 0,
    ensures
        exists|t: int| 0 <= t < ps.len() && best_part_weight(g, a, ps, lo, r) == part_weight(g, a, #[trigger] ps[t], lo, r),
    decreases ps.len(),
{
    if ps.len() == 1 {
        assert(best_part_weight(g, a, ps, lo, r) == part_weight(g, a, ps[0], lo, r));
    } else {
        lemma_best_part_weight_member(g, a, ps.drop_last(), lo, r);
        let t = choose|t: int|
            0 <= t < ps.drop_last().len() && best_part_weight(g, a, ps.drop_last(), lo, r) == part_weight(
                g,
                a,
                #[trigger] ps.drop_last()[t],
                lo,
                r,
            );
        assert(ps.drop_last()[t] == ps[t]);
        assert(ps[ps.len() - 1] == ps.last());
    }
}

/// Gain of moving `v` to its best adjacent part under the edge-cut
/// objective, computed exactly.
pub fn cut_gain_of(g: &CsrGraph, a: &[u32], v: usize) -> (r: i64)
    requires
        g@.sound(),
        a@.len() == g@.n(),
        (v as int) < g@.n(),
    ensures
        r == cut_gain(g@, a@, v as int),
        -abs_weight(g@, g@.lo(v as int), g@.hi(v as int)) <= r <= abs_weight(g@, g@.lo(v as int), g@.hi(v as int)),
{
    let ghost gv = g@;
    let ghost lo = gv.lo(v as int);
    let ghost hi = gv.hi(v as int);
    let from = a[v];
    let (cands, internal) = cut_candidates(g, a, v, from);
    let ghost fp = first_parts(gv, a@, from, lo, hi);
    proof {
        lemma_part_weight_bound(gv, a@, from, lo, hi);
        lemma_first_parts_distinct(gv, a@, from, lo, hi);
        assert(gv.xadj[v as int] <= gv.xadj[v as int + 1] <= gv.xadj[gv.n()]);
        lemma_abs_weight_bound(gv, lo, hi);
        assert(0x8000_0000 * (hi - lo) <= 0x7fff_ffff_8000_0000) by (nonlinear_arith)
            requires
                0 <= hi - lo <= 0xffff_ffff,
        ;
    }
    if cands.len() == 0 {
        return -internal;
    }
    let mut best: i64 = cands[0].1;
    proof {
        assert(fp.take(1) =~= seq![fp[0]]);
    }
    let mut i: usize = 1;
    while i < cands.len()
        invariant
            1 <= i <= cands@.len(),
            cands@.len() == fp.len(),
            forall|t: int|
                0 <= t < cands@.len() ==> (#[trigger] cands@[t]).0 == fp[t] && cands@[t].1 == part_weight(
                    gv,
                    a@,
                    cands@[t].0,
                    lo,
                    hi,
                ) - part_weight(gv, a@, from, lo, hi),
            internal == part_weight(gv, a@, from, lo, hi),
            best == best_part_weight(gv, a@, fp.take(i as int), lo, hi) - internal,
        decreases cands@.len() - i,
    {
        proof {
            assert(fp.take(i + 1).drop_last() =~= fp.take(i as int));
            assert(fp.take(i + 1).last() == fp[i as int]);
        }
        if cands[i].1 > best {
            best = cands[i].1;
        }
        i += 1;
    }
    proof {
        assert(fp.take(fp.len() as int) =~= fp);
        lemma_best_part_weight_member(gv, a@, fp, lo, hi);
        let t = choose|t: int| 0 <= t < fp.len() && best_part_weight(gv, a@, fp, lo, hi) == part_weight(gv, a@, #[trigger] fp[t], lo, hi);
        assert(fp.contains(fp[t]));
        lemma_two_parts_bound(gv, a@, fp[t], from, lo, hi);
    }
    best
}

/// Gain of moving vertex `v` to its best adjacent part under the edge-cut
/// objective: the weight of the edges into the best other part minus the
/// weight of the edges into its own part; minus the internal weight when
/// every neighbour shares its part.
pub fn compute_gain(g: &CsrGraph, assignment: &[u32], v: usize) -> (r: i32)
    requires
        g@.sound(),
        assignment@.len() == g@.n(),
        (v as int) < g@.n(),
        abs_weight(g@, g@.lo(v as int), g@.hi(v as int)) <= i32::MAX,
    ensures
        r == cut_gain(g@, assignment@, v as int),
{
    let r = cut_gain_of(g, assignment, v);
    r as i32
}

/// Some slot of `u` leads into part `p`.
pub open spec fn has_part(g: GraphView, a: Seq<u32>, u: int, p: u32) -> bool {
    exists|jj: int| g.lo(u) <= jj < g.hi(u) && #[trigger] a[g.nbr(jj)] == p
}

/// Some slot of `u` leads into part `p` through a vertex other than `skip`.
pub open spec fn has_part_except(g: GraphView, a: Seq<u32>, u: int, p: u32, skip: int) -> bool {
    exists|jj: int| g.lo(u) <= jj < g.hi(u) && g.nbr(jj) != skip && #[trigger] a[g.nbr(jj)] == p
}

/// Change in the communication volume of the neighbour in slot `j` when `v`
/// moves from `from` to `to` (positive when the volume drops).
pub open spec fn volume_term(g: GraphView, a: Seq<u32>, v: int, from: u32, to: u32, j: int) -> int {
    let u = g.nbr(j);
    if a[u] == from {
        if has_part(g, a, u, to) {
            0
        } else {
            -1
        }
    } else if a[u] == to {
        if has_part_except(g, a, u, from, v) {
            0
        } else {
            1
        }
    } else {
        0
    }
}

/// Sum of `volume_term` over the slots `lo..r`.
pub open spec fn volume_sum(g: GraphView, a: Seq<u32>, v: int, from: u32, to: u32, lo: int, r: int) -> int
    decreases r - lo,
{
    if r <= lo {
        0
    } else {
        volume_sum(g, a, v, from, to, lo, r - 1) + volume_term(g, a, v, from, to, r - 1)
    }
}

/// Gain in communication volume of moving `v` from `from` to `to`: the
/// neighbours' changes plus the change of `v`'s own count of foreign
/// neighbour parts.
pub open spec fn volume_gain(g: GraphView, a: Seq<u32>, v: int, from: u32, to: u32) -> int {
    let lo = g.lo(v);
    let hi = g.hi(v);
    let has_to = exists|j: int| lo <= j < hi && #[trigger] a[g.nbr(j)] == to && a[g.nbr(j)] != from;
    let has_from = exists|j: int| lo <= j < hi && #[trigger] a[g.nbr(j)] == from;
    volume_sum(g, a, v, from, to, lo, hi) + (if has_to {
        1int
    } else {
        0int
    }) - (if has_from {
        1int
    } else {
        0int
    })
}

/// Whether some slot of `u`, other than those leading to `skip`, leads into part `p`.
fn scan_part(g: &CsrGraph, a: &[u32], u: usize, p: u32, skip: Option<usize>) -> (r: bool)
    requires
        g@.sound(),
        a@.len() == g@.n(),
        (u as int) < g@.n(),
    ensures
        skip is None ==> r == has_part(g@, a@, u as int, p),
        skip matches Some(s) ==> r == has_part_except(g@, a@, u as int, p, s as int),
{
    let ghost gv = g@;
    let xadj = g.xadj();
    let adjncy = g.adjncy();
    proof {
        assert(gv.xadj[u as int] <= gv.xadj[u as int + 1] <= gv.xadj[gv.n()]);
    }
    let lo = xadj[u] as usize;
    let hi = xadj[u + 1] as usize;
    let mut j = lo;
    while j < hi
        invariant
            gv == g@,
            gv.sound(),
            xadj@ == gv.xadj,
            adjncy@ == gv.adjncy,
            a@.len() == gv.n(),
            lo == gv.lo(u as int),
            hi == gv.hi(u as int),
            hi <= gv.m(),
            lo <= j <= hi,
            skip is None ==> forall|jj: int| lo <= jj < j ==> #[trigger] a@[gv.nbr(jj)] != p,
            skip matches Some(s) ==> forall|jj: int| lo <= jj < j && gv.nbr(jj) != s ==> #[trigger] a@[gv.nbr(jj)] != p,
        decreases hi - j,
    {
        let w = adjncy[j] as usize;
        proof {
            assert((gv.adjncy[j as int] as int) < gv.n());
        }
        let skipped = match skip {
            Some(s) => w == s,
            None => false,
        };
        if !skipped && a[w] == p {
            proof {
                assert(a@[gv.nbr(j as int)] == p);
            }
            return true;
        }
        j += 1;
    }
    false
}

/// Gain in communication volume of moving `v` from `from` to `to`, exactly.
pub fn volume_gain_of(g: &CsrGraph, a: &[u32], v: usize, from: u32, to: u32) -> (r: i64)
    requires
        g@.sound(),
        a@.len() == g@.n(),
        (v as int) < g@.n(),
    ensures
        r == volume_gain(g@, a@, v as int, from, to),
        -(g@.hi(v as int) - g@.lo(v as int)) - 1 <= r <= g@.hi(v as int) - g@.lo(v as int) + 1,
{
    let ghost gv = g@;
    let xadj = g.xadj();
    let adjncy = g.adjncy();
    proof {
        assert(gv.xadj[v as int] <= gv.xadj[v as int + 1] <= gv.xadj[gv.n()]);
    }
    let lo = xadj[v] as usize;
    let hi = xadj[v + 1] as usize;
    let mut gain: i64 = 0;
    let mut has_from = false;
    let mut has_to = false;
    let mut j = lo;
    while j < hi
        invariant
            gv == g@,
            gv.sound(),
            xadj@ == gv.xadj,
            adjncy@ == gv.adjncy,
            a@.len() == gv.n(),
            (v as int) < gv.n(),
            lo == gv.lo(v as int),
            hi == gv.hi(v as int),
            hi <= gv.m(),
            lo <= j <= hi,
            gain == volume_sum(gv, a@, v as int, from, to, lo as int, j as int),
            -(j - lo) <= gain <= j - lo,
            has_from == exists|jj: int| lo <= jj < j && #[trigger] a@[gv.nbr(jj)] == from,
            has_to == exists|jj: int| lo <= jj < j && #[trigger] a@[gv.nbr(jj)] == to && a@[gv.nbr(jj)] != from,
        decreases hi - j,
    {
        let u = adjncy[j] as usize;
        proof {
            assert((gv.adjncy[j as int] as int) < gv.n());
            assert(gv.nbr(j as int) == u as int);
        }
        let up = a[u];
        if up == from {
            if !scan_part(g, a, u, to, None) {
                gain = gain - 1;
            }
            has_from = true;
        } else if up == to {
            if !scan_part(g, a, u, from, Some(v)) {
                gain = gain + 1;
            }
            has_to = true;
        }
        proof {
            assert(has_from == exists|jj: int| lo <= jj < j + 1 && #[trigger] a@[gv.nbr(jj)] == from) by {
                if up == from {
                    assert(a@[gv.nbr(j as int)] == from);
                }
                if exists|jj: int| lo <= jj < j + 1 && #[trigger] a@[gv.nbr(jj)] == from {
                    let jj = choose|jj: int| lo <= jj < j + 1 && #[trigger] a@[gv.nbr(jj)] == from;
                    if jj < j {
                    }
                }
            }
            assert(has_to == exists|jj: int| lo <= jj < j + 1 && #[trigger] a@[gv.nbr(jj)] == to && a@[gv.nbr(jj)] != from) by {
                if up == to && up != from {
                    assert(a@[gv.nbr(j as int)] == to);
                }
                if exists|jj: int| lo <= jj < j + 1 && #[trigger] a@[gv.nbr(jj)] == to && a@[gv.nbr(jj)] != from {
                    let jj = choose|jj: int| lo <= jj < j + 1 && #[trigger] a@[gv.nbr(jj)] == to && a@[gv.nbr(jj)] != from;
                    if jj < j {
                    }
                }
            }
        }
        j += 1;
    }
    let own: i64 = (if has_to {
        1i64
    } else {
        0i64
    }) - (if has_from {
        1i64
    } else {
        0i64
    });
    gain + own
}

/// Gain in communication volume of moving vertex `v` from `from_part` to
/// `to_part` (positive when the total volume drops).
pub fn compute_volume_gain(g: &CsrGraph, assignment: &[u32], v: usize, from_part: u32, to_part: u32) -> (r: i32)
    requires
        g@.sound(),
        assignment@.len() == g@.n(),
        (v as int) < g@.n(),
        g@.hi(v as int) - g@.lo(v as int) < i32::MAX,
    ensures
        r == volume_gain(g@, assignment@, v as int, from_part, to_part),
{
    let r = volume_gain_of(g, assignment, v, from_part, to_part);
    r as i32
}

/// Largest `volume_gain` of `v` over the destination parts `ps`; zero when `ps` is empty.
pub open spec fn best_volume(g: GraphView, a: Seq<u32>, v: int, from: u32, ps: Seq<u32>) -> int
    decreases ps.len(),
{
    if ps.len() == 0 {
        0
    } else if ps.len() == 1 {
        volume_gain(g, a, v, from, ps[0])
    } else {
        let rest = best_volume(g, a, v, from, ps.drop_last());
        let w = volume_gain(g, a, v, from, ps.last());
        if w > rest {
            w
        } else {
            rest
        }
    }
}

/// Best volume gain of `v` leaving `from`: the largest over the parts
/// adjacent to `v` other than `from`; zero when there is none.
pub open spec fn best_volume_gain_spec(g: GraphView, a: Seq<u32>, v: int, from: u32, k: u32) -> int {
    best_volume(g, a, v, from, first_parts(g, a, from, g.lo(v), g.hi(v)))
}

proof fn lemma_best_volume_bound(g: GraphView, a: Seq<u32>, v: int, from: u32, ps: Seq<u32>, d: int)
    requires
        forall|t: int| 0 <= t < ps.len() ==> -d <= volume_gain(g, a, v, from, #[trigger] ps[t]) <= d,
        d >= 0,
    ensures
        -d <= best_volume(g, a, v, from, ps) <= d,
    decreases ps.len(),
{
    if ps.len() == 1 {
        assert(-d <= volume_gain(g, a, v, from, ps[0]) <= d);
    } else if ps.len() > 1 {
        assert forall|t: int| 0 <= t < ps.drop_last().len() implies -d <= volume_gain(g, a, v, from, #[trigger] ps.drop_last()[t]) <= d by {
            assert(ps.drop_last()[t] == ps[t]);
        }
        lemma_best_volume_bound(g, a, v, from, ps.drop_last(), d);
        assert(ps.last() == ps[ps.len() - 1]);
    }
}

/// The maximum of `volume_gain_of` over the parts `ps`.
fn best_volume_over(g: &CsrGraph, a: &[u32], v: usize, from: u32, ps: &[u32]) -> (r: i64)
    requires
        g@.sound(),
        a@.len() == g@.n(),
        (v as int) < g@.n(),
    ensures
        r == best_volume(g@, a@, v as int, from, ps@),
{
    if ps.len() == 0 {
        return 0;
    }
    let mut best = volume_gain_of(g, a, v, from, ps[0]);
    proof {
        assert(ps@.take(1) =~= seq![ps@[0]]);
    }
    let mut i: usize = 1;
    while i < ps.len()
        invariant
            g@.sound(),
            a@.len() == g@.n(),
            (v as int) < g@.n(),
            1 <= i <= ps@.len(),
            best == best_volume(g@, a@, v as int, from, ps@.take(i as int)),
        decreases ps@.len() - i,
    {
        proof {
            assert(ps@.take(i + 1).drop_last() =~= ps@.take(i as int));
            assert(ps@.take(i + 1).last() == ps@[i as int]);
        }
        let w = volume_gain_of(g, a, v, from, ps[i]);
        if w > best {
            best = w;
        }
        i += 1;
    }
    proof {
        assert(ps@.take(ps@.len() as int) =~= ps@);
    }
    best
}

/// Best volume gain of `v` leaving `from_part`, exactly.
pub fn best_volume_gain_of(g: &CsrGraph, a: &[u32], v: usize, from_part: u32, k: u32) -> (r: i64)
    requires
        g@.sound(),
        a@.len() == g@.n(),
        (v as int) < g@.n(),
    ensures
        r == best_volume_gain_spec(g@, a@, v as int, from_part, k),
        -(g@.hi(v as int) - g@.lo(v as int)) - 1 <= r <= g@.hi(v as int) - g@.lo(v as int) + 1,
{
    let ghost gv = g@;
    let (cands, _) = cut_candidates(g, a, v, from_part);
    let mut fp: Vec<u32> = Vec::new();
    let mut i: usize = 0;
    while i < cands.len()
        invariant
            0 <= i <= cands@.len(),
            fp@.len() == i,
            forall|t: int| 0 <= t < i ==> #[trigger] fp@[t] == cands@[t].0,
        decreases cands@.len() - i,
    {
        fp.push(cands[i].0);
        i += 1;
    }
    let ghost d = gv.hi(v as int) - gv.lo(v as int) + 1;
    proof {
        assert(fp@ =~= first_parts(gv, a@, from_part, gv.lo(v as int), gv.hi(v as int)));
        assert(gv.xadj[v as int] <= gv.xadj[v as int + 1]);
    }
    if fp.len() > 0 {
        let r = best_volume_over(g, a, v, from_part, fp.as_slice());
        proof {
            lemma_volume_bounds(gv, a@, v as int, from_part, fp@);
            lemma_best_volume_bound(gv, a@, v as int, from_part, fp@, d);
        }
        r
    } else {
        0
    }
}

proof fn lemma_volume_sum_bound(g: GraphView, a: Seq<u32>, v: int, from: u32, to: u32, lo: int, r: int)
    requires
        lo <= r,
    ensures
        -(r - lo) <= volume_sum(g, a, v, from, to, lo, r) <= r - lo,
    decreases r - lo,
{
    if r > lo {
        lemma_volume_sum_bound(g, a, v, from, to, lo, r - 1);
    }
}

proof fn lemma_volume_bounds(g: GraphView, a: Seq<u32>, v: int, from: u32, ps: Seq<u32>)
    requires
        g.lo(v) <= g.hi(v),
    ensures
        forall|t: int|
            0 <= t < ps.len() ==> -(g.hi(v) - g.lo(v) + 1) <= volume_gain(g, a, v, from, #[trigger] ps[t]) <= g.hi(v)
                - g.lo(v) + 1,
{
    assert forall|t: int| 0 <= t < ps.len() implies -(g.hi(v) - g.lo(v) + 1) <= volume_gain(g, a, v, from, #[trigger] ps[t])
        <= g.hi(v) - g.lo(v) + 1 by {
        lemma_volume_sum_bound(g, a, v, from, ps[t], g.lo(v), g.hi(v));
    }
}

/// Best volume gain of vertex `v` leaving `from_part`: the largest
/// `compute_volume_gain` over the parts adjacent to `v` (other than
/// `from_part`); zero when `v` has no neighbour in another part.
pub fn best_volume_gain(g: &CsrGraph, assignment: &[u32], v: usize, from_part: u32, k: u32) -> (r: i32)
    requires
        g@.sound(),
        assignment@.len() == g@.n(),
        (v as int) < g@.n(),
        g@.hi(v as int) - g@.lo(v as int) < i32::MAX,
    ensures
        r == best_volume_gain_spec(g@, assignment@, v as int, from_part, k),
{
    let r = best_volume_gain_of(g, assignment, v, from_part, k);
    r as i32
}

pub proof fn lemma_two_parts_bound_pub(g: GraphView, a: Seq<u32>, p: u32, q: u32, lo: int, r: int)
    ensures
        p != q ==> -abs_weight(g, lo, r) <= part_weight(g, a, p, lo, r) - part_weight(g, a, q, lo, r) <= abs_weight(g, lo, r),
        -abs_weight(g, lo, r) <= part_weight(g, a, p, lo, r) <= abs_weight(g, lo, r),
{
    if p != q {
        lemma_two_parts_bound(g, a, p, q, lo, r);
    }
    lemma_part_weight_bound(g, a, p, lo, r);
}

pub proof fn lemma_abs_weight_bound_pub(g: GraphView, lo: int, r: int)
    requires
        lo <= r,
    ensures
        abs_weight(g, lo, r) <= 0x8000_0000 * (r - lo),
{
    lemma_abs_weight_bound(g, lo, r);
}

} // verus!
