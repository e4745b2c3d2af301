use vstd::prelude::*;

use crate::coarsen::coarse_graph::{
    coarse_edge_weight, coarse_row_weights, coarse_total, lemma_contraction_keeps_weight, coarse_adjacent, coarse_row_links, coarse_vertex_weight, contraction_of, group_hits, seq_sum, slot_hits, sum_all, vweight,
};
use crate::graph::csr::{lemma_valid_facts, lemma_valid_unweighted, GraphView};
use crate::graph::partition::{covers, targeted};
use crate::graph::subgraph::{lemma_members_props, members_upto, rank};
use crate::graph::topology::{lemma_reaches_extend, lemma_reaches_reverse, lemma_reaches_self, lemma_reaches_trans};

use crate::coarsen::weighted::{
    edge_total, lemma_coarse_weight_bound, lemma_coarse_weight_positive, lemma_contraction_edge_total,
    lemma_contraction_simple,
};

verus! {

/// Coarse adjacency has a fine witness: a vertex `v` of `cv` with a slot
/// `j` whose neighbour belongs to `cu`.
proof fn lemma_adjacent_witness(g: GraphView, cmap: Seq<u32>, cv: int, cu: int) -> (w: (int, int))
    requires
        g.sound(),
        cmap.len() == g.n(),
        0 <= cv <= u32::MAX,
        coarse_adjacent(g, cmap, cv, cu),
    ensures
        0 <= w.0 < g.n(),
        cmap[w.0] as int == cv,
        g.lo(w.0) <= w.1 < g.hi(w.0),
        cmap[g.nbr(w.1)] as int == cu,
        cu != cv,
{
    let mem = members_upto(cmap, cv as u32, g.n());
    lemma_members_props(cmap, cv as u32, g.n());
    let y = choose|y: int| 0 <= y < mem.len() && #[trigger] slot_hits(g, cmap, cu, g.lo(mem[y]), g.hi(mem[y]));
    let v = mem[y];
    let j = choose|j: int| g.lo(v) <= j < g.hi(v) && #[trigger] cmap[g.nbr(j)] as int == cu;
    (v, j)
}

/// A fine edge between two coarse vertices makes them adjacent.
proof fn lemma_adjacent_from_edge(g: GraphView, cmap: Seq<u32>, v: int, j: int)
    requires
        g.sound(),
        cmap.len() == g.n(),
        0 <= v < g.n(),
        g.lo(v) <= j < g.hi(v),
        cmap[v] != cmap[g.nbr(j)],
    ensures
        coarse_adjacent(g, cmap, cmap[v] as int, cmap[g.nbr(j)] as int),
{
    let cv = cmap[v];
    let cu = cmap[g.nbr(j)] as int;
    let mem = members_upto(cmap, cv, g.n());
    lemma_members_props(cmap, cv, g.n());
    let y = rank(cmap, cv, v);
    assert(mem[y] == v);
    assert(slot_hits(g, cmap, cu, g.lo(mem[y]), g.hi(mem[y])));
    assert(group_hits(g, cmap, cu, mem, mem.len() as int));
}

/// Adjacent coarse vertices are neighbours in the coarse graph.
proof fn lemma_row_adjacent(g: GraphView, cmap: Seq<u32>, h: GraphView, cv: int, cu: int)
    requires
        contraction_of(g, cmap, h),
        0 <= cv < h.n(),
        0 <= cu < h.n(),
        coarse_adjacent(g, cmap, cv, cu),
    ensures
        h.topo().adjacent(cv, cu),
{
    assert(coarse_row_links(g, cmap, h.n(), h.xadj, h.adjncy, cv));
    let row = h.adjncy.subrange(h.xadj[cv] as int, h.xadj[cv + 1] as int);
    assert(h.xadj[cv] <= h.xadj[cv + 1]);
    assert(row.contains(cu as u32));
    let t = choose|t: int| 0 <= t < row.len() && row[t] == cu as u32;
    let j = h.xadj[cv] as int + t;
    assert(h.topo().nbr(j) == cu);
}

/// Contraction keeps a loop-free graph loop-free and a graph whose adjacency
/// is symmetric symmetric: the coarse graph never lists a vertex as its own
/// neighbour, and lists `cv` among the neighbours of `cu` whenever it lists
/// `cu` among those of `cv`.
pub proof fn lemma_contraction_symmetric(g: GraphView, cmap: Seq<u32>, h: GraphView)
    requires
        g.sound(),
        g.symmetric(),
        cmap.len() == g.n(),
        forall|v: int| 0 <= v < g.n() ==> (#[trigger] cmap[v] as int) < h.n(),
        contraction_of(g, cmap, h),
    ensures
        h.loop_free(),
        h.symmetric(),
{
    assert forall|cv: int, j: int| #![trigger h.lo(cv), h.nbr(j)] 0 <= cv < h.n() && h.lo(cv) <= j < h.hi(cv) implies h.nbr(j)
        != cv && h.topo().adjacent(h.nbr(j), cv) by {
        assert(coarse_row_links(g, cmap, h.n(), h.xadj, h.adjncy, cv));
        let row = h.adjncy.subrange(h.xadj[cv] as int, h.xadj[cv + 1] as int);
        let t = j - h.xadj[cv];
        assert(row[t] == h.adjncy[j]);
        let cu = h.nbr(j);
        assert(coarse_adjacent(g, cmap, cv, cu));
        assert(cu < h.n());
        let w = lemma_adjacent_witness(g, cmap, cv, cu);
        let v = w.0;
        let u = g.nbr(w.1);
        assert(0 <= u < g.n());
        assert(g.topo().adjacent(u, v));
        let k = choose|k: int| g.topo().lo(u) <= k < g.topo().hi(u) && #[trigger] g.topo().nbr(k) == v;
        assert(g.lo(u) <= k < g.hi(u) && g.nbr(k) == v);
        lemma_adjacent_from_edge(g, cmap, u, k);
        lemma_row_adjacent(g, cmap, h, cu, cv);
    }
    assert forall|v: int, j: int| #![trigger h.lo(v), h.nbr(j)] 0 <= v < h.n() && h.lo(v) <= j < h.hi(v) implies h.nbr(j)
        != v by {
        assert(h.nbr(j) != v && h.topo().adjacent(h.nbr(j), v));
    }
}

/// Every coarse vertex that a walk from fine vertex 0 passes is reachable in
/// the coarse graph from the coarse vertex of fine vertex 0.
proof fn lemma_walk_maps(g: GraphView, cmap: Seq<u32>, h: GraphView, p: Seq<int>, i: int)
    requires
        g.sound(),
        cmap.len() == g.n(),
        forall|v: int| 0 <= v < g.n() ==> (#[trigger] cmap[v] as int) < h.n(),
        contraction_of(g, cmap, h),
        g.topo().is_walk(p, g.topo().everywhere()),
        p[0] == 0,
        0 <= i < p.len(),
    ensures
        h.topo().reaches(h.topo().everywhere(), cmap[0] as int, cmap[p[i]] as int),
    decreases i,
{
    let ht = h.topo();
    let all = ht.everywhere();
    if i == 0 {
        lemma_reaches_self(ht, all, cmap[0] as int);
    } else {
        lemma_walk_maps(g, cmap, h, p, i - 1);
        let x = p[i - 1];
        let y = p[i];
        assert(g.topo().adjacent(x, y));
        let j = choose|j: int| g.topo().lo(x) <= j < g.topo().hi(x) && #[trigger] g.topo().nbr(j) == y;
        assert(0 <= x < g.n());
        if cmap[x] != cmap[y] {
            assert(g.nbr(j) == y);
            lemma_adjacent_from_edge(g, cmap, x, j);
            lemma_row_adjacent(g, cmap, h, cmap[x] as int, cmap[y] as int);
            let j2 = choose|j2: int| ht.lo(cmap[x] as int) <= j2 < ht.hi(cmap[x] as int) && #[trigger] ht.nbr(j2)
                == cmap[y] as int;
            lemma_reaches_extend(ht, all, cmap[0] as int, cmap[x] as int, j2);
        }
    }
}

/// Contraction along a map that hits every coarse vertex keeps a connected
/// graph with symmetric adjacency connected.
pub proof fn lemma_contraction_connected(g: GraphView, cmap: Seq<u32>, h: GraphView)
    requires
        g.sound(),
        g.symmetric(),
        g.topo().connected(),
        cmap.len() == g.n(),
        forall|v: int| 0 <= v < g.n() ==> (#[trigger] cmap[v] as int) < h.n(),
        covers(cmap, h.n()),
        contraction_of(g, cmap, h),
    ensures
        h.topo().connected(),
{
    let ht = h.topo();
    let all = ht.everywhere();
    lemma_contraction_symmetric(g, cmap, h);
    if h.n() > 0 {
        assert(targeted(cmap, 0));
        let c0 = cmap[0] as int;
        assert forall|w: int| 0 <= w < g.n() implies ht.reaches(all, c0, #[trigger] cmap[w] as int) by {
            assert(g.topo().reaches(g.topo().everywhere(), 0, w));
            let p = choose|p: Seq<int>| #[trigger] g.topo().is_walk(p, g.topo().everywhere()) && p[0] == 0 && p.last()
                == w;
            lemma_walk_maps(g, cmap, h, p, p.len() - 1);
        }
        let w0 = choose|v: int| 0 <= v < cmap.len() && #[trigger] cmap[v] == 0;
        assert(ht.reaches(all, c0, cmap[w0] as int));
        assert forall|v: int, j: int| 0 <= v < ht.n() && ht.lo(v) <= j < ht.hi(v) implies #[trigger] ht.adjacent(
            ht.nbr(j),
            v,
        ) by {
            assert(h.lo(v) <= j < h.hi(v));
            assert(h.nbr(j) == ht.nbr(j));
            assert(h.topo().adjacent(h.nbr(j), v));
        }
        lemma_reaches_reverse(ht, all, c0, 0);
        assert forall|t: int| 0 <= t < ht.n() implies #[trigger] ht.reaches(all, 0, t) by {
            assert(targeted(cmap, t));
            let wt = choose|v: int| 0 <= v < cmap.len() && #[trigger] cmap[v] == t;
            assert(ht.reaches(all, c0, cmap[wt] as int));
            lemma_reaches_trans(ht, all, 0, c0, t);
        }
    }
}

/// With weights of at least one, the members of `part` weigh at most the
/// total, and at least one when there is a member.
proof fn lemma_member_sum_bounds(a: Seq<u32>, part: u32, i: int, f: spec_fn(int) -> int)
    requires
        0 <= i <= a.len(),
        forall|v: int| 0 <= v < i ==> #[trigger] f(v) >= 1,
    ensures
        0 <= seq_sum(members_upto(a, part, i), f) <= sum_all(i, f),
        (exists|v: int| 0 <= v < i && a[v] == part) ==> seq_sum(members_upto(a, part, i), f) >= 1,
    decreases i,
{
    if i > 0 {
        lemma_member_sum_bounds(a, part, i - 1, f);
        assert(f(i - 1) >= 1);
        if a[i - 1] == part {
            let m = members_upto(a, part, i);
            assert(m.drop_last() == members_upto(a, part, i - 1));
        } else {
            if exists|v: int| 0 <= v < i && a[v] == part {
                let v = choose|v: int| 0 <= v < i && a[v] == part;
                assert(v < i - 1);
            }
        }
    }
}

/// Contraction of a valid graph without edge weights, along a map that hits
/// every coarse vertex, is valid once each constraint's total vertex weight
/// fits an `i32`.
pub proof fn lemma_contraction_valid(g: GraphView, cmap: Seq<u32>, h: GraphView)
    requires
        g.valid(),
        g.adjwgt is None,
        cmap.len() == g.n(),
        forall|v: int| 0 <= v < g.n() ==> (#[trigger] cmap[v] as int) < h.n(),
        covers(cmap, h.n()),
        contraction_of(g, cmap, h),
        coarse_weights_fit(g, cmap, h.n()),
    ensures
        h.valid(),
{
    lemma_valid_facts(g);
    lemma_contraction_symmetric(g, cmap, h);
    lemma_contraction_connected(g, cmap, h);
    lemma_coarse_vertex_weights_positive(g, cmap, h);
    lemma_valid_unweighted(h);
}

/// With vertex weight totals that fit an `i32`, every coarse vertex weight
/// is positive.
proof fn lemma_coarse_vertex_weights_positive(g: GraphView, cmap: Seq<u32>, h: GraphView)
    requires
        g.valid(),
        cmap.len() == g.n(),
        forall|v: int| 0 <= v < g.n() ==> (#[trigger] cmap[v] as int) < h.n(),
        covers(cmap, h.n()),
        contraction_of(g, cmap, h),
        coarse_weights_fit(g, cmap, h.n()),
    ensures
        forall|i: int| 0 <= i < h.vwgt.len() ==> #[trigger] h.vwgt[i] > 0,
{
    lemma_valid_facts(g);
    let nc = g.ncon as int;
    assert forall|i: int| 0 <= i < h.vwgt.len() implies #[trigger] h.vwgt[i] > 0 by {
        let cv = i / nc;
        let c = i % nc;
        assert(0 <= cv < h.n() && 0 <= c < nc && i == cv * nc + c) by (nonlinear_arith)
            requires
                nc >= 1,
                0 <= i < h.n() * nc,
                cv == i / nc,
                c == i % nc,
        ;
        assert(targeted(cmap, cv));
        let v = choose|v: int| 0 <= v < cmap.len() && #[trigger] cmap[v] == cv;
        assert forall|w: int| 0 <= w < g.n() implies #[trigger] vweight(g, c)(w) >= 1 by {
            assert(0 <= w * nc + c < g.n() * nc) by (nonlinear_arith)
                requires
                    0 <= w < g.n(),
                    0 <= c < nc,
            ;
            assert(g.vwgt[w * nc + c] > 0);
        }
        assert(cmap[v] == cv as u32);
        lemma_member_sum_bounds(cmap, cv as u32, g.n(), vweight(g, c));
        assert(coarse_vertex_weight(g, cmap, cv, c) <= i32::MAX);
        assert(h.vw(cv, c) == coarse_vertex_weight(g, cmap, cv, c) as i32);
    }
}

/// Contraction keeps a valid graph with edge weights valid when no vertex
/// lists a neighbour twice, each constraint's total vertex weight fits an
/// `i32`, and so does the summed weight of every coarse edge: coarse edges
/// then weigh the same both ways and at least one.
pub proof fn lemma_contraction_valid_weighted(g: GraphView, cmap: Seq<u32>, h: GraphView)
    requires
        g.valid(),
        g.adjwgt is Some,
        g.simple(),
        cmap.len() == g.n(),
        forall|v: int| 0 <= v < g.n() ==> (#[trigger] cmap[v] as int) < h.n(),
        covers(cmap, h.n()),
        contraction_of(g, cmap, h),
        coarse_weights_fit(g, cmap, h.n()),
        coarse_edges_fit(g, cmap, h.n()),
    ensures
        h.valid(),
{
    lemma_valid_facts(g);
    lemma_contraction_symmetric(g, cmap, h);
    lemma_contraction_connected(g, cmap, h);
    lemma_coarse_vertex_weights_positive(g, cmap, h);
    let w = h.adjwgt->0;
    assert(h.n() <= u32::MAX + 1) by {
        assert(h.n() <= 0x1_0000_0000);
    }
    // every coarse slot carries the weight of the fine edges it stands for
    assert forall|cv: int, j: int|
        #![trigger h.lo(cv), w[j]]
        0 <= cv < h.n() && h.lo(cv) <= j < h.hi(cv) implies w[j] as int == coarse_edge_weight(
        g,
        cmap,
        cv,
        h.nbr(j),
    ) && 1 <= coarse_edge_weight(g, cmap, cv, h.nbr(j)) <= i32::MAX by {
        assert(coarse_row_links(g, cmap, h.n(), h.xadj, h.adjncy, cv));
        let row = h.adjncy.subrange(h.xadj[cv] as int, h.xadj[cv + 1] as int);
        assert(h.xadj[cv] <= h.xadj[cv + 1]);
        assert(row[j - h.xadj[cv]] == h.adjncy[j]);
        let cu = h.nbr(j);
        assert(coarse_adjacent(g, cmap, cv, cu));
        assert(cu < h.n());
        lemma_coarse_weight_positive(g, cmap, cv, cu);
        assert(coarse_row_weights(g, cmap, h.xadj, h.adjncy, w, cv));
    }
    assert forall|j: int| 0 <= j < w.len() implies #[trigger] w[j] > 0 by {
        crate::graph::csr::lemma_slot_owner(h, j);
        let cv = choose|cv: int| 0 <= cv < h.n() && #[trigger] h.lo(cv) <= j < h.hi(cv);
        assert(w[j] as int == coarse_edge_weight(g, cmap, cv, h.nbr(j)));
    }
    assert forall|x: int, k: int, r: int|
        #![trigger h.lo(x), h.nbr(k), h.nbr(r)]
        0 <= x < h.n() && h.lo(x) <= k < h.hi(x) && h.lo(h.nbr(k)) <= r < h.hi(h.nbr(k)) && h.nbr(r) == x
            implies w[k] == w[r] by {
        let u = h.nbr(k);
        assert(h.xadj[x + 1] <= h.xadj[h.n()]);
        assert((h.adjncy[k] as int) < h.n());
        assert(w[k] as int == coarse_edge_weight(g, cmap, x, u));
        assert(w[r] as int == coarse_edge_weight(g, cmap, u, x));
        crate::coarsen::weighted::lemma_coarse_weight_symmetric(g, cmap, x, u);
    }
    crate::graph::csr::lemma_valid_weighted(h);
}

/// Every coarse vertex weight, summed over its fine vertices, fits an `i32`.
pub open spec fn coarse_weights_fit(g: GraphView, cmap: Seq<u32>, cn: int) -> bool {
    forall|cv: int, c: int|
        0 <= cv < cn && 0 <= c < g.ncon ==> #[trigger] coarse_vertex_weight(g, cmap, cv, c) <= i32::MAX
}

/// Every coarse edge weight, summed over its fine slots, fits an `i32`.
pub open spec fn coarse_edges_fit(g: GraphView, cmap: Seq<u32>, cn: int) -> bool {
    forall|cv: int, cu: int|
        0 <= cv < cn && 0 <= cu < cn && #[trigger] coarse_adjacent(g, cmap, cv, cu) ==> coarse_edge_weight(
            g,
            cmap,
            cv,
            cu,
        ) <= i32::MAX
}

/// Every coarse sum fits an `i32`: vertex weights, and, where edge weights
/// are stored, edge weights too, with no fine vertex listing a neighbour twice.
pub open spec fn coarse_sums_fit(g: GraphView, cmap: Seq<u32>, cn: int) -> bool {
    &&& coarse_weights_fit(g, cmap, cn)
    &&& g.adjwgt is Some ==> g.simple() && coarse_edges_fit(g, cmap, cn)
}

/// Totals that fit bound every coarse vertex weight.
proof fn lemma_total_fit_coarse_fit(g: GraphView, cmap: Seq<u32>, cn: int)
    requires
        g.valid(),
        weights_fit(g),
        cmap.len() == g.n(),
    ensures
        coarse_weights_fit(g, cmap, cn),
{
    lemma_valid_facts(g);
    let nc = g.ncon as int;
    assert forall|cv: int, c: int| 0 <= cv < cn && 0 <= c < g.ncon implies #[trigger] coarse_vertex_weight(
        g,
        cmap,
        cv,
        c,
    ) <= i32::MAX by {
        assert forall|w: int| 0 <= w < g.n() implies #[trigger] vweight(g, c)(w) >= 1 by {
            assert(0 <= w * nc + c < g.n() * nc) by (nonlinear_arith)
                requires
                    0 <= w < g.n(),
                    0 <= c < nc,
            ;
            assert(g.vwgt[w * nc + c] > 0);
        }
        lemma_member_sum_bounds(cmap, cv as u32, g.n(), vweight(g, c));
        assert(sum_all(g.n(), vweight(g, c)) <= i32::MAX);
    }
}

/// Contraction keeps a valid graph valid whenever every coarse vertex
/// weight fits an `i32` and, where edge weights are stored, no vertex lists a
/// neighbour twice and every coarse edge weight fits an `i32`.
pub proof fn lemma_contraction_keeps_valid(g: GraphView, cmap: Seq<u32>, h: GraphView)
    requires
        g.valid(),
        cmap.len() == g.n(),
        forall|v: int| 0 <= v < g.n() ==> (#[trigger] cmap[v] as int) < h.n(),
        covers(cmap, h.n()),
        contraction_of(g, cmap, h),
        coarse_sums_fit(g, cmap, h.n()),
    ensures
        h.valid(),
{
    if g.adjwgt is None {
        lemma_contraction_valid(g, cmap, h);
    } else {
        lemma_contraction_valid_weighted(g, cmap, h);
    }
}

/// Each constraint's total vertex weight fits an `i32`.
pub open spec fn weights_fit(g: GraphView) -> bool {
    forall|c: int| 0 <= c < g.ncon ==> #[trigger] sum_all(g.n(), vweight(g, c)) <= i32::MAX
}

/// The coarse graph's own weight totals are the grouped fine totals while
/// every coarse weight fits.
proof fn lemma_coarse_sum(g: GraphView, cmap: Seq<u32>, h: GraphView, c: int, k: int)
    requires
        g.valid(),
        cmap.len() == g.n(),
        forall|v: int| 0 <= v < g.n() ==> (#[trigger] cmap[v] as int) < h.n(),
        contraction_of(g, cmap, h),
        0 <= c < g.ncon,
        0 <= k <= h.n(),
        sum_all(g.n(), vweight(g, c)) <= i32::MAX,
    ensures
        sum_all(k, vweight(h, c)) == coarse_total(g, cmap, k, c),
    decreases k,
{
    if k > 0 {
        lemma_coarse_sum(g, cmap, h, c, k - 1);
        lemma_valid_facts(g);
        let nc = g.ncon as int;
        assert forall|w: int| 0 <= w < g.n() implies #[trigger] vweight(g, c)(w) >= 1 by {
            assert(0 <= w * nc + c < g.n() * nc) by (nonlinear_arith)
                requires
                    0 <= w < g.n(),
                    0 <= c < nc,
            ;
            assert(g.vwgt[w * nc + c] > 0);
        }
        lemma_member_sum_bounds(cmap, (k - 1) as u32, g.n(), vweight(g, c));
        assert(h.vw(k - 1, c) == coarse_vertex_weight(g, cmap, k - 1, c) as i32);
    }
}

/// Contraction keeps each constraint's total, so totals that fit an `i32`
/// keep fitting.
pub proof fn lemma_contraction_weights_fit(g: GraphView, cmap: Seq<u32>, h: GraphView)
    requires
        g.valid(),
        weights_fit(g),
        cmap.len() == g.n(),
        forall|v: int| 0 <= v < g.n() ==> (#[trigger] cmap[v] as int) < h.n(),
        contraction_of(g, cmap, h),
    ensures
        weights_fit(h),
        forall|c: int| 0 <= c < g.ncon ==> #[trigger] sum_all(h.n(), vweight(h, c)) == sum_all(g.n(), vweight(g, c)),
{
    assert forall|c: int| 0 <= c < g.ncon implies #[trigger] sum_all(h.n(), vweight(h, c)) == sum_all(
        g.n(),
        vweight(g, c),
    ) by {
        lemma_coarse_sum(g, cmap, h, c, h.n());
        lemma_contraction_keeps_weight(g, cmap, h.n(), c);
    }
}

/// A graph that contraction keeps valid: valid, with vertex weight totals
/// that fit an `i32`, and, where it stores edge weights, listing no
/// neighbour twice and with a total slot weight that fits an `i32`.
pub open spec fn contractible(g: GraphView) -> bool {
    &&& g.valid()
    &&& weights_fit(g)
    &&& g.adjwgt is Some ==> g.simple() && edge_total(g) <= i32::MAX
}

/// Contracting a contractible graph gives a contractible graph.
pub proof fn lemma_contraction_contractible(g: GraphView, cmap: Seq<u32>, h: GraphView)
    requires
        contractible(g),
        cmap.len() == g.n(),
        forall|v: int| 0 <= v < g.n() ==> (#[trigger] cmap[v] as int) < h.n(),
        covers(cmap, h.n()),
        contraction_of(g, cmap, h),
    ensures
        contractible(h),
{
    lemma_valid_facts(g);
    lemma_contraction_weights_fit(g, cmap, h);
    lemma_total_fit_coarse_fit(g, cmap, h.n());
    if g.adjwgt is None {
        lemma_contraction_valid(g, cmap, h);
    } else {
        assert(h.n() <= u32::MAX + 1) by {
            assert(h.n() <= 0x1_0000_0000);
        }
        assert forall|j: int| 0 <= j < g.m() implies #[trigger] g.ew(j) >= 0 by {
            assert(g.adjwgt->0[j] > 0);
        }
        assert forall|cv: int, cu: int|
            0 <= cv < h.n() && 0 <= cu < h.n() && #[trigger] coarse_adjacent(g, cmap, cv, cu) implies coarse_edge_weight(
            g,
            cmap,
            cv,
            cu,
        ) <= i32::MAX by {
            lemma_coarse_weight_bound(g, cmap, h.n(), cv, cu);
        }
        lemma_contraction_valid_weighted(g, cmap, h);
        lemma_contraction_simple(g, cmap, h);
        lemma_contraction_edge_total(g, cmap, h);
    }
}

} // verus!
