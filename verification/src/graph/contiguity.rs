use vstd::prelude::*;

use super::csr::{lemma_topo_symmetric, lemma_valid_facts, CsrGraph, GraphView};
use super::partition::{partition_check, Partition, PartitionView};
use super::subgraph::{lemma_members_props, members_upto, rank};
use super::topology::{
    lemma_closed_contains_reachable, lemma_reaches_ends, lemma_reaches_extend, lemma_reaches_reverse,
    lemma_reaches_self, lemma_reaches_trans, lemma_reaches_widen, reach_set,
};

verus! {

/// Mask of the vertices assigned to `part`.
pub open spec fn part_mask(a: Seq<u32>, part: u32, n: int) -> Seq<bool> {
    Seq::new(n as nat, |v: int| a[v] == part)
}

/// The vertices of `part` are connected: every member can be reached from
/// the first member through members only.
pub open spec fn part_contiguous(g: GraphView, a: Seq<u32>, part: u32) -> bool {
    let mem = members_upto(a, part, g.n());
    mem.len() == 0 || forall|v: int|
        0 <= v < g.n() && a[v] == part ==> #[trigger] g.topo().reaches(
            part_mask(a, part, g.n()),
            mem[0],
            v,
        )
}

/// Every part below `k` is contiguous.
pub open spec fn all_contiguous(g: GraphView, a: Seq<u32>, k: u32) -> bool {
    forall|q: int| 0 <= q < k ==> #[trigger] part_contiguous(g, a, q as u32)
}

/// The first part at or after `part` that is not contiguous.
pub open spec fn first_broken_part(g: GraphView, a: Seq<u32>, k: u32, part: int) -> Option<u32>
    decreases k - part,
{
    if part < 0 || part >= k {
        None
    } else if !part_contiguous(g, a, part as u32) {
        Some(part as u32)
    } else {
        first_broken_part(g, a, k, part + 1)
    }
}

/// Result of `check_contiguity`.
pub open spec fn contiguity_result(g: GraphView, p: PartitionView) -> Result<(), u32> {
    if partition_check(p, g) is Err {
        Err(u32::MAX)
    } else {
        match first_broken_part(g, p.assignment, p.k, 0) {
            Some(part) => Err(part),
            None => Ok(()),
        }
    }
}

/// When every part from `part` on is contiguous, no broken part is found.
pub proof fn lemma_no_broken_part(g: GraphView, a: Seq<u32>, k: u32, part: int)
    requires
        0 <= part,
        forall|q: int| part <= q < k ==> #[trigger] part_contiguous(g, a, q as u32),
    ensures
        first_broken_part(g, a, k, part) is None,
    decreases k - part,
{
    if part < k {
        assert(part_contiguous(g, a, part as u32));
        lemma_no_broken_part(g, a, k, part + 1);
    }
}

/// With every part contiguous, a partition that describes the graph passes
/// the contiguity check.
pub proof fn lemma_contiguous_ok(g: GraphView, p: PartitionView)
    requires
        partition_check(p, g) is Ok,
        forall|q: int| 0 <= q < p.k ==> #[trigger] part_contiguous(g, p.assignment, q as u32),
    ensures
        contiguity_result(g, p) is Ok,
{
    lemma_no_broken_part(g, p.assignment, p.k, 0);
}

/// On a valid graph, one part holding every vertex is contiguous.
pub proof fn lemma_single_part_contiguous(g: GraphView)
    requires
        g.valid(),
    ensures
        part_contiguous(g, Seq::new(g.n() as nat, |v: int| 0u32), 0),
{
    let a = Seq::new(g.n() as nat, |v: int| 0u32);
    let mem = members_upto(a, 0, g.n());
    lemma_members_props(a, 0, g.n());
    if mem.len() > 0 {
        assert(mem[super::subgraph::rank(a, 0, 0)] == 0);
        assert(super::subgraph::rank(a, 0, 0) == 0) by {
            assert(members_upto(a, 0, 0).len() == 0);
        }
        assert(part_mask(a, 0, g.n()) =~= g.topo().everywhere());
        assert forall|v: int| 0 <= v < g.n() && a[v] == 0 implies #[trigger] g.topo().reaches(
            part_mask(a, 0, g.n()),
            mem[0],
            v,
        ) by {
            crate::graph::csr::lemma_valid_facts(g);
            assert(g.topo().reaches(g.topo().everywhere(), 0, v));
        }
    }
}

/// Every two vertices of one part are joined by a walk inside that part.
pub open spec fn parts_connected(g: GraphView, a: Seq<u32>) -> bool {
    forall|x: int, y: int|
        0 <= x < g.n() && 0 <= y < g.n() && a[x] == a[y] ==> #[trigger] g.topo().reaches(
            part_mask(a, a[x], g.n()),
            x,
            y,
        )
}

/// The vertices of `part` other than `v`.
pub open spec fn part_without(a: Seq<u32>, part: u32, n: int, v: int) -> Seq<bool> {
    Seq::new(n as nat, |u: int| a[u] == part && u != v)
}

/// What is left of the part of `v` once `v` leaves it is still connected.
pub open spec fn rest_connected(g: GraphView, a: Seq<u32>, v: int) -> bool {
    forall|x: int, y: int|
        0 <= x < g.n() && 0 <= y < g.n() && x != v && y != v && a[x] == a[v] && a[y] == a[v]
            ==> #[trigger] g.topo().reaches(part_without(a, a[v], g.n(), v), x, y)
}

/// On a valid graph, parts that are each contiguous are connected between
/// any two of their vertices.
pub proof fn lemma_contiguous_parts_connected(g: GraphView, a: Seq<u32>)
    requires
        g.valid(),
        a.len() == g.n(),
        forall|q: u32| #[trigger] part_contiguous(g, a, q),
    ensures
        parts_connected(g, a),
{
    lemma_valid_facts(g);
    lemma_topo_symmetric(g);
    let n = g.n();
    let t = g.topo();
    assert forall|x: int, y: int| 0 <= x < n && 0 <= y < n && a[x] == a[y] implies #[trigger] t.reaches(
        part_mask(a, a[x], n),
        x,
        y,
    ) by {
        let q = a[x];
        let mask = part_mask(a, q, n);
        assert(part_contiguous(g, a, q));
        lemma_members_props(a, q, n);
        let mem = members_upto(a, q, n);
        assert(mem[rank(a, q, x)] == x);
        assert(mem.len() > 0);
        assert(t.reaches(mask, mem[0], x));
        assert(t.reaches(mask, mem[0], y));
        lemma_reaches_reverse(t, mask, mem[0], x);
        lemma_reaches_trans(t, mask, x, mem[0], y);
    }
}

/// Parts connected between any two of their vertices are contiguous.
pub proof fn lemma_connected_part_contiguous(g: GraphView, a: Seq<u32>, q: u32)
    requires
        a.len() == g.n(),
        parts_connected(g, a),
    ensures
        part_contiguous(g, a, q),
{
    let n = g.n();
    let mem = members_upto(a, q, n);
    lemma_members_props(a, q, n);
    if mem.len() > 0 {
        let r = mem[0];
        assert(0 <= r < n && a[r] == q);
        assert forall|v: int| 0 <= v < n && a[v] == q implies #[trigger] g.topo().reaches(
            part_mask(a, q, n),
            mem[0],
            v,
        ) by {
            assert(g.topo().reaches(part_mask(a, a[r], n), r, v));
        }
    }
}

/// No broken part from `part` on means every part from there up to `k` is
/// contiguous.
proof fn lemma_unbroken_contiguous(g: GraphView, a: Seq<u32>, k: u32, part: int, q: int)
    requires
        0 <= part <= q < k,
        first_broken_part(g, a, k, part) is None,
    ensures
        part_contiguous(g, a, q as u32),
    decreases q - part,
{
    if part < q {
        lemma_unbroken_contiguous(g, a, k, part + 1, q);
    }
}

/// A partition that passes the contiguity check has every part contiguous.
pub proof fn lemma_checked_parts_contiguous(g: GraphView, p: PartitionView)
    requires
        contiguity_result(g, p) is Ok,
    ensures
        forall|q: u32| #[trigger] part_contiguous(g, p.assignment, q),
{
    let a = p.assignment;
    assert forall|q: u32| #[trigger] part_contiguous(g, a, q) by {
        if q < p.k {
            lemma_unbroken_contiguous(g, a, p.k, 0, q as int);
        } else {
            lemma_members_props(a, q, g.n());
            let mem = members_upto(a, q, g.n());
            if mem.len() > 0 {
                assert(a[mem[0]] == q);
                assert(a[mem[0]] < p.k);
            }
        }
    }
}

/// A partition that describes the graph and has every part contiguous passes
/// the contiguity check.
pub proof fn lemma_connected_checks(g: GraphView, p: PartitionView)
    requires
        partition_check(p, g) is Ok,
        parts_connected(g, p.assignment),
    ensures
        contiguity_result(g, p) is Ok,
{
    assert forall|q: int| 0 <= q < p.k implies #[trigger] part_contiguous(g, p.assignment, q as u32) by {
        lemma_connected_part_contiguous(g, p.assignment, q as u32);
    }
    lemma_contiguous_ok(g, p);
}

/// On a valid graph, a vertex whose neighbours inside its own part are all
/// one vertex `u0` (or that has none there) leaves the rest of its part
/// connected between `x` and `y`.
proof fn lemma_rest_reach(g: GraphView, a: Seq<u32>, v: int, u0: int, x: int, y: int)
    requires
        g.valid(),
        a.len() == g.n(),
        0 <= v < g.n(),
        parts_connected(g, a),
        forall|j: int| g.lo(v) <= j < g.hi(v) && a[#[trigger] g.nbr(j)] == a[v] ==> g.nbr(j) == u0,
        0 <= x < g.n(),
        0 <= y < g.n(),
        x != v,
        y != v,
        a[x] == a[v],
        a[y] == a[v],
    ensures
        g.topo().reaches(part_without(a, a[v], g.n(), v), x, y),
{
    lemma_valid_facts(g);
    let t = g.topo();
    let n = g.n();
    let from = a[v];
    let mf = part_mask(a, from, n);
    let m2 = part_without(a, from, n, v);
    let r = Seq::new(n as nat, |w: int| t.reaches(m2, x, w));
    assert(t.reaches(part_mask(a, a[x], n), x, y));
    lemma_reaches_self(t, m2, x);
    assert(r[x]);
    if 0 <= u0 < n && r[u0] {
        let marked = r.update(v, true);
        assert forall|w: int| 0 <= w < n && #[trigger] marked[w] implies t.closed_at(marked, mf, w) by {
            assert forall|j: int| t.lo(w) <= j < t.hi(w) && mf[#[trigger] t.nbr(j)] implies marked[t.nbr(j)] by {
                let z = t.nbr(j);
                assert(t.xadj[w + 1] <= t.xadj[t.n()]);
                assert(0 <= z < n);
                if w == v {
                    assert(g.lo(v) <= j < g.hi(v));
                    assert(a[g.nbr(j)] == a[v]);
                    assert(z == u0);
                } else if z != v {
                    assert(r[w]);
                    assert(m2[z]);
                    lemma_reaches_extend(t, m2, x, w, j);
                    assert(r[z]);
                }
            }
        }
        lemma_closed_contains_reachable(t, marked, mf, x, y);
        assert(marked[y]);
    } else {
        assert forall|w: int| 0 <= w < n && #[trigger] r[w] implies t.closed_at(r, mf, w) by {
            lemma_reaches_ends(t, m2, x, w);
            assert forall|j: int| t.lo(w) <= j < t.hi(w) && mf[#[trigger] t.nbr(j)] implies r[t.nbr(j)] by {
                let z = t.nbr(j);
                assert(t.xadj[w + 1] <= t.xadj[t.n()]);
                assert(0 <= z < n);
                if z == v {
                    assert(g.lo(w) <= j < g.hi(w));
                    assert(t.adjacent(g.nbr(j), w));
                    let j2 = choose|j2: int| t.lo(v) <= j2 < t.hi(v) && #[trigger] t.nbr(j2) == w;
                    assert(g.lo(v) <= j2 < g.hi(v));
                    assert(a[g.nbr(j2)] == a[v]);
                    assert(g.nbr(j2) == u0);
                    assert(false);
                } else {
                    assert(m2[z]);
                    lemma_reaches_extend(t, m2, x, w, j);
                }
            }
        }
        lemma_closed_contains_reachable(t, r, mf, x, y);
    }
}

/// On a valid graph with connected parts, a vertex with at most one distinct
/// neighbour inside its own part can leave it without splitting it.
pub proof fn lemma_leaf_leaves_rest_connected(g: GraphView, a: Seq<u32>, v: int, u0: int)
    requires
        g.valid(),
        a.len() == g.n(),
        0 <= v < g.n(),
        parts_connected(g, a),
        forall|j: int| g.lo(v) <= j < g.hi(v) && a[#[trigger] g.nbr(j)] == a[v] ==> g.nbr(j) == u0,
    ensures
        rest_connected(g, a, v),
{
    assert forall|x: int, y: int|
        0 <= x < g.n() && 0 <= y < g.n() && x != v && y != v && a[x] == a[v] && a[y] == a[v]
            implies #[trigger] g.topo().reaches(part_without(a, a[v], g.n(), v), x, y) by {
        lemma_rest_reach(g, a, v, u0, x, y);
    }
}

/// Vertex `z` of part `to` after `v` joins it is reached, inside that part,
/// from the neighbour of `v` in slot `j`.
proof fn lemma_joined_reach(g: GraphView, a: Seq<u32>, v: int, to: u32, j: int, z: int)
    requires
        g.valid(),
        a.len() == g.n(),
        0 <= v < g.n(),
        parts_connected(g, a),
        g.lo(v) <= j < g.hi(v),
        a[g.nbr(j)] == to,
        to != a[v],
        0 <= z < g.n(),
        a.update(v, to)[z] == to,
    ensures
        g.topo().reaches(part_mask(a.update(v, to), to, g.n()), g.nbr(j), z),
{
    lemma_valid_facts(g);
    lemma_topo_symmetric(g);
    let t = g.topo();
    let n = g.n();
    let a2 = a.update(v, to);
    let mask2 = part_mask(a2, to, n);
    let w0 = g.nbr(j);
    assert(t.xadj[v + 1] <= t.xadj[t.n()]);
    assert(0 <= w0 < n);
    assert(w0 != v);
    if z == v {
        lemma_reaches_self(t, mask2, v);
        lemma_reaches_extend(t, mask2, v, v, j);
        lemma_reaches_reverse(t, mask2, v, w0);
    } else {
        assert(a[z] == to);
        assert(t.reaches(part_mask(a, a[w0], n), w0, z));
        let mt = part_mask(a, to, n);
        assert forall|i: int| 0 <= i < mt.len() && #[trigger] mt[i] implies mask2[i] by {
            assert(i != v);
        }
        lemma_reaches_widen(t, mt, mask2, w0, z);
    }
}

/// On a valid graph with connected parts, moving `v` into a part it has a
/// neighbour in (slot `j`), when the rest of its own part stays connected,
/// keeps every part connected.
pub proof fn lemma_move_keeps_connected(g: GraphView, a: Seq<u32>, v: int, to: u32, j: int)
    requires
        g.valid(),
        a.len() == g.n(),
        0 <= v < g.n(),
        parts_connected(g, a),
        rest_connected(g, a, v),
        g.lo(v) <= j < g.hi(v),
        a[g.nbr(j)] == to,
        to != a[v],
    ensures
        parts_connected(g, a.update(v, to)),
{
    lemma_valid_facts(g);
    lemma_topo_symmetric(g);
    let t = g.topo();
    let n = g.n();
    let from = a[v];
    let a2 = a.update(v, to);
    let w0 = g.nbr(j);
    assert forall|x: int, y: int| 0 <= x < n && 0 <= y < n && a2[x] == a2[y] implies #[trigger] t.reaches(
        part_mask(a2, a2[x], n),
        x,
        y,
    ) by {
        let p = a2[x];
        let mask2 = part_mask(a2, p, n);
        if p == to {
            lemma_joined_reach(g, a, v, to, j, x);
            lemma_joined_reach(g, a, v, to, j, y);
            lemma_reaches_reverse(t, mask2, w0, x);
            lemma_reaches_trans(t, mask2, x, w0, y);
        } else if p == from {
            assert(x != v && y != v);
            assert(mask2 =~= part_without(a, from, n, v));
            assert(t.reaches(part_without(a, a[v], n, v), x, y));
        } else {
            assert(x != v && y != v);
            assert(mask2 =~= part_mask(a, p, n));
            assert(a[x] == p);
            assert(t.reaches(part_mask(a, a[x], n), x, y));
        }
    }
}

/// The first member of `part` for every part (`usize::MAX` for an empty part).
fn representatives(a: &[u32], n: usize, k: u32) -> (rep: Vec<usize>)
    requires
        a@.len() == n,
        forall|v: int| 0 <= v < n ==> #[trigger] a@[v] < k,
    ensures
        rep@.len() == k,
        forall|p: int|
            0 <= p < k ==> #[trigger] rep@[p] == if members_upto(a@, p as u32, n as int).len() > 0 {
                members_upto(a@, p as u32, n as int)[0] as usize
            } else {
                usize::MAX
            },
{
    let mut rep: Vec<usize> = vec![usize::MAX; k as usize];
    let mut v: usize = 0;
    while v < n
        invariant
            a@.len() == n,
            forall|w: int| 0 <= w < n ==> #[trigger] a@[w] < k,
            rep@.len() == k,
            0 <= v <= n,
            forall|p: int|
                0 <= p < k ==> #[trigger] rep@[p] == if members_upto(a@, p as u32, v as int).len()
                    > 0 {
                    members_upto(a@, p as u32, v as int)[0] as usize
                } else {
                    usize::MAX
                },
        decreases n - v,
    {
        let p = a[v] as usize;
        let ghost old_rep = rep@;
        if rep[p] == usize::MAX {
            rep.set(p, v);
        }
        proof {
            lemma_members_props(a@, p as u32, v as int);
            assert forall|q: int|
                0 <= q < k implies #[trigger] rep@[q] == if members_upto(a@, q as u32, v + 1).len()
                > 0 {
                members_upto(a@, q as u32, v + 1)[0] as usize
            } else {
                usize::MAX
            } by {
                if q != p as int {
                    assert(a@[v as int] != q as u32);
                    assert(members_upto(a@, q as u32, v + 1) == members_upto(a@, q as u32, v as int));
                } else {
                    assert(a@[v as int] == q as u32);
                    assert(members_upto(a@, q as u32, v + 1) == members_upto(a@, q as u32, v as int).push(v as int));
                    if members_upto(a@, q as u32, v as int).len() > 0 {
                        assert(members_upto(a@, q as u32, v as int)[0] < v);
                        assert(old_rep[q] != usize::MAX);
                    }
                }
            }
        }
        v += 1;
    }
    rep
}

/// Check whether every part of `partition` is connected within `g`.
///
/// Returns `Ok(())` when every part is contiguous, `Err(part)` for the first
/// part that is not, and `Err(u32::MAX)` when the partition does not describe
/// the graph (see `Partition::validate_for_graph`).
pub fn check_contiguity(g: &CsrGraph, partition: &Partition) -> (r: Result<(), u32>)
    requires
        g@.sound(),
    ensures
        r == contiguity_result(g@, partition@),
{
    if partition.validate_for_graph(g).is_err() {
        return Err(u32::MAX);
    }
    let n = g.n();
    let k = partition.k();
    let a = partition.assignment();
    let rep = representatives(a, n, k);
    let xadj = g.xadj();
    let adjncy = g.adjncy();
    let mut part: u32 = 0;
    while part < k
        invariant
            g@.sound(),
            n == g@.n(),
            a@ == partition@.assignment,
            a@.len() == n,
            k == partition@.k,
            xadj@ == g@.xadj,
            adjncy@ == g@.adjncy,
            partition_check(partition@, g@) is Ok,
            rep@.len() == k,
            forall|p: int|
                0 <= p < k ==> #[trigger] rep@[p] == if members_upto(a@, p as u32, n as int).len()
                    > 0 {
                    members_upto(a@, p as u32, n as int)[0] as usize
                } else {
                    usize::MAX
                },
            0 <= part <= k,
            first_broken_part(g@, a@, k, 0) == first_broken_part(g@, a@, k, part as int),
        decreases k - part,
    {
        let start = rep[part as usize];
        let ghost mem = members_upto(a@, part, n as int);
        proof {
            crate::graph::subgraph::lemma_members_props(a@, part, n as int);
        }
        if start != usize::MAX {
            let mut mask: Vec<bool> = Vec::with_capacity(n);
            let mut v: usize = 0;
            while v < n
                invariant
                    0 <= v <= n,
                    a@.len() == n,
                    mask@ == part_mask(a@, part, v as int),
                decreases n - v,
            {
                mask.push(a[v] == part);
                proof {
                    assert(mask@ =~= part_mask(a@, part, v + 1));
                }
                v += 1;
            }
            proof {
                assert(mem.len() > 0);
                assert(a@[mem[0]] == part);
            }
            let visited = reach_set(xadj, adjncy, start, mask.as_slice());
            let mut v: usize = 0;
            while v < n
                invariant
                    0 <= v <= n,
                    a@.len() == n,
                    n == g@.n(),
                    visited@.len() == n,
                    mem == members_upto(a@, part, n as int),
                    part < k,
                    k == partition@.k,
                    a@ == partition@.assignment,
                    partition_check(partition@, g@) is Ok,
                    first_broken_part(g@, a@, k, 0) == first_broken_part(g@, a@, k, part as int),
                    mem.len() > 0,
                    start as int == mem[0],
                    mask@ == part_mask(a@, part, n as int),
                    forall|w: int|
                        0 <= w < n ==> (#[trigger] visited@[w] <==> g@.topo().reaches(
                            mask@,
                            start as int,
                            w,
                        )),
                    forall|w: int|
                        0 <= w < v && a@[w] == part ==> #[trigger] g@.topo().reaches(
                            part_mask(a@, part, n as int),
                            mem[0],
                            w,
                        ),
                decreases n - v,
            {
                if a[v] == part && !visited[v] {
                    proof {
                        assert(!part_contiguous(g@, a@, part));
                        assert((part as int) as u32 == part);
                        assert(first_broken_part(g@, a@, k, part as int) == Some(part));
                    }
                    return Err(part);
                }
                v += 1;
            }
            proof {
                assert(part_contiguous(g@, a@, part));
            }
        } else {
            proof {
                assert(mem.len() == 0);
                assert(part_contiguous(g@, a@, part));
            }
        }
        part += 1;
    }
    Ok(())
}

} // verus!
