use vstd::prelude::*;

use super::csr::{parts_view, CsrGraph, GraphView};

verus! {

/// Vertices `v < i` with `a[v] == part`, in increasing order.
pub open spec fn members_upto(a: Seq<u32>, part: u32, i: int) -> Seq<int>
    decreases i,
{
    if i <= 0 {
        Seq::empty()
    } else if a[i - 1] == part {
        members_upto(a, part, i - 1).push(i - 1)
    } else {
        members_upto(a, part, i - 1)
    }
}

/// Local index of vertex `v` inside the subgraph of `part`: the number of
/// members before it.
pub open spec fn rank(a: Seq<u32>, part: u32, v: int) -> int {
    members_upto(a, part, v).len() as int
}

/// Local ids of the member neighbours stored in slots `lo..r` of the
/// adjacency array, in slot order.
pub open spec fn local_nbrs(g: GraphView, a: Seq<u32>, part: u32, lo: int, r: int) -> Seq<u32>
    decreases r - lo,
{
    if r <= lo {
        Seq::empty()
    } else if a[g.nbr(r - 1)] == part {
        local_nbrs(g, a, part, lo, r - 1).push(rank(a, part, g.nbr(r - 1)) as u32)
    } else {
        local_nbrs(g, a, part, lo, r - 1)
    }
}

/// Weights of the slots kept by `local_nbrs`, in the same order.
pub open spec fn local_wts(g: GraphView, a: Seq<u32>, part: u32, lo: int, r: int) -> Seq<i32>
    decreases r - lo,
{
    if r <= lo {
        Seq::empty()
    } else if a[g.nbr(r - 1)] == part {
        local_wts(g, a, part, lo, r - 1).push(g.adjwgt->0[r - 1])
    } else {
        local_wts(g, a, part, lo, r - 1)
    }
}

pub proof fn lemma_members_props(a: Seq<u32>, part: u32, i: int)
    requires
        0 <= i <= a.len(),
    ensures
        members_upto(a, part, i).len() <= i,
        forall|x: int|
            0 <= x < members_upto(a, part, i).len() ==> 0 <= #[trigger] members_upto(a, part, i)[x] < i
                && a[members_upto(a, part, i)[x]] == part,
        forall|x: int, y: int|
            0 <= x < y < members_upto(a, part, i).len() ==> #[trigger] members_upto(a, part, i)[x]
                < #[trigger] members_upto(a, part, i)[y],
        forall|v: int|
            0 <= v < i && a[v] == part ==> #[trigger] members_upto(a, part, i)[rank(a, part, v)] == v
                && rank(a, part, v) < members_upto(a, part, i).len(),
    decreases i,
{
    if i > 0 {
        lemma_members_props(a, part, i - 1);
        assert forall|v: int| 0 <= v < i && a[v] == part implies #[trigger] members_upto(
            a,
            part,
            i,
        )[rank(a, part, v)] == v && rank(a, part, v) < members_upto(a, part, i).len() by {
            if v < i - 1 {
                assert(members_upto(a, part, i - 1)[rank(a, part, v)] == v);
            }
        }
    }
}

proof fn lemma_local_nbrs_len(g: GraphView, a: Seq<u32>, part: u32, lo: int, r: int)
    requires
        lo <= r,
    ensures
        local_nbrs(g, a, part, lo, r).len() <= r - lo,
        g.adjwgt is Some ==> local_wts(g, a, part, lo, r).len() == local_nbrs(g, a, part, lo, r).len(),
    decreases r - lo,
{
    if r > lo {
        lemma_local_nbrs_len(g, a, part, lo, r - 1);
    }
}

/// Extract the subgraph induced by the vertices with `assignment[v] == part`.
///
/// Returns `(subgraph, global_to_local, local_to_global)`: local vertex `i`
/// is global vertex `local_to_global[i]` (members in increasing order),
/// `global_to_local[v]` is the local index of a member and `usize::MAX` for
/// any other vertex. The subgraph keeps, in order, the slots whose neighbour
/// is a member, with their edge weights, and copies the vertex weights.
pub fn extract_subgraph(g: &CsrGraph, assignment: &[u32], part: u32) -> (r: (
    CsrGraph,
    Vec<usize>,
    Vec<usize>,
))
    requires
        g@.sound(),
        assignment@.len() >= g@.n(),
    ensures
        ({
            let (sub, g2l, l2g) = r;
            let mem = members_upto(assignment@, part, g@.n());
            &&& sub@.sound()
            &&& sub@.ncon == g@.ncon
            &&& (sub@.adjwgt is Some) == (g@.adjwgt is Some)
            &&& l2g@.len() == mem.len()
            &&& sub@.n() == mem.len()
            &&& forall|i: int| 0 <= i < l2g@.len() ==> #[trigger] l2g@[i] as int == mem[i]
            &&& g2l@.len() == g@.n()
            &&& forall|v: int|
                0 <= v < g@.n() ==> #[trigger] g2l@[v] == if assignment@[v] == part {
                    rank(assignment@, part, v) as usize
                } else {
                    usize::MAX
                }
            &&& forall|i: int, c: int|
                0 <= i < sub@.n() && 0 <= c < g@.ncon ==> #[trigger] sub@.vw(i, c) == g@.vw(
                    mem[i],
                    c,
                )
            &&& forall|i: int|
                0 <= i < sub@.n() ==> #[trigger] sub@.adjncy.subrange(sub@.lo(i), sub@.hi(i))
                    == local_nbrs(g@, assignment@, part, g@.lo(mem[i]), g@.hi(mem[i]))
            &&& g@.adjwgt is Some ==> forall|i: int|
                0 <= i < sub@.n() ==> #[trigger] sub@.adjwgt->0.subrange(sub@.lo(i), sub@.hi(i))
                    == local_wts(g@, assignment@, part, g@.lo(mem[i]), g@.hi(mem[i]))
        }),
{
    let ghost gv = g@;
    let ghost a = assignment@;
    let n = g.n();
    let ncon = g.ncon() as usize;
    let xadj_g = g.xadj();
    let adjncy_g = g.adjncy();
    let vwgt_g = g.vwgt();
    let adjwgt_g = g.adjwgt();
    proof {
        lemma_members_props(a, part, n as int);
    }
    let mut global_to_local: Vec<usize> = Vec::new();
    let mut local_to_global: Vec<usize> = Vec::new();
    let mut v: usize = 0;
    while v < n
        invariant
            n == gv.n(),
            a == assignment@,
            a.len() >= n,
            0 <= v <= n,
            global_to_local@.len() == v,
            local_to_global@.len() == members_upto(a, part, v as int).len(),
            forall|i: int|
                0 <= i < local_to_global@.len() ==> #[trigger] local_to_global@[i] as int
                    == members_upto(a, part, v as int)[i],
            forall|w: int|
                0 <= w < v ==> #[trigger] global_to_local@[w] == if a[w] == part {
                    rank(a, part, w) as usize
                } else {
                    usize::MAX
                },
        decreases n - v,
    {
        proof {
            lemma_members_props(a, part, v as int);
        }
        if assignment[v] == part {
            global_to_local.push(local_to_global.len());
            local_to_global.push(v);
        } else {
            global_to_local.push(usize::MAX);
        }
        v += 1;
    }
    let ghost mem = members_upto(a, part, n as int);
    let nsub = local_to_global.len();
    let mut xadj: Vec<u32> = Vec::new();
    xadj.push(0);
    let mut adjncy: Vec<u32> = Vec::new();
    let mut adjwgt: Vec<i32> = Vec::new();
    let mut vwgt: Vec<i32> = Vec::new();
    let mut i: usize = 0;
    while i < nsub
        invariant
            gv == g@,
            gv.sound(),
            n == gv.n(),
            ncon == gv.ncon,
            xadj_g@ == gv.xadj,
            adjncy_g@ == gv.adjncy,
            vwgt_g@ == gv.vwgt,
            gv.adjwgt is Some <==> adjwgt_g is Some,
            adjwgt_g is Some ==> adjwgt_g->0@ == gv.adjwgt->0,
            a == assignment@,
            a.len() >= n,
            mem == members_upto(a, part, n as int),
            nsub == mem.len(),
            local_to_global@.len() == nsub,
            forall|x: int| 0 <= x < nsub ==> #[trigger] local_to_global@[x] as int == mem[x],
            forall|w: int|
                0 <= w < n ==> #[trigger] global_to_local@[w] == if a[w] == part {
                    rank(a, part, w) as usize
                } else {
                    usize::MAX
                },
            global_to_local@.len() == n,
            forall|x: int| 0 <= x < mem.len() ==> 0 <= #[trigger] mem[x] < n && a[mem[x]] == part,
            forall|x: int, y: int| 0 <= x < y < mem.len() ==> #[trigger] mem[x] < #[trigger] mem[y],
            forall|w: int|
                0 <= w < n && a[w] == part ==> #[trigger] mem[rank(a, part, w)] == w && rank(
                    a,
                    part,
                    w,
                ) < mem.len(),
            0 <= i <= nsub,
            xadj@.len() == i + 1,
            xadj@[0] == 0,
            xadj@[i as int] as int == adjncy@.len(),
            i < nsub ==> adjncy@.len() <= gv.lo(mem[i as int]),
            i == nsub && nsub > 0 ==> adjncy@.len() <= gv.hi(mem[nsub - 1]),
            forall|x: int, y: int|
                #![trigger xadj@[x], xadj@[y]]
                0 <= x <= y <= i ==> xadj@[x] <= xadj@[y],
            forall|j: int| 0 <= j < adjncy@.len() ==> (#[trigger] adjncy@[j] as int) < nsub,
            gv.adjwgt is Some ==> adjwgt@.len() == adjncy@.len(),
            vwgt@.len() == i * ncon,
            forall|x: int, c: int|
                0 <= x < i && 0 <= c < ncon ==> #[trigger] vwgt@[x * ncon + c] as int == gv.vw(
                    mem[x],
                    c,
                ),
            forall|x: int|
                0 <= x < i ==> #[trigger] adjncy@.subrange(xadj@[x] as int, xadj@[x + 1] as int)
                    == local_nbrs(gv, a, part, gv.lo(mem[x]), gv.hi(mem[x])),
            gv.adjwgt is Some ==> forall|x: int|
                0 <= x < i ==> #[trigger] adjwgt@.subrange(xadj@[x] as int, xadj@[x + 1] as int)
                    == local_wts(gv, a, part, gv.lo(mem[x]), gv.hi(mem[x])),
        decreases nsub - i,
    {
        let v = local_to_global[i];
        proof {
            assert(gv.xadj[v as int] <= gv.xadj[v as int + 1]);
            assert(gv.xadj[v as int + 1] <= gv.xadj[gv.n()]);
            assert((v as int) * ncon + ncon <= n * ncon) by (nonlinear_arith)
                requires
                    (v as int) < n,
                    ncon >= 1,
            ;
        }
        let vlen = vwgt_g.len();
        let mut c: usize = 0;
        while c < ncon
            invariant
                gv.sound(),
                vlen == vwgt_g@.len(),
                vlen == n * ncon,
                vlen == vwgt_g@.len(),
                vlen == n * ncon,
                n == gv.n(),
                ncon == gv.ncon,
                vwgt_g@ == gv.vwgt,
                (v as int) < n,
                (v as int) * ncon + ncon <= n * ncon,
                0 <= c <= ncon,
                vwgt@.len() == i * ncon + c,
                forall|x: int, cc: int|
                    0 <= x < i && 0 <= cc < ncon ==> #[trigger] vwgt@[x * ncon + cc] as int
                        == gv.vw(mem[x], cc),
                forall|cc: int| 0 <= cc < c ==> #[trigger] vwgt@[i * ncon + cc] as int == gv.vw(v as int, cc),
            decreases ncon - c,
        {
            vwgt.push(vwgt_g[v * ncon + c]);
            proof {
                assert forall|x: int, cc: int|
                    0 <= x < i && 0 <= cc < ncon implies #[trigger] vwgt@[x * ncon + cc] as int
                        == gv.vw(mem[x], cc) by {
                    assert(x * ncon + cc < i * ncon) by (nonlinear_arith)
                        requires
                            0 <= x < i,
                            0 <= cc < ncon,
                    ;
                }
            }
            c += 1;
        }
        proof {
            assert forall|x: int, cc: int|
                0 <= x < i + 1 && 0 <= cc < ncon implies #[trigger] vwgt@[x * ncon + cc] as int
                    == gv.vw(mem[x], cc) by {
                if x == i {
                    assert(mem[x] == v as int);
                }
            }
            assert(vwgt@.len() == (i + 1) * ncon) by (nonlinear_arith)
                requires
                    vwgt@.len() == i * ncon + ncon,
            ;
        }
        let lo = xadj_g[v] as usize;
        let hi = xadj_g[v + 1] as usize;
        let start = adjncy.len();
        proof {
            lemma_members_props(a, part, n as int);
            assert forall|w: int|
                0 <= w < n && a[w] == part implies #[trigger] mem[rank(a, part, w)] == w && rank(
                    a,
                    part,
                    w,
                ) < mem.len() by {
                assert(members_upto(a, part, n as int)[rank(a, part, w)] == w);
            }
        }
        let ghost adj0 = adjncy@;
        let ghost wt0 = adjwgt@;
        let mut j = lo;
        while j < hi
            invariant
                gv.sound(),
                n == gv.n(),
                adjncy_g@ == gv.adjncy,
                gv.adjwgt is Some <==> adjwgt_g is Some,
                adjwgt_g is Some ==> adjwgt_g->0@ == gv.adjwgt->0,
                a == assignment@,
                a.len() >= n,
                global_to_local@.len() == n,
                forall|w: int|
                    0 <= w < n ==> #[trigger] global_to_local@[w] == if a[w] == part {
                        rank(a, part, w) as usize
                    } else {
                        usize::MAX
                    },
                nsub == mem.len(),
                lo == gv.lo(v as int),
                hi == gv.hi(v as int),
                hi <= gv.m(),
                lo <= j <= hi,
                start == adj0.len(),
                start <= lo,
                adjncy@.len() <= start + (j - lo),
                adjncy@ == adj0 + local_nbrs(gv, a, part, lo as int, j as int),
                gv.adjwgt is Some ==> adjwgt@ == wt0 + local_wts(gv, a, part, lo as int, j as int),
                gv.adjwgt is Some ==> wt0.len() == adj0.len(),
                forall|jj: int| 0 <= jj < adj0.len() ==> (#[trigger] adj0[jj] as int) < nsub,
            decreases hi - j,
        {
            let u = adjncy_g[j] as usize;
            proof {
                assert((gv.adjncy[j as int] as int) < n);
            }
            if assignment[u] == part {
                let lu = global_to_local[u];
                proof {
                    lemma_members_props(a, part, u as int);
                    assert(lu as int == rank(a, part, u as int));
                }
                adjncy.push(lu as u32);
                match adjwgt_g {
                    Some(aw) => {
                        adjwgt.push(aw[j]);
                    },
                    None => {},
                }
            }
            proof {
                assert(adjncy@ =~= adj0 + local_nbrs(gv, a, part, lo as int, j + 1));
                if gv.adjwgt is Some {
                    assert(adjwgt@ =~= wt0 + local_wts(gv, a, part, lo as int, j + 1));
                }
            }
            j += 1;
        }
        proof {
            lemma_local_nbrs_len(gv, a, part, lo as int, hi as int);
            assert(adjncy@.len() <= gv.m());
            assert(gv.xadj[gv.n()] as int == gv.m());
        }
        let ghost xadj0 = xadj@;
        xadj.push(adjncy.len() as u32);
        proof {
            let loc = local_nbrs(gv, a, part, lo as int, hi as int);
            assert(adjncy@.subrange(xadj@[i as int] as int, xadj@[i + 1] as int) =~= loc);
            assert forall|x: int|
                0 <= x < i + 1 implies #[trigger] adjncy@.subrange(
                xadj@[x] as int,
                xadj@[x + 1] as int,
            ) == local_nbrs(gv, a, part, gv.lo(mem[x]), gv.hi(mem[x])) by {
                if x < i {
                    assert(xadj@[x] <= xadj@[i as int]);
                    assert(xadj@[x + 1] <= xadj@[i as int]);
                    assert(adj0.subrange(xadj@[x] as int, xadj@[x + 1] as int) =~= adjncy@.subrange(
                        xadj@[x] as int,
                        xadj@[x + 1] as int,
                    ));
                }
            }
            if gv.adjwgt is Some {
                assert forall|x: int|
                    0 <= x < i + 1 implies #[trigger] adjwgt@.subrange(
                    xadj@[x] as int,
                    xadj@[x + 1] as int,
                ) == local_wts(gv, a, part, gv.lo(mem[x]), gv.hi(mem[x])) by {
                    if x < i {
                        assert(xadj@[x] <= xadj@[i as int]);
                        assert(xadj@[x + 1] <= xadj@[i as int]);
                        assert(wt0.subrange(xadj@[x] as int, xadj@[x + 1] as int) =~= adjwgt@.subrange(
                            xadj@[x] as int,
                            xadj@[x + 1] as int,
                        ));
                    } else {
                        assert(adjwgt@.subrange(xadj@[i as int] as int, xadj@[i + 1] as int)
                            =~= local_wts(gv, a, part, lo as int, hi as int));
                    }
                }
            }
            assert forall|jj: int| 0 <= jj < adjncy@.len() implies (#[trigger] adjncy@[jj] as int)
                < nsub by {
                if jj >= adj0.len() {
                    lemma_local_nbrs_bound(gv, a, part, lo as int, hi as int, nsub as int);
                    assert(adjncy@[jj] == loc[jj - adj0.len()]);
                }
            }
            assert forall|x: int, y: int|
                #![trigger xadj@[x], xadj@[y]]
                0 <= x <= y <= i + 1 implies xadj@[x] <= xadj@[y] by {
                if y == i + 1 && x <= i {
                    assert(xadj0[x] <= xadj0[i as int]);
                }
            }
            if i + 1 < nsub {
                assert(mem[i as int] < mem[i + 1]);
                assert(gv.xadj[mem[i as int] + 1] <= gv.xadj[mem[i + 1]]);
            }
        }
        i += 1;
    }
    proof {
        if nsub > 0 {
            assert(gv.xadj[mem[nsub - 1] + 1] <= gv.xadj[gv.n()]);
        }
        assert(adjncy@.len() <= gv.m());
    }
    let aw_out = match adjwgt_g {
        Some(_) => Some(adjwgt),
        None => None,
    };
    let sub = CsrGraph::from_sound_parts(xadj, adjncy, g.ncon(), vwgt, aw_out);
    proof {
        let sv = sub@;
        assert(sv == parts_view(xadj, adjncy, gv.ncon, vwgt, aw_out));
        assert(sv.n() == nsub);
        assert(nsub <= gv.n());
        assert forall|j: int| 0 <= j < sv.m() implies (#[trigger] sv.adjncy[j] as int) < sv.n() by {
            assert((adjncy@[j] as int) < nsub);
        }
        assert(sv.topo().well_indexed());
        assert forall|x: int, c: int|
            0 <= x < sv.n() && 0 <= c < gv.ncon implies #[trigger] sv.vw(x, c) == gv.vw(mem[x], c) by {
            assert(0 <= x < i);
            assert(vwgt@[x * ncon + c] as int == gv.vw(mem[x], c));
            assert(sv.vwgt == vwgt@);
            assert(sv.ncon as int == ncon as int);
        }
    }
    (sub, global_to_local, local_to_global)
}

proof fn lemma_local_nbrs_bound(g: GraphView, a: Seq<u32>, part: u32, lo: int, r: int, nsub: int)
    requires
        g.sound(),
        0 <= lo <= r <= g.m(),
        a.len() >= g.n(),
        nsub == members_upto(a, part, g.n()).len(),
    ensures
        forall|x: int|
            0 <= x < local_nbrs(g, a, part, lo, r).len() ==> (#[trigger] local_nbrs(
                g,
                a,
                part,
                lo,
                r,
            )[x] as int) < nsub,
    decreases r - lo,
{
    if r > lo {
        lemma_local_nbrs_bound(g, a, part, lo, r - 1, nsub);
        let u = g.nbr(r - 1);
        assert((g.adjncy[r - 1] as int) < g.n());
        if a[u] == part {
            lemma_members_props(a, part, g.n());
            assert(members_upto(a, part, g.n())[rank(a, part, u)] == u);
            assert(rank(a, part, u) < nsub);
            assert(nsub <= g.n());
            assert((rank(a, part, u) as u32) as int == rank(a, part, u));
            let prev = local_nbrs(g, a, part, lo, r - 1);
            let cur = local_nbrs(g, a, part, lo, r);
            assert(cur == prev.push(rank(a, part, u) as u32));
            assert forall|x: int| 0 <= x < cur.len() implies (#[trigger] cur[x] as int) < nsub by {
                if x < prev.len() {
                    assert(cur[x] == prev[x]);
                }
            }
        } else {
            assert(local_nbrs(g, a, part, lo, r) == local_nbrs(g, a, part, lo, r - 1));
        }
    }
}

} // verus!
