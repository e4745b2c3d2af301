use vstd::prelude::*;

use super::topology::{reach_set, Topo};
use crate::error::PartitionError;

verus! {

/// The first structural problem found in a CSR description, in the order in
/// which the checks run.
#[derive(Debug, Clone, Copy, PartialEq, Eq)]
pub enum GraphDefect {
    XadjLength,
    XadjStart,
    XadjTerminator,
    NconZero,
    VwgtLength,
    NonPositiveVertexWeight,
    AdjwgtLength,
    NonPositiveEdgeWeight,
    NonMonotonicXadj,
    XadjPastEnd,
    InvalidNeighbor,
    AsymmetricAdjacency,
    AsymmetricEdgeWeight,
    Disconnected,
}

/// Mathematical model of a CSR graph.
pub struct GraphView {
    pub xadj: Seq<u32>,
    pub adjncy: Seq<u32>,
    pub ncon: u32,
    pub vwgt: Seq<i32>,
    pub adjwgt: Option<Seq<i32>>,
}

pub open spec fn opt_slice_view(w: Option<&[i32]>) -> Option<Seq<i32>> {
    match w {
        Some(s) => Some(s@),
        None => None,
    }
}

impl GraphView {
    pub open spec fn topo(self) -> Topo {
        Topo { xadj: self.xadj, adjncy: self.adjncy }
    }

    pub open spec fn n(self) -> int {
        self.topo().n()
    }

    pub open spec fn m(self) -> int {
        self.adjncy.len() as int
    }

    pub open spec fn lo(self, v: int) -> int {
        self.xadj[v] as int
    }

    pub open spec fn hi(self, v: int) -> int {
        self.xadj[v + 1] as int
    }

    pub open spec fn nbr(self, j: int) -> int {
        self.adjncy[j] as int
    }

    /// Weight of adjacency slot `j`; unit weight when no edge weights are stored.
    pub open spec fn ew(self, j: int) -> int {
        match self.adjwgt {
            Some(w) => w[j] as int,
            None => 1,
        }
    }

    /// Weight of constraint `c` of vertex `v`.
    pub open spec fn vw(self, v: int, c: int) -> int {
        self.vwgt[v * self.ncon + c] as int
    }

    /// Every array can be indexed as the CSR layout promises.
    pub open spec fn sound(self) -> bool {
        &&& self.topo().well_indexed()
        &&& self.n() <= 0x1_0000_0000
        &&& self.ncon >= 1
        &&& self.vwgt.len() == self.n() * self.ncon
        &&& self.adjwgt is Some ==> self.adjwgt->0.len() == self.adjncy.len()
    }

    /// Adjacency slot `j` of vertex `v` names an out-of-range vertex or `v` itself.
    pub open spec fn entry_bad(self, v: int, j: int) -> bool {
        self.nbr(j) >= self.n() || self.nbr(j) == v
    }

    /// The problem, if any, with the adjacency list of vertex `v`.
    pub open spec fn vertex_defect(self, v: int) -> Option<GraphDefect> {
        if self.xadj[v] > self.xadj[v + 1] {
            Some(GraphDefect::NonMonotonicXadj)
        } else if exists|j: int|
            self.lo(v) <= j < self.hi(v) && j < self.m() && #[trigger] self.entry_bad(v, j) {
            Some(GraphDefect::InvalidNeighbor)
        } else if self.hi(v) > self.m() && self.lo(v) < self.hi(v) {
            Some(GraphDefect::XadjPastEnd)
        } else {
            None
        }
    }

    /// The first per-vertex problem at or after vertex `v`.
    pub open spec fn local_scan(self, v: int) -> Option<GraphDefect>
        decreases self.n() - v,
    {
        if v < 0 || v >= self.n() {
            None
        } else if self.vertex_defect(v) is Some {
            self.vertex_defect(v)
        } else {
            self.local_scan(v + 1)
        }
    }

    /// First slot `r` at or after `r0` in the list of `u` that names `v`.
    pub open spec fn rev_index(self, u: int, v: int, r: int) -> Option<int>
        decreases self.hi(u) - r,
    {
        if r >= self.hi(u) {
            None
        } else if self.nbr(r) == v {
            Some(r)
        } else {
            self.rev_index(u, v, r + 1)
        }
    }

    /// Symmetry problem of adjacency slot `j` of vertex `v`: no reverse entry,
    /// or a reverse entry (the first one) carrying another weight.
    pub open spec fn entry_sym_defect(self, v: int, j: int) -> Option<GraphDefect> {
        let u = self.nbr(j);
        match self.rev_index(u, v, self.lo(u)) {
            None => Some(GraphDefect::AsymmetricAdjacency),
            Some(r) => if self.adjwgt is Some && self.adjwgt->0[j] != self.adjwgt->0[r] {
                Some(GraphDefect::AsymmetricEdgeWeight)
            } else {
                None
            },
        }
    }

    /// The first symmetry problem at or after slot `j` of vertex `v`, scanning
    /// vertices in order and the slots of each vertex in order.
    pub open spec fn sym_scan(self, v: int, j: int) -> Option<GraphDefect>
        decreases self.n() - v, self.hi(v) - j,
    {
        if v < 0 || v >= self.n() {
            None
        } else if j >= self.hi(v) {
            self.sym_scan(v + 1, self.lo(v + 1))
        } else if self.entry_sym_defect(v, j) is Some {
            self.entry_sym_defect(v, j)
        } else {
            self.sym_scan(v, j + 1)
        }
    }

    /// The first problem found by the whole-array checks that precede the
    /// per-vertex checks.
    pub open spec fn header_defect(self) -> Option<GraphDefect> {
        let n = self.n();
        if self.xadj.len() == 0 {
            Some(GraphDefect::XadjLength)
        } else if self.xadj[0] != 0 {
            Some(GraphDefect::XadjStart)
        } else if self.xadj[n] as int != self.m() {
            Some(GraphDefect::XadjTerminator)
        } else if self.ncon < 1 {
            Some(GraphDefect::NconZero)
        } else if self.vwgt.len() != n * self.ncon {
            Some(GraphDefect::VwgtLength)
        } else if exists|i: int| 0 <= i < self.vwgt.len() && #[trigger] self.vwgt[i] <= 0 {
            Some(GraphDefect::NonPositiveVertexWeight)
        } else if self.adjwgt is Some && self.adjwgt->0.len() != self.m() {
            Some(GraphDefect::AdjwgtLength)
        } else if self.adjwgt is Some && exists|j: int|
            0 <= j < self.m() && #[trigger] self.adjwgt->0[j] <= 0 {
            Some(GraphDefect::NonPositiveEdgeWeight)
        } else {
            None
        }
    }

    /// The first problem that validation reports, or `None` for a valid graph.
    pub open spec fn defect(self) -> Option<GraphDefect> {
        if self.header_defect() is Some {
            self.header_defect()
        } else if self.n() == 0 {
            None
        } else if self.local_scan(0) is Some {
            self.local_scan(0)
        } else if self.sym_scan(0, 0) is Some {
            self.sym_scan(0, 0)
        } else if !self.topo().connected() {
            Some(GraphDefect::Disconnected)
        } else {
            None
        }
    }

    /// Strict CSR contract: structure, positive weights, no self loops,
    /// reciprocal adjacency with matching weights, connectivity.
    pub open spec fn valid(self) -> bool {
        self.defect() is None
    }

    /// Every adjacency entry has a reciprocal entry.
    pub open spec fn symmetric(self) -> bool {
        forall|v: int, j: int|
            0 <= v < self.n() && self.lo(v) <= j < self.hi(v) ==> #[trigger] self.topo().adjacent(
                self.nbr(j),
                v,
            )
    }

    /// No vertex lists itself as a neighbour.
    pub open spec fn loop_free(self) -> bool {
        forall|v: int, j: int|
            #![trigger self.lo(v), self.nbr(j)]
            0 <= v < self.n() && self.lo(v) <= j < self.hi(v) ==> self.nbr(j) != v
    }

    /// No vertex lists the same neighbour twice.
    pub open spec fn simple(self) -> bool {
        forall|v: int, j1: int, j2: int|
            #![trigger self.lo(v), self.nbr(j1), self.nbr(j2)]
            0 <= v < self.n() && self.lo(v) <= j1 < self.hi(v) && self.lo(v) <= j2 < self.hi(v) && self.nbr(j1)
                == self.nbr(j2) ==> j1 == j2
    }

    /// Weight of the slots in `lo..r` that name `y`.
    pub open spec fn slots_to(self, y: int, lo: int, r: int) -> int
        decreases r - lo,
    {
        if r <= lo {
            0
        } else {
            self.slots_to(y, lo, r - 1) + if self.nbr(r - 1) == y {
                self.ew(r - 1)
            } else {
                0
            }
        }
    }

    /// Weight of the edges from `x` to `y`: the slots of `x` that name `y`.
    pub open spec fn pair_weight(self, x: int, y: int) -> int {
        self.slots_to(y, self.lo(x), self.hi(x))
    }

    /// Slot `r` is the first slot of `u` that names `v`.
    pub open spec fn first_reverse(self, u: int, v: int, r: int) -> bool {
        &&& self.lo(u) <= r < self.hi(u)
        &&& self.nbr(r) == v
        &&& forall|r2: int| self.lo(u) <= r2 < r ==> #[trigger] self.nbr(r2) != v
    }

    /// With edge weights, every slot weighs what the first reverse slot of
    /// its neighbour weighs.
    pub open spec fn weights_match(self) -> bool {
        self.adjwgt is Some ==> forall|v: int, j: int, r: int|
            0 <= v < self.n() && self.lo(v) <= j < self.hi(v) && #[trigger] self.first_reverse(self.nbr(j), v, r)
                ==> self.adjwgt->0[j] == self.adjwgt->0[r]
    }

    /// All vertex and edge weights are positive.
    pub open spec fn positive(self) -> bool {
        &&& forall|i: int| 0 <= i < self.vwgt.len() ==> #[trigger] self.vwgt[i] > 0
        &&& self.adjwgt is Some ==> forall|j: int|
            0 <= j < self.m() ==> #[trigger] self.adjwgt->0[j] > 0
    }
}

/// Monotone consecutive row pointers are monotone between any two positions.
proof fn lemma_monotone_pairwise(xadj: Seq<u32>, n: int)
    requires
        xadj.len() == n + 1,
        forall|v: int| 0 <= v < n ==> #[trigger] xadj[v] <= xadj[v + 1],
    ensures
        forall|i: int, j: int| #![trigger xadj[i], xadj[j]] 0 <= i <= j <= n ==> xadj[i] <= xadj[j],
{
    assert forall|i: int, j: int| #![trigger xadj[i], xadj[j]] 0 <= i <= j <= n implies xadj[i]
        <= xadj[j] by {
        lemma_monotone_from(xadj, n, i, j);
    }
}

proof fn lemma_monotone_from(xadj: Seq<u32>, n: int, i: int, j: int)
    requires
        xadj.len() == n + 1,
        forall|v: int| 0 <= v < n ==> #[trigger] xadj[v] <= xadj[v + 1],
        0 <= i <= j <= n,
    ensures
        xadj[i] <= xadj[j],
    decreases j - i,
{
    if i < j {
        lemma_monotone_from(xadj, n, i, j - 1);
        assert(xadj[j - 1] <= xadj[j]);
    }
}

/// A clean per-vertex scan from `v` means every later vertex is clean.
proof fn lemma_local_scan_clean(g: GraphView, v: int, w: int)
    requires
        0 <= v <= w < g.n(),
        g.local_scan(v) is None,
    ensures
        g.vertex_defect(w) is None,
    decreases w - v,
{
    if v < w {
        assert(g.vertex_defect(v) is None);
        lemma_local_scan_clean(g, v + 1, w);
    }
}

/// A clean symmetry scan from slot `j` of vertex `v` covers every later slot.
proof fn lemma_sym_scan_clean(g: GraphView, v: int, j: int, w: int, k: int)
    requires
        g.topo().well_indexed(),
        0 <= v < g.n(),
        g.lo(v) <= j <= g.hi(v),
        g.sym_scan(v, j) is None,
        0 <= w < g.n(),
        g.lo(w) <= k < g.hi(w),
        v < w || (v == w && j <= k),
    ensures
        g.entry_sym_defect(w, k) is None,
    decreases g.n() - v, g.hi(v) - j,
{
    if j >= g.hi(v) {
        assert(g.xadj[v + 1] <= g.xadj[g.n()]);
        if v + 1 < g.n() {
            assert(g.xadj[v + 1] <= g.xadj[v + 2]);
            lemma_sym_scan_clean(g, v + 1, g.lo(v + 1), w, k);
        } else {
            assert(false);
        }
    } else if v == w && j == k {
    } else {
        lemma_sym_scan_clean(g, v, j + 1, w, k);
    }
}

/// The first reverse slot found by `rev_index` does name the vertex.
proof fn lemma_rev_index_found(g: GraphView, u: int, v: int, r: int)
    requires
        g.rev_index(u, v, r) is Some,
    ensures
        r <= g.rev_index(u, v, r)->0 < g.hi(u),
        g.nbr(g.rev_index(u, v, r)->0) == v,
    decreases g.hi(u) - r,
{
    if r < g.hi(u) && g.nbr(r) != v {
        lemma_rev_index_found(g, u, v, r + 1);
    }
}

/// A valid graph is sound, loop free, positive, symmetric and connected.
pub proof fn lemma_valid_facts(g: GraphView)
    requires
        g.valid(),
    ensures
        g.sound(),
        g.loop_free(),
        g.positive(),
        g.symmetric(),
        g.topo().connected(),
{
    let n = g.n();
    if n > 0 {
        assert forall|v: int| 0 <= v < n implies #[trigger] g.xadj[v] <= g.xadj[v + 1] by {
            lemma_local_scan_clean(g, 0, v);
        }
        lemma_monotone_pairwise(g.xadj, n);
        assert forall|j: int| 0 <= j < g.m() implies (#[trigger] g.adjncy[j] as int) < n by {
            // find the owner of slot j
            lemma_owner_exists(g, j);
            let v = choose|v: int| 0 <= v < n && #[trigger] g.lo(v) <= j < g.hi(v);
            lemma_local_scan_clean(g, 0, v);
            assert(!g.entry_bad(v, j));
        }
        assert(g.topo().well_indexed());
        lemma_connected_vertex_bound(g);
        assert forall|v: int, j: int|
            #![trigger g.lo(v), g.nbr(j)]
            0 <= v < n && g.lo(v) <= j < g.hi(v) implies g.nbr(j) != v by {
            lemma_local_scan_clean(g, 0, v);
            assert(g.xadj[v + 1] <= g.xadj[n]);
            assert(!g.entry_bad(v, j));
        }
        assert forall|v: int, j: int|
            0 <= v < n && g.lo(v) <= j < g.hi(v) implies #[trigger] g.topo().adjacent(g.nbr(j), v) by {
            assert(g.xadj[0] <= g.xadj[v]);
            lemma_sym_scan_clean(g, 0, 0, v, j);
            let u = g.nbr(j);
            lemma_rev_index_found(g, u, v, g.lo(u));
            let r = g.rev_index(u, v, g.lo(u))->0;
            assert(g.topo().nbr(r) == v);
        }
    } else {
        assert(g.topo().well_indexed());
    }
}

/// Symmetric adjacency, stated over the adjacency structure alone.
pub proof fn lemma_topo_symmetric(g: GraphView)
    requires
        g.symmetric(),
    ensures
        forall|v: int, j: int|
            0 <= v < g.topo().n() && g.topo().lo(v) <= j < g.topo().hi(v) ==> #[trigger] g.topo().adjacent(
                g.topo().nbr(j),
                v,
            ),
{
    assert forall|v: int, j: int| 0 <= v < g.topo().n() && g.topo().lo(v) <= j < g.topo().hi(v) implies #[trigger] g.topo().adjacent(
        g.topo().nbr(j),
        v,
    ) by {
        assert(g.lo(v) <= j < g.hi(v));
        assert(g.topo().adjacent(g.nbr(j), v));
    }
}

/// Per-vertex scans from `v` on find nothing when neighbours are in range
/// and never the vertex itself.
proof fn lemma_local_scan_none(g: GraphView, v: int)
    requires
        g.topo().well_indexed(),
        g.loop_free(),
        0 <= v <= g.n(),
    ensures
        g.local_scan(v) is None,
    decreases g.n() - v,
{
    if v < g.n() {
        assert(g.xadj[v] <= g.xadj[v + 1]);
        assert(g.xadj[v + 1] <= g.xadj[g.n()]);
        assert forall|j: int| g.lo(v) <= j < g.hi(v) && j < g.m() implies !#[trigger] g.entry_bad(v, j) by {
            assert((g.adjncy[j] as int) < g.n());
            assert(g.lo(v) <= j < g.hi(v) ==> g.nbr(j) != v);
        }
        assert(g.vertex_defect(v) is None);
        lemma_local_scan_none(g, v + 1);
    }
}

/// The search for a reverse entry succeeds when one lies ahead.
proof fn lemma_rev_index_some(g: GraphView, u: int, v: int, r: int, k: int)
    requires
        r <= k < g.hi(u),
        g.nbr(k) == v,
    ensures
        g.rev_index(u, v, r) is Some,
    decreases g.hi(u) - r,
{
    if g.nbr(r) != v {
        lemma_rev_index_some(g, u, v, r + 1, k);
    }
}

/// Symmetry scans from slot `j` of vertex `v` on find nothing in an
/// unweighted graph whose adjacency is symmetric.
proof fn lemma_sym_scan_none(g: GraphView, v: int, j: int)
    requires
        g.topo().well_indexed(),
        g.symmetric(),
        g.adjwgt is None,
        0 <= v <= g.n(),
        v < g.n() ==> g.lo(v) <= j <= g.hi(v),
    ensures
        g.sym_scan(v, j) is None,
    decreases g.n() - v, g.hi(v) - j,
{
    if v < g.n() {
        assert(g.xadj[v] <= g.xadj[v + 1]);
        if j >= g.hi(v) {
            if v + 1 < g.n() {
                assert(g.xadj[v + 1] <= g.xadj[v + 2]);
            }
            lemma_sym_scan_none(g, v + 1, g.lo(v + 1));
        } else {
            let u = g.nbr(j);
            assert(g.xadj[v + 1] <= g.xadj[g.n()]);
            assert((g.adjncy[j] as int) < g.n());
            assert(g.topo().adjacent(u, v));
            let k = choose|k: int| g.topo().lo(u) <= k < g.topo().hi(u) && #[trigger] g.topo().nbr(k) == v;
            lemma_rev_index_some(g, u, v, g.lo(u), k);
            assert(g.entry_sym_defect(v, j) is None);
            lemma_sym_scan_none(g, v, j + 1);
        }
    }
}

/// A sound, loop-free, symmetric, connected graph without edge weights whose
/// vertex weights are positive passes validation.
pub proof fn lemma_valid_unweighted(g: GraphView)
    requires
        g.sound(),
        g.loop_free(),
        g.symmetric(),
        g.adjwgt is None,
        forall|i: int| 0 <= i < g.vwgt.len() ==> #[trigger] g.vwgt[i] > 0,
        g.topo().connected(),
    ensures
        g.valid(),
{
    assert(g.xadj[0] <= g.xadj[g.n()]);
    assert(g.header_defect() is None);
    if g.n() > 0 {
        lemma_local_scan_none(g, 0);
        assert(g.xadj[0] <= g.xadj[1]);
        lemma_sym_scan_none(g, 0, 0);
    }
}

/// With exactly one slot `k` in `lo..r` naming `y`, the slots to `y` weigh
/// what that slot weighs; with none, nothing.
proof fn lemma_slots_to_single(g: GraphView, y: int, lo: int, r: int, k: int)
    requires
        forall|j: int| lo <= j < r && #[trigger] g.nbr(j) == y ==> j == k,
    ensures
        lo <= k < r && g.nbr(k) == y ==> g.slots_to(y, lo, r) == g.ew(k),
        !(lo <= k < r && g.nbr(k) == y) ==> g.slots_to(y, lo, r) == 0,
    decreases r - lo,
{
    if r > lo {
        lemma_slots_to_single(g, y, lo, r - 1, k);
    }
}

/// On a valid graph where no vertex lists a neighbour twice, the edges from
/// `x` to `y` weigh what the edges from `y` to `x` weigh.
pub proof fn lemma_pair_weight_symmetric(g: GraphView, x: int, y: int)
    requires
        g.valid(),
        g.simple(),
        0 <= x < g.n(),
        0 <= y < g.n(),
    ensures
        g.pair_weight(x, y) == g.pair_weight(y, x),
{
    lemma_valid_facts(g);
    if exists|j: int| g.lo(x) <= j < g.hi(x) && #[trigger] g.nbr(j) == y {
        let j = choose|j: int| g.lo(x) <= j < g.hi(x) && #[trigger] g.nbr(j) == y;
        assert forall|j2: int| g.lo(x) <= j2 < g.hi(x) && #[trigger] g.nbr(j2) == y implies j2 == j by {
            assert(g.lo(x) == g.lo(x));
        }
        lemma_slots_to_single(g, y, g.lo(x), g.hi(x), j);
        assert(g.xadj[0] <= g.xadj[x]);
        lemma_sym_scan_clean(g, 0, 0, x, j);
        assert(g.entry_sym_defect(x, j) is None);
        let r = g.rev_index(y, x, g.lo(y))->0;
        lemma_rev_index_found(g, y, x, g.lo(y));
        assert forall|r2: int| g.lo(y) <= r2 < g.hi(y) && #[trigger] g.nbr(r2) == x implies r2 == r by {
            assert(g.lo(y) == g.lo(y));
        }
        lemma_slots_to_single(g, x, g.lo(y), g.hi(y), r);
    } else {
        assert forall|j2: int| g.lo(x) <= j2 < g.hi(x) && #[trigger] g.nbr(j2) == y implies j2 == g.lo(x) by {}
        lemma_slots_to_single(g, y, g.lo(x), g.hi(x), g.lo(x));
        if exists|r: int| g.lo(y) <= r < g.hi(y) && #[trigger] g.nbr(r) == x {
            let r = choose|r: int| g.lo(y) <= r < g.hi(y) && #[trigger] g.nbr(r) == x;
            assert(g.topo().adjacent(g.nbr(r), y));
            let j = choose|j: int| g.topo().lo(x) <= j < g.topo().hi(x) && #[trigger] g.topo().nbr(j) == y;
            assert(g.nbr(j) == y);
            assert(false);
        }
        assert forall|r2: int| g.lo(y) <= r2 < g.hi(y) && #[trigger] g.nbr(r2) == x implies r2 == g.lo(y) by {}
        lemma_slots_to_single(g, x, g.lo(y), g.hi(y), g.lo(y));
    }
}

/// Every adjacency slot of a sound graph belongs to some vertex.
pub proof fn lemma_slot_owner(g: GraphView, j: int)
    requires
        g.sound(),
        0 <= j < g.m(),
    ensures
        exists|v: int| 0 <= v < g.n() && #[trigger] g.lo(v) <= j < g.hi(v),
{
    lemma_owner_exists(g, j);
}

/// Symmetry scans from slot `j` of vertex `v` on find nothing when the
/// adjacency is symmetric and every slot weighs what its reverse slots weigh.
proof fn lemma_sym_scan_none_weighted(g: GraphView, v: int, j: int)
    requires
        g.topo().well_indexed(),
        g.symmetric(),
        g.adjwgt is Some,
        forall|x: int, k: int, r: int|
            #![trigger g.lo(x), g.nbr(k), g.nbr(r)]
            0 <= x < g.n() && g.lo(x) <= k < g.hi(x) && g.lo(g.nbr(k)) <= r < g.hi(g.nbr(k)) && g.nbr(r) == x
                ==> g.adjwgt->0[k] == g.adjwgt->0[r],
        0 <= v <= g.n(),
        v < g.n() ==> g.lo(v) <= j <= g.hi(v),
    ensures
        g.sym_scan(v, j) is None,
    decreases g.n() - v, g.hi(v) - j,
{
    if v < g.n() {
        assert(g.xadj[v] <= g.xadj[v + 1]);
        if j >= g.hi(v) {
            if v + 1 < g.n() {
                assert(g.xadj[v + 1] <= g.xadj[v + 2]);
            }
            lemma_sym_scan_none_weighted(g, v + 1, g.lo(v + 1));
        } else {
            let u = g.nbr(j);
            assert(g.xadj[v + 1] <= g.xadj[g.n()]);
            assert((g.adjncy[j] as int) < g.n());
            assert(g.topo().adjacent(u, v));
            let k = choose|k: int| g.topo().lo(u) <= k < g.topo().hi(u) && #[trigger] g.topo().nbr(k) == v;
            lemma_rev_index_some(g, u, v, g.lo(u), k);
            lemma_rev_index_found(g, u, v, g.lo(u));
            let r = g.rev_index(u, v, g.lo(u))->0;
            assert(g.lo(g.nbr(j)) <= r < g.hi(g.nbr(j)) && g.nbr(r) == v);
            assert(g.adjwgt->0[j] == g.adjwgt->0[r]);
            assert(g.entry_sym_defect(v, j) is None);
            lemma_sym_scan_none_weighted(g, v, j + 1);
        }
    }
}

/// A sound, loop-free, symmetric, connected graph with positive vertex and
/// edge weights, each slot weighing what its reverse slots weigh, passes
/// validation.
pub proof fn lemma_valid_weighted(g: GraphView)
    requires
        g.sound(),
        g.loop_free(),
        g.symmetric(),
        g.positive(),
        g.adjwgt is Some,
        forall|x: int, k: int, r: int|
            #![trigger g.lo(x), g.nbr(k), g.nbr(r)]
            0 <= x < g.n() && g.lo(x) <= k < g.hi(x) && g.lo(g.nbr(k)) <= r < g.hi(g.nbr(k)) && g.nbr(r) == x
                ==> g.adjwgt->0[k] == g.adjwgt->0[r],
        g.topo().connected(),
    ensures
        g.valid(),
{
    assert(g.xadj[0] <= g.xadj[g.n()]);
    assert(g.header_defect() is None);
    if g.n() > 0 {
        lemma_local_scan_none(g, 0);
        assert(g.xadj[0] <= g.xadj[1]);
        lemma_sym_scan_none_weighted(g, 0, 0);
    }
}

/// `rev_index` finds the first slot naming `v`.
proof fn lemma_rev_index_is_first(g: GraphView, u: int, v: int, r0: int, r: int)
    requires
        r0 <= r < g.hi(u),
        g.nbr(r) == v,
        forall|r2: int| r0 <= r2 < r ==> #[trigger] g.nbr(r2) != v,
    ensures
        g.rev_index(u, v, r0) == Some(r),
    decreases r - r0,
{
    if r0 < r {
        assert(g.nbr(r0) != v);
        lemma_rev_index_is_first(g, u, v, r0 + 1, r);
    }
}

/// No slot before the one `rev_index` finds names `v`.
proof fn lemma_rev_index_minimal(g: GraphView, u: int, v: int, r0: int)
    requires
        g.rev_index(u, v, r0) is Some,
    ensures
        forall|r2: int| r0 <= r2 < g.rev_index(u, v, r0)->0 ==> #[trigger] g.nbr(r2) != v,
    decreases g.hi(u) - r0,
{
    if r0 < g.hi(u) && g.nbr(r0) != v {
        lemma_rev_index_minimal(g, u, v, r0 + 1);
    }
}

/// Symmetry scans find nothing when the adjacency is symmetric and the
/// weights match their first reverse slots.
proof fn lemma_sym_scan_none_matching(g: GraphView, v: int, j: int)
    requires
        g.topo().well_indexed(),
        g.symmetric(),
        g.weights_match(),
        0 <= v <= g.n(),
        v < g.n() ==> g.lo(v) <= j <= g.hi(v),
    ensures
        g.sym_scan(v, j) is None,
    decreases g.n() - v, g.hi(v) - j,
{
    if v < g.n() {
        assert(g.xadj[v] <= g.xadj[v + 1]);
        if j >= g.hi(v) {
            if v + 1 < g.n() {
                assert(g.xadj[v + 1] <= g.xadj[v + 2]);
            }
            lemma_sym_scan_none_matching(g, v + 1, g.lo(v + 1));
        } else {
            let u = g.nbr(j);
            assert(g.xadj[v + 1] <= g.xadj[g.n()]);
            assert((g.adjncy[j] as int) < g.n());
            assert(g.topo().adjacent(u, v));
            let k = choose|k: int| g.topo().lo(u) <= k < g.topo().hi(u) && #[trigger] g.topo().nbr(k) == v;
            lemma_rev_index_some(g, u, v, g.lo(u), k);
            lemma_rev_index_found(g, u, v, g.lo(u));
            lemma_rev_index_minimal(g, u, v, g.lo(u));
            let r = g.rev_index(u, v, g.lo(u))->0;
            assert(g.first_reverse(u, v, r));
            assert(g.entry_sym_defect(v, j) is None);
            lemma_sym_scan_none_matching(g, v, j + 1);
        }
    }
}

/// Validity is exactly: sound layout, no self loops, positive weights,
/// symmetric adjacency whose weights match their first reverse slots, and
/// connectivity.
pub proof fn lemma_valid_iff(g: GraphView)
    ensures
        g.valid() <==> (g.sound() && g.loop_free() && g.positive() && g.symmetric() && g.weights_match()
            && g.topo().connected()),
{
    if g.valid() {
        lemma_valid_facts(g);
        if g.adjwgt is Some {
            assert forall|v: int, j: int, r: int|
                0 <= v < g.n() && g.lo(v) <= j < g.hi(v) && #[trigger] g.first_reverse(g.nbr(j), v, r) implies g.adjwgt->0[j]
                == g.adjwgt->0[r] by {
                let u = g.nbr(j);
                assert(g.xadj[0] <= g.xadj[v]);
                lemma_sym_scan_clean(g, 0, 0, v, j);
                lemma_rev_index_is_first(g, u, v, g.lo(u), r);
            }
        }
    }
    if g.sound() && g.loop_free() && g.positive() && g.symmetric() && g.weights_match() && g.topo().connected() {
        assert(g.xadj[0] <= g.xadj[g.n()]);
        assert(g.header_defect() is None);
        if g.n() > 0 {
            lemma_local_scan_none(g, 0);
            assert(g.xadj[0] <= g.xadj[1]);
            lemma_sym_scan_none_matching(g, 0, 0);
        }
    }
}

/// In a connected graph every vertex but 0 is named by some adjacency slot,
/// so vertex ids fit the `u32` neighbour type.
proof fn lemma_connected_vertex_bound(g: GraphView)
    requires
        g.n() >= 1,
        g.topo().connected(),
    ensures
        g.n() <= 0x1_0000_0000,
{
    let t = g.topo();
    let v = g.n() - 1;
    if v > 0 {
        assert(t.reaches(t.everywhere(), 0, v));
        let p = choose|p: Seq<int>| #[trigger] t.is_walk(p, t.everywhere()) && p[0] == 0 && p.last() == v;
        assert(p.len() >= 2);
        assert(t.adjacent(p[p.len() - 2], p[p.len() - 1]));
        let j = choose|j: int| t.lo(p[p.len() - 2]) <= j < t.hi(p[p.len() - 2]) && #[trigger] t.nbr(j) == p[p.len() - 1];
        assert(t.nbr(j) == v);
    }
}

/// Every adjacency slot belongs to some vertex of a well-ordered row pointer array.
proof fn lemma_owner_exists(g: GraphView, j: int)
    requires
        g.xadj.len() >= 1,
        g.xadj[0] == 0,
        g.xadj[g.n()] as int == g.m(),
        forall|i: int, k: int| #![trigger g.xadj[i], g.xadj[k]] 0 <= i <= k <= g.n() ==> g.xadj[i] <= g.xadj[k],
        0 <= j < g.m(),
    ensures
        exists|v: int| 0 <= v < g.n() && #[trigger] g.lo(v) <= j < g.hi(v),
{
    lemma_owner_from(g, j, 0);
}

proof fn lemma_owner_from(g: GraphView, j: int, v: int)
    requires
        g.xadj.len() >= 1,
        g.xadj[g.n()] as int == g.m(),
        forall|i: int, k: int| #![trigger g.xadj[i], g.xadj[k]] 0 <= i <= k <= g.n() ==> g.xadj[i] <= g.xadj[k],
        0 <= v <= g.n(),
        g.lo(v) <= j < g.m(),
    ensures
        exists|w: int| 0 <= w < g.n() && #[trigger] g.lo(w) <= j < g.hi(w),
    decreases g.n() - v,
{
    if v == g.n() {
        assert(false);
    } else if j < g.hi(v) {
        assert(0 <= v < g.n() && g.lo(v) <= j < g.hi(v));
    } else {
        lemma_owner_from(g, j, v + 1);
    }
}

pub open spec fn raw_view(
    xadj: &[u32],
    adjncy: &[u32],
    ncon: u32,
    vwgt: &[i32],
    adjwgt: Option<&[i32]>,
) -> GraphView {
    GraphView { xadj: xadj@, adjncy: adjncy@, ncon, vwgt: vwgt@, adjwgt: opt_slice_view(adjwgt) }
}

/// The whole-array checks: row pointer shape, weight array lengths, positivity.
fn header_check(
    xadj: &[u32],
    adjncy: &[u32],
    ncon: u32,
    vwgt: &[i32],
    adjwgt: Option<&[i32]>,
) -> (d: Option<GraphDefect>)
    ensures
        d == raw_view(xadj, adjncy, ncon, vwgt, adjwgt).header_defect(),
{
    let ghost g = raw_view(xadj, adjncy, ncon, vwgt, adjwgt);
    if xadj.len() == 0 {
        return Some(GraphDefect::XadjLength);
    }
    let n = xadj.len() - 1;
    if xadj[0] != 0 {
        return Some(GraphDefect::XadjStart);
    }
    if xadj[n] as usize != adjncy.len() {
        return Some(GraphDefect::XadjTerminator);
    }
    if ncon < 1 {
        return Some(GraphDefect::NconZero);
    }
    let vlen = vwgt.len();
    match n.checked_mul(ncon as usize) {
        None => {
            return Some(GraphDefect::VwgtLength);
        },
        Some(need) => {
            if vlen != need {
                return Some(GraphDefect::VwgtLength);
            }
        },
    }
    let mut i: usize = 0;
    while i < vlen
        invariant
            g == raw_view(xadj, adjncy, ncon, vwgt, adjwgt),
            xadj@.len() > 0,
            g.xadj[0] == 0,
            g.xadj[g.n()] as int == g.m(),
            ncon >= 1,
            vlen == vwgt@.len(),
            vwgt@.len() == g.n() * ncon,
            0 <= i <= vlen,
            forall|ii: int| 0 <= ii < i ==> vwgt@[ii] > 0,
        decreases vlen - i,
    {
        if vwgt[i] <= 0 {
            proof {
                assert(vwgt@[i as int] <= 0);
            }
            return Some(GraphDefect::NonPositiveVertexWeight);
        }
        i += 1;
    }
    match adjwgt {
        Some(aw) => {
            if aw.len() != adjncy.len() {
                return Some(GraphDefect::AdjwgtLength);
            }
            let mut j: usize = 0;
            while j < aw.len()
                invariant
                    g == raw_view(xadj, adjncy, ncon, vwgt, adjwgt),
                    adjwgt == Some(aw),
                    xadj@.len() > 0,
                    g.xadj[0] == 0,
                    g.xadj[g.n()] as int == g.m(),
                    ncon >= 1,
                    vwgt@.len() == g.n() * ncon,
                    forall|ii: int| 0 <= ii < vwgt@.len() ==> vwgt@[ii] > 0,
                    aw@.len() == g.m(),
                    0 <= j <= aw.len(),
                    forall|jj: int| 0 <= jj < j ==> aw@[jj] > 0,
                decreases aw.len() - j,
            {
                if aw[j] <= 0 {
                    proof {
                        assert(aw@[j as int] <= 0);
                    }
                    return Some(GraphDefect::NonPositiveEdgeWeight);
                }
                j += 1;
            }
        },
        None => {},
    }
    None
}

/// Per-vertex checks: monotone row pointers, slots inside `adjncy`,
/// neighbours that are other vertices.
fn local_check(
    xadj: &[u32],
    adjncy: &[u32],
    ncon: u32,
    vwgt: &[i32],
    adjwgt: Option<&[i32]>,
) -> (d: Option<GraphDefect>)
    requires
        xadj@.len() >= 2,
    ensures
        d == raw_view(xadj, adjncy, ncon, vwgt, adjwgt).local_scan(0),
{
    let ghost g = raw_view(xadj, adjncy, ncon, vwgt, adjwgt);
    let n = xadj.len() - 1;
    let m = adjncy.len();
    let mut v: usize = 0;
    while v < n
        invariant
            g == raw_view(xadj, adjncy, ncon, vwgt, adjwgt),
            n == g.n(),
            n + 1 == xadj.len(),
            m == g.m(),
            0 <= v <= n,
            g.local_scan(0) == g.local_scan(v as int),
        decreases n - v,
    {
        if xadj[v] > xadj[v + 1] {
            return Some(GraphDefect::NonMonotonicXadj);
        }
        let lo = xadj[v] as usize;
        let hi = xadj[v + 1] as usize;
        let mut j = lo;
        while j < hi
            invariant
                g == raw_view(xadj, adjncy, ncon, vwgt, adjwgt),
                n == g.n(),
                n + 1 == xadj.len(),
                m == g.m(),
                0 <= v < n,
                lo == g.lo(v as int),
                hi == g.hi(v as int),
                lo <= hi,
                lo <= j <= hi,
                g.local_scan(0) == g.local_scan(v as int),
                forall|jj: int| lo <= jj < j ==> jj < m && !(#[trigger] g.entry_bad(v as int, jj)),
            decreases hi - j,
        {
            if j >= m {
                proof {
                    assert(!(exists|jj: int|
                        g.lo(v as int) <= jj < g.hi(v as int) && jj < g.m() && #[trigger] g.entry_bad(
                            v as int,
                            jj,
                        )));
                }
                return Some(GraphDefect::XadjPastEnd);
            }
            let nb = adjncy[j] as usize;
            if nb >= n || nb == v {
                proof {
                    assert(g.entry_bad(v as int, j as int));
                }
                return Some(GraphDefect::InvalidNeighbor);
            }
            j += 1;
        }
        proof {
            assert(g.vertex_defect(v as int) is None) by {
                if lo < hi {
                    assert(!g.entry_bad(v as int, (hi - 1) as int));
                }
            }
        }
        v += 1;
    }
    None
}

/// With the header and per-vertex checks passed, the row pointers and column
/// indices are well indexed.
proof fn lemma_local_clean_indexed(g: GraphView)
    requires
        g.header_defect() is None,
        g.n() > 0,
        g.local_scan(0) is None,
    ensures
        g.topo().well_indexed(),
        forall|v: int, j: int|
            #![trigger g.lo(v), g.nbr(j)]
            0 <= v < g.n() && g.lo(v) <= j < g.hi(v) ==> g.nbr(j) != v,
{
    let n = g.n();
    assert forall|w: int| 0 <= w < n implies #[trigger] g.xadj[w] <= g.xadj[w + 1] by {
        lemma_local_scan_clean(g, 0, w);
    }
    lemma_monotone_pairwise(g.xadj, n);
    assert forall|jj: int| 0 <= jj < g.m() implies (#[trigger] g.adjncy[jj] as int) < n by {
        lemma_owner_exists(g, jj);
        let w = choose|w: int| 0 <= w < n && #[trigger] g.lo(w) <= jj < g.hi(w);
        lemma_local_scan_clean(g, 0, w);
        assert(!g.entry_bad(w, jj));
    }
    assert(g.topo().well_indexed());
    assert forall|v: int, j: int|
        #![trigger g.lo(v), g.nbr(j)]
        0 <= v < n && g.lo(v) <= j < g.hi(v) implies g.nbr(j) != v by {
        lemma_local_scan_clean(g, 0, v);
        assert(g.xadj[v + 1] <= g.xadj[n]);
        assert(!g.entry_bad(v, j));
    }
}

/// Reciprocal adjacency with matching weights, scanned in vertex and slot order.
fn sym_check(
    xadj: &[u32],
    adjncy: &[u32],
    ncon: u32,
    vwgt: &[i32],
    adjwgt: Option<&[i32]>,
) -> (d: Option<GraphDefect>)
    requires
        raw_view(xadj, adjncy, ncon, vwgt, adjwgt).header_defect() is None,
        raw_view(xadj, adjncy, ncon, vwgt, adjwgt).n() > 0,
        raw_view(xadj, adjncy, ncon, vwgt, adjwgt).local_scan(0) is None,
    ensures
        d == raw_view(xadj, adjncy, ncon, vwgt, adjwgt).sym_scan(0, 0),
{
    let ghost g = raw_view(xadj, adjncy, ncon, vwgt, adjwgt);
    proof {
        lemma_local_clean_indexed(g);
    }
    let n = xadj.len() - 1;
    let m = adjncy.len();
    let mut v: usize = 0;
    while v < n
        invariant
            g == raw_view(xadj, adjncy, ncon, vwgt, adjwgt),
            n == g.n(),
            n + 1 == xadj.len(),
            m == g.m(),
            g.topo().well_indexed(),
            adjwgt is Some ==> adjwgt->0@.len() == m,
            0 <= v <= n,
            g.sym_scan(0, 0) == g.sym_scan(v as int, g.lo(v as int)),
        decreases n - v,
    {
        let lo = xadj[v] as usize;
        let hi = xadj[v + 1] as usize;
        proof {
            assert(g.xadj[v as int] <= g.xadj[v as int + 1]);
            assert(g.xadj[v as int + 1] <= g.xadj[n as int]);
        }
        let mut j = lo;
        while j < hi
            invariant
                g == raw_view(xadj, adjncy, ncon, vwgt, adjwgt),
                n == g.n(),
                n + 1 == xadj.len(),
                m == g.m(),
                g.topo().well_indexed(),
                adjwgt is Some ==> adjwgt->0@.len() == m,
                0 <= v < n,
                lo == g.lo(v as int),
                hi == g.hi(v as int),
                hi <= m,
                lo <= j <= hi,
                g.sym_scan(0, 0) == g.sym_scan(v as int, j as int),
            decreases hi - j,
        {
            let u = adjncy[j] as usize;
            proof {
                assert((g.adjncy[j as int] as int) < n);
                assert(g.nbr(j as int) == u as int);
            }
            let ulo = xadj[u] as usize;
            let uhi = xadj[u + 1] as usize;
            proof {
                assert(g.xadj[u as int] <= g.xadj[u as int + 1]);
                assert(g.xadj[u as int + 1] <= g.xadj[n as int]);
            }
            let mut r = ulo;
            while r < uhi && adjncy[r] as usize != v
                invariant
                    g == raw_view(xadj, adjncy, ncon, vwgt, adjwgt),
                    m == g.m(),
                    (u as int) < n,
                    ulo == g.lo(u as int),
                    uhi == g.hi(u as int),
                    uhi <= m,
                    ulo <= r <= uhi,
                    g.rev_index(u as int, v as int, ulo as int) == g.rev_index(
                        u as int,
                        v as int,
                        r as int,
                    ),
                decreases uhi - r,
            {
                r += 1;
            }
            if r >= uhi {
                proof {
                    assert(g.rev_index(u as int, v as int, ulo as int) is None);
                }
                return Some(GraphDefect::AsymmetricAdjacency);
            }
            proof {
                assert(g.rev_index(u as int, v as int, ulo as int) == Some(r as int));
            }
            match adjwgt {
                Some(aw) => {
                    if aw[j] != aw[r] {
                        return Some(GraphDefect::AsymmetricEdgeWeight);
                    }
                },
                None => {},
            }
            j += 1;
        }
        proof {
            if v + 1 < n {
                assert(g.xadj[v as int + 1] <= g.xadj[v as int + 2]);
            }
        }
        v += 1;
    }
    None
}

/// Whether every vertex can be reached from vertex 0.
pub fn is_connected(xadj: &[u32], adjncy: &[u32]) -> (r: bool)
    requires
        (Topo { xadj: xadj@, adjncy: adjncy@ }).well_indexed(),
        xadj@.len() >= 2,
    ensures
        r == (Topo { xadj: xadj@, adjncy: adjncy@ }).connected(),
{
    let ghost t = Topo { xadj: xadj@, adjncy: adjncy@ };
    let n = xadj.len() - 1;
    let allowed: Vec<bool> = vec![true; n];
    proof {
        assert(allowed@ =~= t.everywhere());
    }
    let visited = reach_set(xadj, adjncy, 0, allowed.as_slice());
    let mut i: usize = 0;
    while i < n
        invariant
            t == (Topo { xadj: xadj@, adjncy: adjncy@ }),
            n == t.n(),
            visited@.len() == n,
            allowed@ == t.everywhere(),
            forall|w: int| 0 <= w < n ==> (#[trigger] visited@[w] <==> t.reaches(allowed@, 0, w)),
            0 <= i <= n,
            forall|w: int| 0 <= w < i ==> #[trigger] t.reaches(t.everywhere(), 0, w),
        decreases n - i,
    {
        if !visited[i] {
            proof {
                assert(!t.reaches(t.everywhere(), 0, i as int));
            }
            return false;
        }
        i += 1;
    }
    true
}

/// Finds the first defect of a CSR description, in validation order.
pub fn find_defect(
    xadj: &[u32],
    adjncy: &[u32],
    ncon: u32,
    vwgt: &[i32],
    adjwgt: Option<&[i32]>,
) -> (d: Option<GraphDefect>)
    ensures
        d == raw_view(xadj, adjncy, ncon, vwgt, adjwgt).defect(),
{
    let ghost g = raw_view(xadj, adjncy, ncon, vwgt, adjwgt);
    let h = header_check(xadj, adjncy, ncon, vwgt, adjwgt);
    if h.is_some() {
        return h;
    }
    if xadj.len() == 1 {
        return None;
    }
    let l = local_check(xadj, adjncy, ncon, vwgt, adjwgt);
    if l.is_some() {
        return l;
    }
    let s = sym_check(xadj, adjncy, ncon, vwgt, adjwgt);
    if s.is_some() {
        return s;
    }
    proof {
        lemma_local_clean_indexed(g);
    }
    if !is_connected(xadj, adjncy) {
        return Some(GraphDefect::Disconnected);
    }
    None
}

/// Message carried by `PartitionError::InvalidGraph` for each defect.
pub open spec fn defect_message(d: GraphDefect) -> &'static str {
    match d {
        GraphDefect::XadjLength => "xadj length must be n + 1",
        GraphDefect::XadjStart => "xadj must start at zero",
        GraphDefect::XadjTerminator => "xadj terminator must equal adjncy length",
        GraphDefect::NconZero => "ncon must be at least one",
        GraphDefect::VwgtLength => "vwgt length must equal n * ncon",
        GraphDefect::NonPositiveVertexWeight => "vertex weights must be positive",
        GraphDefect::AdjwgtLength => "adjwgt length must equal adjncy length",
        GraphDefect::NonPositiveEdgeWeight => "edge weights must be positive",
        GraphDefect::NonMonotonicXadj => "xadj must be monotonically nondecreasing",
        GraphDefect::XadjPastEnd => "xadj points past adjncy length",
        GraphDefect::InvalidNeighbor => "adjncy contains an invalid neighbor",
        GraphDefect::AsymmetricAdjacency => "adjncy must describe an undirected graph",
        GraphDefect::AsymmetricEdgeWeight => "undirected edge weights must match",
        GraphDefect::Disconnected => "graph must be connected",
    }
}

/// The error that general validation reports for a defect.
pub open spec fn validation_error(d: GraphDefect) -> PartitionError {
    PartitionError::InvalidGraph(defect_message(d))
}

/// The error that strict construction reports for a defect: a dedicated
/// variant where one exists, otherwise the general message.
pub open spec fn strict_error(d: GraphDefect) -> PartitionError {
    match d {
        GraphDefect::XadjLength => PartitionError::BadXadjLength,
        GraphDefect::XadjStart => PartitionError::BadXadjStart,
        GraphDefect::XadjTerminator => PartitionError::BadXadjTerminator,
        GraphDefect::NonPositiveVertexWeight => PartitionError::NonPositiveVertexWeight,
        GraphDefect::NonPositiveEdgeWeight => PartitionError::NonPositiveEdgeWeight,
        GraphDefect::NonMonotonicXadj => PartitionError::NonMonotonicXadj,
        GraphDefect::InvalidNeighbor => PartitionError::InvalidNeighbor,
        GraphDefect::AsymmetricAdjacency => PartitionError::AsymmetricAdjacency,
        GraphDefect::AsymmetricEdgeWeight => PartitionError::AsymmetricEdgeWeight,
        GraphDefect::Disconnected => PartitionError::DisconnectedGraph,
        _ => PartitionError::InvalidGraph(defect_message(d)),
    }
}

fn make_validation_error(d: GraphDefect) -> (e: PartitionError)
    ensures
        e == validation_error(d),
{
    let msg: &'static str = match d {
        GraphDefect::XadjLength => "xadj length must be n + 1",
        GraphDefect::XadjStart => "xadj must start at zero",
        GraphDefect::XadjTerminator => "xadj terminator must equal adjncy length",
        GraphDefect::NconZero => "ncon must be at least one",
        GraphDefect::VwgtLength => "vwgt length must equal n * ncon",
        GraphDefect::NonPositiveVertexWeight => "vertex weights must be positive",
        GraphDefect::AdjwgtLength => "adjwgt length must equal adjncy length",
        GraphDefect::NonPositiveEdgeWeight => "edge weights must be positive",
        GraphDefect::NonMonotonicXadj => "xadj must be monotonically nondecreasing",
        GraphDefect::XadjPastEnd => "xadj points past adjncy length",
        GraphDefect::InvalidNeighbor => "adjncy contains an invalid neighbor",
        GraphDefect::AsymmetricAdjacency => "adjncy must describe an undirected graph",
        GraphDefect::AsymmetricEdgeWeight => "undirected edge weights must match",
        GraphDefect::Disconnected => "graph must be connected",
    };
    PartitionError::InvalidGraph(msg)
}

fn make_strict_error(d: GraphDefect) -> (e: PartitionError)
    ensures
        e == strict_error(d),
{
    match d {
        GraphDefect::XadjLength => PartitionError::BadXadjLength,
        GraphDefect::XadjStart => PartitionError::BadXadjStart,
        GraphDefect::XadjTerminator => PartitionError::BadXadjTerminator,
        GraphDefect::NonPositiveVertexWeight => PartitionError::NonPositiveVertexWeight,
        GraphDefect::NonPositiveEdgeWeight => PartitionError::NonPositiveEdgeWeight,
        GraphDefect::NonMonotonicXadj => PartitionError::NonMonotonicXadj,
        GraphDefect::InvalidNeighbor => PartitionError::InvalidNeighbor,
        GraphDefect::AsymmetricAdjacency => PartitionError::AsymmetricAdjacency,
        GraphDefect::AsymmetricEdgeWeight => PartitionError::AsymmetricEdgeWeight,
        GraphDefect::Disconnected => PartitionError::DisconnectedGraph,
        _ => make_validation_error(d),
    }
}

/// A graph in compressed sparse row form.
///
/// `xadj[v]..xadj[v + 1]` indexes the adjacency slots of vertex `v` in
/// `adjncy` (and in `adjwgt` when edge weights are stored); vertex `v` carries
/// `ncon` weights `vwgt[v * ncon .. (v + 1) * ncon]`.
#[derive(Debug, Clone)]
pub struct CsrGraph {
    xadj: Vec<u32>,
    adjncy: Vec<u32>,
    ncon: u32,
    vwgt: Vec<i32>,
    adjwgt: Option<Vec<i32>>,
}

pub open spec fn opt_vec_view(w: Option<Vec<i32>>) -> Option<Seq<i32>> {
    match w {
        Some(v) => Some(v@),
        None => None,
    }
}

pub open spec fn parts_view(
    xadj: Vec<u32>,
    adjncy: Vec<u32>,
    ncon: u32,
    vwgt: Vec<i32>,
    adjwgt: Option<Vec<i32>>,
) -> GraphView {
    GraphView { xadj: xadj@, adjncy: adjncy@, ncon, vwgt: vwgt@, adjwgt: opt_vec_view(adjwgt) }
}

impl View for CsrGraph {
    type V = GraphView;

    closed spec fn view(&self) -> GraphView {
        parts_view(self.xadj, self.adjncy, self.ncon, self.vwgt, self.adjwgt)
    }
}

impl CsrGraph {
    /// Assembles a graph from parts whose structure is already known to be sound.
    pub(crate) fn from_sound_parts(
        xadj: Vec<u32>,
        adjncy: Vec<u32>,
        ncon: u32,
        vwgt: Vec<i32>,
        adjwgt: Option<Vec<i32>>,
    ) -> (g: Self)
        ensures
            g@ == parts_view(xadj, adjncy, ncon, vwgt, adjwgt),
    {
        CsrGraph { xadj, adjncy, ncon, vwgt, adjwgt }
    }

    /// Build a CSR graph, rejecting it unless it satisfies the strict CSR
    /// contract: row pointers of length `n + 1` starting at zero, ending at
    /// the adjacency length and never decreasing; neighbours in range and
    /// distinct from the vertex; `ncon >= 1` weights per vertex, all positive;
    /// positive edge weights, one per slot; reciprocal adjacency with equal
    /// weights; connectivity.
    pub fn new(
        xadj: Vec<u32>,
        adjncy: Vec<u32>,
        ncon: u32,
        vwgt: Vec<i32>,
        adjwgt: Option<Vec<i32>>,
    ) -> (r: Result<Self, PartitionError>)
        ensures
            match parts_view(xadj, adjncy, ncon, vwgt, adjwgt).defect() {
                None => r is Ok && r->Ok_0@ == parts_view(xadj, adjncy, ncon, vwgt, adjwgt),
                Some(d) => r == Err::<Self, PartitionError>(validation_error(d)),
            },
    {
        let g = CsrGraph { xadj, adjncy, ncon, vwgt, adjwgt };
        match g.validate() {
            Ok(()) => Ok(g),
            Err(e) => Err(e),
        }
    }

    /// Build a single-constraint graph from CSR slices; an empty `vwgt` means
    /// unit vertex weights and an empty `adjwgt` means unit edge weights.
    pub fn from_csr(xadj: &[u32], adjncy: &[u32], vwgt: &[i32], adjwgt: &[i32]) -> (r: Result<
        Self,
        PartitionError,
    >)
        ensures
            match csr_input_view(xadj, adjncy, vwgt, adjwgt).defect() {
                None => r is Ok && r->Ok_0@ == csr_input_view(xadj, adjncy, vwgt, adjwgt),
                Some(d) => r == Err::<Self, PartitionError>(validation_error(d)),
            },
    {
        let (xv, av, vv, wv) = copy_csr_input(xadj, adjncy, vwgt, adjwgt);
        Self::new(xv, av, 1, vv, wv)
    }

    /// METIS-style CSR input, held to the same rules as `from_csr`.
    pub fn from_csr_metis(xadj: &[u32], adjncy: &[u32], vwgt: &[i32], adjwgt: &[i32]) -> (r: Result<
        Self,
        PartitionError,
    >)
        ensures
            match csr_input_view(xadj, adjncy, vwgt, adjwgt).defect() {
                None => r is Ok && r->Ok_0@ == csr_input_view(xadj, adjncy, vwgt, adjwgt),
                Some(d) => r == Err::<Self, PartitionError>(validation_error(d)),
            },
    {
        Self::from_csr(xadj, adjncy, vwgt, adjwgt)
    }

    /// Like `from_csr`, but reports each violated rule through its own error
    /// variant (`AsymmetricAdjacency`, `DisconnectedGraph`, ...).
    pub fn from_csr_strict(xadj: &[u32], adjncy: &[u32], vwgt: &[i32], adjwgt: &[i32]) -> (r:
        Result<Self, PartitionError>)
        ensures
            match csr_input_view(xadj, adjncy, vwgt, adjwgt).defect() {
                None => r is Ok && r->Ok_0@ == csr_input_view(xadj, adjncy, vwgt, adjwgt),
                Some(d) => r == Err::<Self, PartitionError>(strict_error(d)),
            },
    {
        let (xv, av, vv, wv) = copy_csr_input(xadj, adjncy, vwgt, adjwgt);
        let g = CsrGraph { xadj: xv, adjncy: av, ncon: 1, vwgt: vv, adjwgt: wv };
        match g.defect_of() {
            None => Ok(g),
            Some(d) => Err(make_strict_error(d)),
        }
    }

    /// Number of vertices.
    pub fn n(&self) -> (r: usize)
        ensures
            r == self@.n(),
    {
        if self.xadj.len() == 0 {
            0
        } else {
            self.xadj.len() - 1
        }
    }

    pub fn xadj(&self) -> (r: &[u32])
        ensures
            r@ == self@.xadj,
    {
        self.xadj.as_slice()
    }

    pub fn adjncy(&self) -> (r: &[u32])
        ensures
            r@ == self@.adjncy,
    {
        self.adjncy.as_slice()
    }

    pub fn ncon(&self) -> (r: u32)
        ensures
            r == self@.ncon,
    {
        self.ncon
    }

    pub fn vwgt(&self) -> (r: &[i32])
        ensures
            r@ == self@.vwgt,
    {
        self.vwgt.as_slice()
    }

    pub fn adjwgt(&self) -> (r: Option<&[i32]>)
        ensures
            opt_slice_view(r) == self@.adjwgt,
    {
        match &self.adjwgt {
            Some(w) => Some(w.as_slice()),
            None => None,
        }
    }

    /// Weight of adjacency slot `j` (1 when the graph stores no edge weights).
    pub fn edge_weight(&self, j: usize) -> (w: i32)
        requires
            self@.sound(),
            j < self@.m(),
        ensures
            w as int == self@.ew(j as int),
    {
        match &self.adjwgt {
            Some(aw) => aw[j],
            None => 1,
        }
    }

    /// A copy with the same mathematical content.
    pub fn duplicate(&self) -> (r: Self)
        ensures
            r@ == self@,
    {
        let xadj = copy_u32(self.xadj.as_slice());
        let adjncy = copy_u32(self.adjncy.as_slice());
        let vwgt = copy_i32(self.vwgt.as_slice());
        let adjwgt = match &self.adjwgt {
            Some(w) => Some(copy_i32(w.as_slice())),
            None => None,
        };
        CsrGraph { xadj, adjncy, ncon: self.ncon, vwgt, adjwgt }
    }

    fn defect_of(&self) -> (d: Option<GraphDefect>)
        ensures
            d == self@.defect(),
    {
        let aw: Option<&[i32]> = match &self.adjwgt {
            Some(w) => Some(w.as_slice()),
            None => None,
        };
        find_defect(
            self.xadj.as_slice(),
            self.adjncy.as_slice(),
            self.ncon,
            self.vwgt.as_slice(),
            aw,
        )
    }

    /// Whether the graph satisfies the strict CSR contract.
    pub fn is_valid(&self) -> (r: bool)
        ensures
            r == self@.valid(),
    {
        self.defect_of().is_none()
    }

    /// `Ok(())` for a graph satisfying the strict CSR contract, otherwise the
    /// first violated rule as `InvalidGraph(message)`.
    pub fn validate(&self) -> (r: Result<(), PartitionError>)
        ensures
            match self@.defect() {
                None => r is Ok,
                Some(d) => r == Err::<(), PartitionError>(validation_error(d)),
            },
    {
        match self.defect_of() {
            None => Ok(()),
            Some(d) => Err(make_validation_error(d)),
        }
    }
}

/// The graph that `from_csr` describes: one constraint, unit weights for
/// empty weight slices.
pub open spec fn csr_input_view(xadj: &[u32], adjncy: &[u32], vwgt: &[i32], adjwgt: &[i32]) -> GraphView {
    let n: nat = if xadj@.len() == 0 {
        0
    } else {
        (xadj@.len() - 1) as nat
    };
    GraphView {
        xadj: xadj@,
        adjncy: adjncy@,
        ncon: 1,
        vwgt: if vwgt@.len() == 0 {
            Seq::new(n, |i: int| 1i32)
        } else {
            vwgt@
        },
        adjwgt: if adjwgt@.len() == 0 {
            None
        } else {
            Some(adjwgt@)
        },
    }
}

fn copy_csr_input(xadj: &[u32], adjncy: &[u32], vwgt: &[i32], adjwgt: &[i32]) -> (r: (
    Vec<u32>,
    Vec<u32>,
    Vec<i32>,
    Option<Vec<i32>>,
))
    ensures
        parts_view(r.0, r.1, 1, r.2, r.3) == csr_input_view(xadj, adjncy, vwgt, adjwgt),
{
    let n = if xadj.len() == 0 {
        0
    } else {
        xadj.len() - 1
    };
    let xv = copy_u32(xadj);
    let av = copy_u32(adjncy);
    let vv = if vwgt.len() == 0 {
        let v: Vec<i32> = vec![1i32; n];
        proof {
            assert(v@ =~= Seq::new(n as nat, |i: int| 1i32));
        }
        v
    } else {
        copy_i32(vwgt)
    };
    let wv = if adjwgt.len() == 0 {
        None
    } else {
        Some(copy_i32(adjwgt))
    };
    (xv, av, vv, wv)
}

pub fn copy_u32(s: &[u32]) -> (r: Vec<u32>)
    ensures
        r@ == s@,
{
    let mut r: Vec<u32> = Vec::with_capacity(s.len());
    let mut i: usize = 0;
    while i < s.len()
        invariant
            0 <= i <= s.len(),
            r@ == s@.subrange(0, i as int),
        decreases s.len() - i,
    {
        r.push(s[i]);
        i += 1;
        proof {
            assert(r@ =~= s@.subrange(0, i as int));
        }
    }
    proof {
        assert(r@ =~= s@);
    }
    r
}

pub fn copy_i32(s: &[i32]) -> (r: Vec<i32>)
    ensures
        r@ == s@,
{
    let mut r: Vec<i32> = Vec::with_capacity(s.len());
    let mut i: usize = 0;
    while i < s.len()
        invariant
            0 <= i <= s.len(),
            r@ == s@.subrange(0, i as int),
        decreases s.len() - i,
    {
        r.push(s[i]);
        i += 1;
        proof {
            assert(r@ =~= s@.subrange(0, i as int));
        }
    }
    proof {
        assert(r@ =~= s@);
    }
    r
}

} // verus!
