use vstd::prelude::*;

verus! {

/// The adjacency structure of a CSR graph: row pointers and column indices.
pub struct Topo {
    pub xadj: Seq<u32>,
    pub adjncy: Seq<u32>,
}

impl Topo {
    /// Number of vertices described by the row pointers.
    pub open spec fn n(self) -> int {
        if self.xadj.len() == 0 {
            0
        } else {
            self.xadj.len() - 1
        }
    }

    pub open spec fn m(self) -> int {
        self.adjncy.len() as int
    }

    /// First adjacency slot of vertex `v`.
    pub open spec fn lo(self, v: int) -> int {
        self.xadj[v] as int
    }

    /// One past the last adjacency slot of vertex `v`.
    pub open spec fn hi(self, v: int) -> int {
        self.xadj[v + 1] as int
    }

    /// Neighbour stored in adjacency slot `j`.
    pub open spec fn nbr(self, j: int) -> int {
        self.adjncy[j] as int
    }

    /// The row pointers and column indices can be followed without leaving
    /// their arrays: `xadj` starts at zero, never decreases, ends at the
    /// adjacency length, and every neighbour is a vertex.
    pub open spec fn well_indexed(self) -> bool {
        &&& self.xadj.len() >= 1
        &&& self.xadj[0] == 0
        &&& self.xadj[self.n()] as int == self.m()
        &&& forall|i: int, j: int|
            #![trigger self.xadj[i], self.xadj[j]]
            0 <= i <= j <= self.n() ==> self.xadj[i] <= self.xadj[j]
        &&& forall|j: int| 0 <= j < self.m() ==> (#[trigger] self.adjncy[j] as int) < self.n()
    }

    /// `w` occurs in the adjacency list of `u`.
    pub open spec fn adjacent(self, u: int, w: int) -> bool {
        exists|j: int| self.lo(u) <= j < self.hi(u) && #[trigger] self.nbr(j) == w
    }

    /// `p` is a walk of at least one vertex whose vertices are all allowed.
    pub open spec fn is_walk(self, p: Seq<int>, allowed: Seq<bool>) -> bool {
        &&& p.len() >= 1
        &&& forall|i: int| 0 <= i < p.len() ==> 0 <= #[trigger] p[i] < self.n() && allowed[p[i]]
        &&& forall|i: int| 0 <= i < p.len() - 1 ==> self.adjacent(#[trigger] p[i], p[i + 1])
    }

    /// `t` can be reached from `s` through allowed vertices only.
    pub open spec fn reaches(self, allowed: Seq<bool>, s: int, t: int) -> bool {
        exists|p: Seq<int>| #[trigger] self.is_walk(p, allowed) && p[0] == s && p.last() == t
    }

    /// The mask that allows every vertex.
    pub open spec fn everywhere(self) -> Seq<bool> {
        Seq::new(self.n() as nat, |i: int| true)
    }

    /// Every vertex can be reached from vertex 0.
    pub open spec fn connected(self) -> bool {
        forall|t: int| 0 <= t < self.n() ==> #[trigger] self.reaches(self.everywhere(), 0, t)
    }

    /// Every allowed neighbour of a marked vertex `v` is marked as well.
    pub open spec fn closed_at(self, marked: Seq<bool>, allowed: Seq<bool>, v: int) -> bool {
        forall|j: int|
            self.lo(v) <= j < self.hi(v) && allowed[#[trigger] self.nbr(j)] ==> marked[self.nbr(j)]
    }
}

/// A walk stays inside a set of marked vertices that is closed under allowed
/// adjacency and contains its first vertex.
pub proof fn lemma_closed_contains_reachable(
    t: Topo,
    marked: Seq<bool>,
    allowed: Seq<bool>,
    s: int,
    target: int,
)
    requires
        t.well_indexed(),
        marked.len() == t.n(),
        allowed.len() == t.n(),
        0 <= s < t.n(),
        marked[s],
        forall|v: int| 0 <= v < t.n() && #[trigger] marked[v] ==> t.closed_at(marked, allowed, v),
        t.reaches(allowed, s, target),
    ensures
        marked[target],
{
    let p = choose|p: Seq<int>| #[trigger] t.is_walk(p, allowed) && p[0] == s && p.last() == target;
    lemma_walk_prefix_marked(t, marked, allowed, p, p.len() - 1);
}

proof fn lemma_walk_prefix_marked(t: Topo, marked: Seq<bool>, allowed: Seq<bool>, p: Seq<int>, i: int)
    requires
        t.well_indexed(),
        marked.len() == t.n(),
        allowed.len() == t.n(),
        t.is_walk(p, allowed),
        marked[p[0]],
        0 <= i < p.len(),
        forall|v: int| 0 <= v < t.n() && #[trigger] marked[v] ==> t.closed_at(marked, allowed, v),
    ensures
        marked[p[i]],
    decreases i,
{
    if i > 0 {
        lemma_walk_prefix_marked(t, marked, allowed, p, i - 1);
        assert(t.adjacent(p[i - 1], p[i]));
        let j = choose|j: int| t.lo(p[i - 1]) <= j < t.hi(p[i - 1]) && #[trigger] t.nbr(j) == p[i];
        assert(0 <= p[i - 1] < t.n());
        assert(t.closed_at(marked, allowed, p[i - 1]));
        assert(allowed[p[i]]);
        assert(allowed[t.nbr(j)]);
    }
}

/// Both ends of a walk are allowed vertices.
pub proof fn lemma_reaches_ends(t: Topo, allowed: Seq<bool>, s: int, e: int)
    requires
        t.reaches(allowed, s, e),
    ensures
        0 <= s < t.n(),
        0 <= e < t.n(),
        allowed[s],
        allowed[e],
{
    let p = choose|p: Seq<int>| #[trigger] t.is_walk(p, allowed) && p[0] == s && p.last() == e;
    assert(p[p.len() - 1] == e);
}

/// Every allowed vertex reaches itself.
pub proof fn lemma_reaches_self(t: Topo, allowed: Seq<bool>, s: int)
    requires
        0 <= s < t.n(),
        allowed.len() == t.n(),
        allowed[s],
    ensures
        t.reaches(allowed, s, s),
{
    let p = seq![s];
    assert(t.is_walk(p, allowed));
}

/// A walk can be extended by an allowed neighbour of its last vertex.
pub proof fn lemma_reaches_extend(t: Topo, allowed: Seq<bool>, s: int, v: int, j: int)
    requires
        t.reaches(allowed, s, v),
        t.lo(v) <= j < t.hi(v),
        0 <= t.nbr(j) < t.n(),
        allowed[t.nbr(j)],
    ensures
        t.reaches(allowed, s, t.nbr(j)),
{
    let p = choose|p: Seq<int>| #[trigger] t.is_walk(p, allowed) && p[0] == s && p.last() == v;
    let q = p.push(t.nbr(j));
    assert(t.adjacent(v, t.nbr(j)));
    assert forall|i: int| 0 <= i < q.len() - 1 implies t.adjacent(#[trigger] q[i], q[i + 1]) by {
        if i < p.len() - 1 {
            assert(q[i] == p[i] && q[i + 1] == p[i + 1]);
        } else {
            assert(q[i] == v);
        }
    }
    assert(t.is_walk(q, allowed));
}

/// A walk stays a walk when more vertices are allowed.
pub proof fn lemma_reaches_widen(t: Topo, allowed: Seq<bool>, wider: Seq<bool>, a: int, b: int)
    requires
        t.reaches(allowed, a, b),
        allowed.len() == t.n(),
        wider.len() == t.n(),
        forall|i: int| 0 <= i < allowed.len() && #[trigger] allowed[i] ==> wider[i],
    ensures
        t.reaches(wider, a, b),
{
    let p = choose|p: Seq<int>| #[trigger] t.is_walk(p, allowed) && p[0] == a && p.last() == b;
    assert forall|i: int| 0 <= i < p.len() implies 0 <= #[trigger] p[i] < t.n() && wider[p[i]] by {
        assert(allowed[p[i]]);
    }
    assert(t.is_walk(p, wider));
}

/// Two walks that meet join into one.
pub proof fn lemma_reaches_trans(t: Topo, allowed: Seq<bool>, a: int, b: int, c: int)
    requires
        t.reaches(allowed, a, b),
        t.reaches(allowed, b, c),
    ensures
        t.reaches(allowed, a, c),
{
    let p = choose|p: Seq<int>| #[trigger] t.is_walk(p, allowed) && p[0] == a && p.last() == b;
    let q = choose|q: Seq<int>| #[trigger] t.is_walk(q, allowed) && q[0] == b && q.last() == c;
    let r = p + q.drop_first();
    assert forall|i: int| 0 <= i < r.len() implies 0 <= #[trigger] r[i] < t.n() && allowed[r[i]] by {
        if i < p.len() {
            assert(r[i] == p[i]);
        } else {
            assert(r[i] == q[i - p.len() + 1]);
        }
    }
    assert forall|i: int| 0 <= i < r.len() - 1 implies t.adjacent(#[trigger] r[i], r[i + 1]) by {
        if i < p.len() - 1 {
            assert(r[i] == p[i] && r[i + 1] == p[i + 1]);
        } else if i == p.len() - 1 {
            assert(r[i] == q[0] && r[i + 1] == q[1]);
        } else {
            assert(r[i] == q[i - p.len() + 1] && r[i + 1] == q[i - p.len() + 2]);
        }
    }
    assert(t.is_walk(r, allowed));
    if q.len() == 1 {
        assert(r.last() == p.last());
    } else {
        assert(r.last() == q.last());
    }
}

/// In a graph whose adjacency is symmetric a walk can be walked backwards.
pub proof fn lemma_reaches_reverse(t: Topo, allowed: Seq<bool>, a: int, b: int)
    requires
        t.well_indexed(),
        forall|v: int, j: int| 0 <= v < t.n() && t.lo(v) <= j < t.hi(v) ==> #[trigger] t.adjacent(t.nbr(j), v),
        t.reaches(allowed, a, b),
    ensures
        t.reaches(allowed, b, a),
{
    let p = choose|p: Seq<int>| #[trigger] t.is_walk(p, allowed) && p[0] == a && p.last() == b;
    let n = p.len();
    let r = Seq::new(n, |i: int| p[n - 1 - i]);
    assert forall|i: int| 0 <= i < r.len() implies 0 <= #[trigger] r[i] < t.n() && allowed[r[i]] by {
        assert(r[i] == p[n - 1 - i]);
    }
    assert forall|i: int| 0 <= i < r.len() - 1 implies t.adjacent(#[trigger] r[i], r[i + 1]) by {
        let x = p[n - 2 - i];
        let y = p[n - 1 - i];
        assert(t.adjacent(x, y));
        let j = choose|j: int| t.lo(x) <= j < t.hi(x) && #[trigger] t.nbr(j) == y;
        assert(0 <= x < t.n());
        assert(t.adjacent(t.nbr(j), x));
        assert(r[i] == y && r[i + 1] == x);
    }
    assert(t.is_walk(r, allowed));
    assert(r[0] == b && r.last() == a);
}

/// Distinct indices below `n` number at most `n`.
pub proof fn lemma_distinct_bound(s: Seq<usize>, n: int)
    requires
        n >= 0,
        s.no_duplicates(),
        forall|i: int| 0 <= i < s.len() ==> (#[trigger] s[i] as int) < n,
    ensures
        s.len() <= n,
    decreases s.len(),
{
    if s.len() == 0 {
    } else {
        let x = s.last();
        assert((s[0] as int) < n);
        let r = s.drop_last();
        let top = n - 1;
        let r2 = r.map_values(|e: usize| if e as int == top { x } else { e });
        assert forall|i: int| 0 <= i < r2.len() implies (#[trigger] r2[i] as int) < top by {
            assert(r[i] == s[i]);
            assert(s[i] != x);
            if r[i] as int == top {
                assert(x as int != top) by {
                    if x as int == top {
                        assert(s[i] == s[s.len() - 1]);
                    }
                }
            }
        }
        assert forall|a: int, b: int| 0 <= a < r2.len() && 0 <= b < r2.len() && a != b implies r2[a]
            != r2[b] by {
            assert(r[a] == s[a] && r[b] == s[b]);
            assert(s[a] != s[b]);
            assert(s[a] != s[s.len() - 1]);
            assert(s[b] != s[s.len() - 1]);
        }
        lemma_distinct_bound(r2, top);
        assert(r2.len() == r.len());
        assert(r.len() == s.len() - 1);
    }
}

/// The vertices reachable from `start` through allowed vertices, found by
/// breadth-first search.
pub fn reach_set(xadj: &[u32], adjncy: &[u32], start: usize, allowed: &[bool]) -> (visited: Vec<
    bool,
>)
    requires
        (Topo { xadj: xadj@, adjncy: adjncy@ }).well_indexed(),
        (start as int) < (Topo { xadj: xadj@, adjncy: adjncy@ }).n(),
        allowed@.len() == (Topo { xadj: xadj@, adjncy: adjncy@ }).n(),
        allowed@[start as int],
    ensures
        visited@.len() == allowed@.len(),
        forall|v: int|
            0 <= v < visited@.len() ==> (#[trigger] visited@[v] <==> (Topo {
                xadj: xadj@,
                adjncy: adjncy@,
            }).reaches(allowed@, start as int, v)),
{
    let ghost t = Topo { xadj: xadj@, adjncy: adjncy@ };
    let n = xadj.len() - 1;
    let mut visited: Vec<bool> = vec![false; n];
    let mut queue: Vec<usize> = Vec::new();
    visited.set(start, true);
    queue.push(start);
    proof {
        lemma_reaches_self(t, allowed@, start as int);
        assert(queue@[0] == start);
        assert forall|v: int| 0 <= v < n && #[trigger] visited@[v] implies queue@.contains(v as usize) by {
            assert(v == start as int);
        }
    }
    let mut head: usize = 0;
    while head < queue.len()
        invariant
            t == (Topo { xadj: xadj@, adjncy: adjncy@ }),
            t.well_indexed(),
            n == t.n(),
            allowed@.len() == n,
            visited@.len() == n,
            0 <= head <= queue@.len() <= n,
            visited@[start as int],
            queue@.no_duplicates(),
            forall|i: int|
                0 <= i < queue@.len() ==> (#[trigger] queue@[i] as int) < n && visited@[queue@[i] as int],
            forall|v: int| 0 <= v < n && #[trigger] visited@[v] ==> queue@.contains(v as usize),
            forall|v: int|
                0 <= v < n && #[trigger] visited@[v] ==> allowed@[v] && t.reaches(
                    allowed@,
                    start as int,
                    v,
                ),
            forall|i: int|
                0 <= i < head ==> t.closed_at(visited@, allowed@, #[trigger] queue@[i] as int),
        decreases n - head,
    {
        let v = queue[head];
        let lo = xadj[v] as usize;
        let hi = xadj[v + 1] as usize;
        proof {
            assert(t.xadj[v as int] <= t.xadj[v as int + 1]);
            assert(t.xadj[v as int + 1] <= t.xadj[t.n()]);
        }
        let mut j = lo;
        while j < hi
            invariant
                t == (Topo { xadj: xadj@, adjncy: adjncy@ }),
                t.well_indexed(),
                n == t.n(),
                (v as int) < n,
                lo == t.lo(v as int),
                hi == t.hi(v as int),
                hi <= t.m(),
                lo <= j <= hi,
                allowed@.len() == n,
                visited@.len() == n,
                0 <= head < queue@.len() <= n,
                visited@[start as int],
                queue@[head as int] == v,
                queue@.no_duplicates(),
                forall|i: int|
                    0 <= i < queue@.len() ==> (#[trigger] queue@[i] as int) < n && visited@[queue@[i] as int],
                forall|w: int| 0 <= w < n && #[trigger] visited@[w] ==> queue@.contains(w as usize),
                forall|w: int|
                    0 <= w < n && #[trigger] visited@[w] ==> allowed@[w] && t.reaches(
                        allowed@,
                        start as int,
                        w,
                    ),
                forall|i: int|
                    0 <= i < head ==> t.closed_at(visited@, allowed@, #[trigger] queue@[i] as int),
                forall|jj: int|
                    lo <= jj < j && allowed@[#[trigger] t.nbr(jj)] ==> visited@[t.nbr(jj)],
            decreases hi - j,
        {
            let u = adjncy[j] as usize;
            proof {
                assert(t.nbr(j as int) == u as int);
            }
            if allowed[u] && !visited[u] {
                proof {
                    lemma_reaches_extend(t, allowed@, start as int, v as int, j as int);
                    let q2 = queue@.push(u);
                    assert forall|a: int, b: int|
                        0 <= a < q2.len() && 0 <= b < q2.len() && a != b implies q2[a] != q2[b] by {
                        if a < queue@.len() && b < queue@.len() {
                        } else if a < queue@.len() {
                            assert(visited@[queue@[a] as int]);
                        } else if b < queue@.len() {
                            assert(visited@[queue@[b] as int]);
                        }
                    }
                    assert forall|i: int| 0 <= i < q2.len() implies (#[trigger] q2[i] as int) < n by {
                        if i < queue@.len() {
                            assert(q2[i] == queue@[i]);
                        }
                    }
                    lemma_distinct_bound(q2, n as int);
                }
                let ghost old_visited = visited@;
                let ghost old_queue = queue@;
                visited.set(u, true);
                queue.push(u);
                proof {
                    assert forall|i: int| 0 <= i < head implies t.closed_at(
                        visited@,
                        allowed@,
                        #[trigger] queue@[i] as int,
                    ) by {
                        assert(queue@[i] == old_queue[i]);
                        assert(t.closed_at(old_visited, allowed@, old_queue[i] as int));
                    }
                    assert forall|w: int| 0 <= w < n && #[trigger] visited@[w] implies queue@.contains(
                        w as usize,
                    ) by {
                        if w == u as int {
                            assert(queue@[queue@.len() - 1] == u);
                        } else {
                            assert(old_visited[w]);
                            let i = choose|i: int| 0 <= i < old_queue.len() && old_queue[i] == w as usize;
                            assert(queue@[i] == w as usize);
                        }
                    }
                    assert forall|i: int|
                        0 <= i < queue@.len() implies (#[trigger] queue@[i] as int) < n && visited@[queue@[i] as int] by {
                        if i < old_queue.len() {
                            assert(queue@[i] == old_queue[i]);
                        }
                    }
                }
            }
            j += 1;
        }
        head += 1;
    }
    proof {
        assert forall|w: int| 0 <= w < n && #[trigger] visited@[w] implies t.closed_at(
            visited@,
            allowed@,
            w,
        ) by {
            let i = choose|i: int| 0 <= i < queue@.len() && queue@[i] == w as usize;
            assert(t.closed_at(visited@, allowed@, queue@[i] as int));
        }
        assert forall|w: int| 0 <= w < n implies (#[trigger] visited@[w] <==> t.reaches(
            allowed@,
            start as int,
            w,
        )) by {
            if t.reaches(allowed@, start as int, w) {
                lemma_closed_contains_reachable(t, visited@, allowed@, start as int, w);
            }
        }
    }
    visited
}

} // verus!
