use vstd::prelude::*;

verus! {

/// Abstract content of a gain table: the gains that have a non-empty bucket,
/// in increasing order, each with its bucket of vertices in stack order.
pub struct GainView {
    pub max_gain: i32,
    pub n: nat,
    pub gains: Seq<i32>,
    pub lists: Seq<Seq<u32>>,
}

impl GainView {
    /// Gains strictly increasing and within `[-max_gain, max_gain]`; buckets
    /// non-empty; every vertex below `n` and in at most one place.
    pub open spec fn wf(self) -> bool {
        &&& self.max_gain >= 1
        &&& self.gains.len() == self.lists.len()
        &&& forall|i: int, j: int| 0 <= i < j < self.gains.len() ==> self.gains[i] < self.gains[j]
        &&& forall|b: int|
            0 <= b < self.gains.len() ==> #[trigger] self.lists[b].len() > 0 && -self.max_gain <= self.gains[b]
                <= self.max_gain
        &&& forall|b: int, p: int|
            0 <= b < self.lists.len() && 0 <= p < self.lists[b].len() ==> (#[trigger] self.lists[b][p] as int)
                < self.n
        &&& forall|b: int, p: int, c: int, q: int|
            0 <= b < self.lists.len() && 0 <= p < self.lists[b].len() && 0 <= c < self.lists.len() && 0 <= q
                < self.lists[c].len() && #[trigger] self.lists[b][p] == #[trigger] self.lists[c][q] ==> b == c && p
                == q
    }

    /// Vertex `v` sits in some bucket.
    pub open spec fn contains(self, v: u32) -> bool {
        exists|b: int, p: int| 0 <= b < self.lists.len() && 0 <= p < self.lists[b].len() && #[trigger] self.lists[b][p] == v
    }

    /// The most recently stored vertex of the highest-gain bucket, with its gain.
    pub open spec fn peek(self) -> Option<(u32, i32)> {
        if self.gains.len() == 0 {
            None
        } else {
            Some((self.lists.last().last(), self.gains.last()))
        }
    }
}

/// The entry that `peek` names has the highest gain in the table.
pub proof fn lemma_peek_is_max(t: GainView)
    requires
        t.wf(),
    ensures
        t.peek() matches Some(top) ==> forall|b: int| 0 <= b < t.gains.len() ==> #[trigger] t.gains[b] <= top.1,
        t.peek() is None <==> t.gains.len() == 0,
{
}

/// Gain recorded in a position entry.
pub open spec fn entry_gain(e: Option<(i32, usize)>) -> i32 {
    match e {
        Some(x) => x.0,
        None => 0,
    }
}

/// Slot recorded in a position entry.
pub open spec fn entry_slot(e: Option<(i32, usize)>) -> int {
    match e {
        Some(x) => x.1 as int,
        None => 0,
    }
}

/// `gain` clamped to `[-m, m]`.
pub open spec fn clamp_gain(gain: i32, m: i32) -> i32 {
    if gain < -m {
        (-m) as i32
    } else if gain > m {
        m
    } else {
        gain
    }
}

/// The bucket `s` without position `p`, whose place the last entry takes.
pub open spec fn swap_out(s: Seq<u32>, p: int) -> Seq<u32> {
    s.update(p, s.last()).drop_last()
}

/// `new` is `old` after storing `v` with gain `gain` (clamped).
pub open spec fn inserted(old: GainView, v: u32, gain: i32, new: GainView) -> bool {
    let g = clamp_gain(gain, old.max_gain);
    &&& new.max_gain == old.max_gain
    &&& new.n == old.n
    &&& if exists|b: int| 0 <= b < old.gains.len() && #[trigger] old.gains[b] == g {
        exists|b: int|
            0 <= b < old.gains.len() && #[trigger] old.gains[b] == g && new.gains == old.gains && new.lists
                == old.lists.update(b, old.lists[b].push(v))
    } else {
        exists|i: int|
            0 <= i <= old.gains.len() && (forall|j: int| 0 <= j < i ==> #[trigger] old.gains[j] < g) && (forall|j: int|
                i <= j < old.gains.len() ==> #[trigger] old.gains[j] > g) && new.gains == old.gains.insert(i, g)
                && new.lists == old.lists.insert(i, seq![v])
    }
}

/// `new` is `old` after taking `v` out of its bucket (nothing changes when `v`
/// is absent); a bucket left empty disappears.
pub open spec fn removed(old: GainView, v: u32, new: GainView) -> bool {
    &&& new.max_gain == old.max_gain
    &&& new.n == old.n
    &&& if old.contains(v) {
        exists|b: int, p: int|
            0 <= b < old.lists.len() && 0 <= p < old.lists[b].len() && #[trigger] old.lists[b][p] == v && if old.lists[b].len()
                == 1 {
                new.gains == old.gains.remove(b) && new.lists == old.lists.remove(b)
            } else {
                new.gains == old.gains && new.lists == old.lists.update(b, swap_out(old.lists[b], p))
            }
    } else {
        new == old
    }
}

/// Bucket table of vertex gains: the vertex with the highest gain is found at
/// once; among vertices of equal gain the most recently stored one comes first.
pub struct GainTable {
    gains: Vec<i32>,
    lists: Vec<Vec<u32>>,
    position: Vec<Option<(i32, usize)>>,
    max_gain: i32,
}

impl View for GainTable {
    type V = GainView;

    closed spec fn view(&self) -> GainView {
        GainView {
            max_gain: self.max_gain,
            n: self.position@.len(),
            gains: self.gains@,
            lists: self.lists@.map_values(|l: Vec<u32>| l@),
        }
    }
}

impl GainTable {
    /// The view is well formed and the position index agrees with the buckets.
    pub closed spec fn wf(&self) -> bool {
        &&& self@.wf()
        &&& self.lists@.len() == self.gains@.len()
        &&& forall|b: int, p: int|
            0 <= b < self.lists@.len() && 0 <= p < self.lists@[b]@.len() ==> self.position@[#[trigger] self.lists@[b]@[p] as int]
                == Some((self.gains@[b], p as usize))
        &&& forall|v: int|
            0 <= v < self.position@.len() && #[trigger] self.position@[v] is Some ==> exists|b: int|
                0 <= b < self.gains@.len() && #[trigger] self.gains@[b] == entry_gain(self.position@[v]) && entry_slot(self.position@[v]) < self.lists@[b]@.len() && self.lists@[b]@[entry_slot(self.position@[v])] as int
                == v
    }

    /// An empty table for vertices `0..n_vertices`; gains are clamped to
    /// `[-m, m]` with `m = max(max_gain, 1)`.
    pub fn new(n_vertices: usize, max_gain: i32) -> (t: Self)
        ensures
            t.wf(),
            t@ == (GainView {
                max_gain: if max_gain >= 1 {
                    max_gain
                } else {
                    1
                },
                n: n_vertices as nat,
                gains: Seq::empty(),
                lists: Seq::empty(),
            }),
    {
        let m = if max_gain >= 1 {
            max_gain
        } else {
            1
        };
        let position: Vec<Option<(i32, usize)>> = vec![None; n_vertices];
        let t = GainTable { gains: Vec::new(), lists: Vec::new(), position, max_gain: m };
        proof {
            assert(t@.lists =~= Seq::<Seq<u32>>::empty());
        }
        t
    }

    /// The first index whose gain is at least `g`.
    fn lower_bound(&self, g: i32) -> (i: usize)
        requires
            self.wf(),
        ensures
            i <= self.gains@.len(),
            forall|j: int| 0 <= j < i ==> #[trigger] self.gains@[j] < g,
            forall|j: int| i <= j < self.gains@.len() ==> #[trigger] self.gains@[j] >= g,
    {
        let mut i: usize = 0;
        while i < self.gains.len() && self.gains[i] < g
            invariant
                self.wf(),
                i <= self.gains@.len(),
                forall|j: int| 0 <= j < i ==> #[trigger] self.gains@[j] < g,
            decreases self.gains@.len() - i,
        {
            i += 1;
        }
        proof {
            assert forall|j: int| i <= j < self.gains@.len() implies #[trigger] self.gains@[j] >= g by {
                if j > i {
                    assert(self.gains@[i as int] < self.gains@[j]);
                }
            }
        }
        i
    }

    /// Store `vertex`, not yet in the table, with `gain` clamped to the range.
    pub fn insert(&mut self, vertex: u32, gain: i32)
        requires
            old(self).wf(),
            (vertex as int) < old(self)@.n,
            !old(self)@.contains(vertex),
        ensures
            final(self).wf(),
            inserted(old(self)@, vertex, gain, final(self)@),
    {
        let ghost old_v = self@;
        let m = self.max_gain;
        let g = if gain < -m {
            -m
        } else if gain > m {
            m
        } else {
            gain
        };
        proof {
            assert(clamp_gain(gain, m) == g);
            assert(clamp_gain(g, m) == g);
        }
        let i = self.lower_bound(g);
        let ghost lists0 = self.lists@;
        let ghost pos0 = self.position@;
        if i < self.gains.len() && self.gains[i] == g {
            let pos = self.lists[i].len();
            self.lists[i].push(vertex);
            self.position.set(vertex as usize, Some((g, pos)));
            proof {
                self.lemma_insert_existing(old_v, lists0, pos0, i as int, vertex, g);
            }
        } else {
            let mut l: Vec<u32> = Vec::new();
            l.push(vertex);
            self.gains.insert(i, g);
            self.lists.insert(i, l);
            self.position.set(vertex as usize, Some((g, 0)));
            proof {
                self.lemma_insert_new(old_v, lists0, pos0, i as int, vertex, g);
            }
        }
    }

    proof fn lemma_insert_existing(
        &self,
        old_v: GainView,
        lists0: Seq<Vec<u32>>,
        pos0: Seq<Option<(i32, usize)>>,
        i: int,
        vertex: u32,
        g: i32,
    )
        requires
            old_v.wf(),
            old_v.max_gain == self.max_gain,
            old_v.n == pos0.len(),
            old_v.gains == self.gains@,
            old_v.lists == lists0.map_values(|l: Vec<u32>| l@),
            lists0.len() == old_v.gains.len(),
            forall|b: int, p: int|
                0 <= b < lists0.len() && 0 <= p < lists0[b]@.len() ==> pos0[#[trigger] lists0[b]@[p] as int] == Some(
                    (old_v.gains[b], p as usize),
                ),
            forall|v: int|
                0 <= v < pos0.len() && #[trigger] pos0[v] is Some ==> exists|b: int|
                    0 <= b < old_v.gains.len() && #[trigger] old_v.gains[b] == entry_gain(pos0[v]) && entry_slot(pos0[v])
                        < lists0[b]@.len() && lists0[b]@[entry_slot(pos0[v])] as int == v,
            0 <= i < old_v.gains.len(),
            old_v.gains[i] == g,
            g == clamp_gain(g, old_v.max_gain),
            (vertex as int) < old_v.n,
            !old_v.contains(vertex),
            self.lists@ == lists0.update(i, self.lists@[i]),
            self.lists@[i]@ == lists0[i]@.push(vertex),
            lists0[i]@.len() <= usize::MAX,
            self.position@ == pos0.update(vertex as int, Some((g, lists0[i]@.len() as usize))),
        ensures
            self.wf(),
            inserted(old_v, vertex, g, self@),
    {
        let new_v = self@;
        assert(new_v.lists =~= old_v.lists.update(i, old_v.lists[i].push(vertex)));
        assert(forall|b: int| 0 <= b < lists0.len() ==> #[trigger] old_v.lists[b] == lists0[b]@);
        assert forall|b: int, p: int|
            0 <= b < new_v.lists.len() && 0 <= p < new_v.lists[b].len() implies (#[trigger] new_v.lists[b][p] as int)
            < new_v.n by {
            if b == i && p == lists0[i]@.len() {
            } else {
                assert(new_v.lists[b][p] == old_v.lists[b][p]);
            }
        }
        assert forall|b: int, p: int, c: int, q: int|
            0 <= b < new_v.lists.len() && 0 <= p < new_v.lists[b].len() && 0 <= c < new_v.lists.len() && 0 <= q
                < new_v.lists[c].len() && #[trigger] new_v.lists[b][p] == #[trigger] new_v.lists[c][q] implies b == c
            && p == q by {
            let nb = b == i && p == lists0[i]@.len();
            let nc = c == i && q == lists0[i]@.len();
            if !nb {
                assert(new_v.lists[b][p] == old_v.lists[b][p]);
            }
            if !nc {
                assert(new_v.lists[c][q] == old_v.lists[c][q]);
            }
            if nb && !nc {
                assert(old_v.contains(vertex));
            }
            if !nb && nc {
                assert(old_v.contains(vertex));
            }
        }
        assert forall|b: int, p: int|
            0 <= b < self.lists@.len() && 0 <= p < self.lists@[b]@.len() implies self.position@[
                #[trigger] self.lists@[b]@[p] as int] == Some((self.gains@[b], p as usize)) by {
            if b == i && p == lists0[i]@.len() {
            } else {
                assert(self.lists@[b]@[p] == lists0[b]@[p]);
                assert(old_v.lists[b][p] == lists0[b]@[p]);
                if lists0[b]@[p] == vertex {
                    assert(old_v.contains(vertex));
                }
            }
        }
        assert forall|v: int|
            0 <= v < self.position@.len() && #[trigger] self.position@[v] is Some implies exists|b: int|
                0 <= b < self.gains@.len() && #[trigger] self.gains@[b] == entry_gain(self.position@[v]) && entry_slot(self.position@[v]) < self.lists@[b]@.len() && self.lists@[b]@[entry_slot(self.position@[v])] as int
                == v by {
            if v == vertex as int {
                assert(self.gains@[i] == g);
                assert(entry_slot(self.position@[v]) == lists0[i]@.len());
                assert(self.lists@[i]@[lists0[i]@.len() as int] == vertex);
            } else {
                let b = choose|b: int|
                    0 <= b < old_v.gains.len() && #[trigger] old_v.gains[b] == entry_gain(pos0[v]) && entry_slot(pos0[v])
                        < lists0[b]@.len() && lists0[b]@[entry_slot(pos0[v])] as int == v;
                assert(self.gains@[b] == entry_gain(pos0[v]));
                assert(self.position@[v] == pos0[v]);
                assert(self.lists@[b]@[entry_slot(pos0[v])] == lists0[b]@[entry_slot(pos0[v])]);
            }
        }
        assert(exists|b: int| 0 <= b < old_v.gains.len() && #[trigger] old_v.gains[b] == g);
        assert(new_v.gains == old_v.gains && new_v.lists == old_v.lists.update(i, old_v.lists[i].push(vertex)));
    }

    proof fn lemma_insert_new(
        &self,
        old_v: GainView,
        lists0: Seq<Vec<u32>>,
        pos0: Seq<Option<(i32, usize)>>,
        i: int,
        vertex: u32,
        g: i32,
    )
        requires
            old_v.wf(),
            old_v.max_gain == self.max_gain,
            old_v.n == pos0.len(),
            old_v.lists == lists0.map_values(|l: Vec<u32>| l@),
            lists0.len() == old_v.gains.len(),
            forall|b: int, p: int|
                0 <= b < lists0.len() && 0 <= p < lists0[b]@.len() ==> pos0[#[trigger] lists0[b]@[p] as int] == Some(
                    (old_v.gains[b], p as usize),
                ),
            forall|v: int|
                0 <= v < pos0.len() && #[trigger] pos0[v] is Some ==> exists|b: int|
                    0 <= b < old_v.gains.len() && #[trigger] old_v.gains[b] == entry_gain(pos0[v]) && entry_slot(pos0[v])
                        < lists0[b]@.len() && lists0[b]@[entry_slot(pos0[v])] as int == v,
            0 <= i <= old_v.gains.len(),
            forall|j: int| 0 <= j < i ==> #[trigger] old_v.gains[j] < g,
            forall|j: int| i <= j < old_v.gains.len() ==> #[trigger] old_v.gains[j] >= g,
            !(i < old_v.gains.len() && old_v.gains[i] == g),
            -old_v.max_gain <= g <= old_v.max_gain,
            g == clamp_gain(g, old_v.max_gain),
            (vertex as int) < old_v.n,
            !old_v.contains(vertex),
            self.gains@ == old_v.gains.insert(i, g),
            self.lists@.len() == lists0.len() + 1,
            forall|b: int| 0 <= b < i ==> #[trigger] self.lists@[b] == lists0[b],
            forall|b: int| i < b < self.lists@.len() ==> #[trigger] self.lists@[b] == lists0[b - 1],
            self.lists@[i]@ == seq![vertex],
            self.position@ == pos0.update(vertex as int, Some((g, 0usize))),
        ensures
            self.wf(),
            inserted(old_v, vertex, g, self@),
    {
        let new_v = self@;
        assert(forall|b: int| 0 <= b < lists0.len() ==> #[trigger] old_v.lists[b] == lists0[b]@);
        assert(new_v.lists =~= old_v.lists.insert(i, seq![vertex])) by {
            assert forall|b: int| 0 <= b < new_v.lists.len() implies #[trigger] new_v.lists[b] == old_v.lists.insert(
                i,
                seq![vertex],
            )[b] by {
                if b < i {
                } else if b > i {
                    assert(self.lists@[b] == lists0[b - 1]);
                }
            }
        }
        // map a new (bucket, slot) back to the old one
        let back = |b: int| if b < i {
            b
        } else {
            b - 1
        };
        assert forall|b: int, p: int|
            0 <= b < new_v.lists.len() && 0 <= p < new_v.lists[b].len() && b != i implies #[trigger] new_v.lists[b][p]
            == old_v.lists[back(b)][p] by {
            if b > i {
                assert(self.lists@[b] == lists0[b - 1]);
            }
        }
        assert forall|b: int, p: int|
            0 <= b < new_v.lists.len() && 0 <= p < new_v.lists[b].len() implies (#[trigger] new_v.lists[b][p] as int)
            < new_v.n by {
            if b != i {
                assert(new_v.lists[b][p] == old_v.lists[back(b)][p]);
            }
        }
        assert forall|b: int, p: int, c: int, q: int|
            0 <= b < new_v.lists.len() && 0 <= p < new_v.lists[b].len() && 0 <= c < new_v.lists.len() && 0 <= q
                < new_v.lists[c].len() && #[trigger] new_v.lists[b][p] == #[trigger] new_v.lists[c][q] implies b == c
            && p == q by {
            if b != i {
                assert(new_v.lists[b][p] == old_v.lists[back(b)][p]);
            }
            if c != i {
                assert(new_v.lists[c][q] == old_v.lists[back(c)][q]);
            }
            if b == i && c != i {
                assert(old_v.contains(vertex));
            }
            if b != i && c == i {
                assert(old_v.contains(vertex));
            }
        }
        assert forall|x: int, y: int| 0 <= x < y < new_v.gains.len() implies new_v.gains[x] < new_v.gains[y] by {
            if y < i {
            } else if y == i {
            } else if x < i {
                assert(old_v.gains[x] < g);
                assert(old_v.gains[y - 1] >= g);
            } else if x == i {
                assert(old_v.gains[y - 1] >= g);
                assert(old_v.gains[y - 1] != g) by {
                    if y - 1 > i {
                        assert(old_v.gains[i] < old_v.gains[y - 1]);
                    }
                }
            } else {
            }
        }
        assert forall|b: int| 0 <= b < new_v.gains.len() implies #[trigger] new_v.lists[b].len() > 0
            && -new_v.max_gain <= new_v.gains[b] <= new_v.max_gain by {
            if b != i {
                assert(new_v.lists[b] == old_v.lists[back(b)]);
            }
        }
        assert forall|b: int, p: int|
            0 <= b < self.lists@.len() && 0 <= p < self.lists@[b]@.len() implies self.position@[
                #[trigger] self.lists@[b]@[p] as int] == Some((self.gains@[b], p as usize)) by {
            if b != i {
                assert(self.lists@[b]@[p] == lists0[back(b)]@[p]);
                assert(old_v.lists[back(b)][p] == lists0[back(b)]@[p]);
                if lists0[back(b)]@[p] == vertex {
                    assert(old_v.contains(vertex));
                }
                assert(self.gains@[b] == old_v.gains[back(b)]);
            }
        }
        assert forall|v: int|
            0 <= v < self.position@.len() && #[trigger] self.position@[v] is Some implies exists|b: int|
                0 <= b < self.gains@.len() && #[trigger] self.gains@[b] == entry_gain(self.position@[v]) && entry_slot(self.position@[v]) < self.lists@[b]@.len() && self.lists@[b]@[entry_slot(self.position@[v])] as int
                == v by {
            if v == vertex as int {
                assert(self.gains@[i] == g);
            } else {
                let b = choose|b: int|
                    0 <= b < old_v.gains.len() && #[trigger] old_v.gains[b] == entry_gain(pos0[v]) && entry_slot(pos0[v])
                        < lists0[b]@.len() && lists0[b]@[entry_slot(pos0[v])] as int == v;
                let nb = if b < i {
                    b
                } else {
                    b + 1
                };
                assert(self.gains@[nb] == old_v.gains[b]);
                assert(self.lists@[nb] == lists0[b]);
            }
        }
        assert(!exists|b: int| 0 <= b < old_v.gains.len() && #[trigger] old_v.gains[b] == g) by {
            if exists|b: int| 0 <= b < old_v.gains.len() && #[trigger] old_v.gains[b] == g {
                let b = choose|b: int| 0 <= b < old_v.gains.len() && #[trigger] old_v.gains[b] == g;
                if b > i {
                    assert(old_v.gains[i] < old_v.gains[b]);
                }
            }
        }
        assert forall|j: int| i <= j < old_v.gains.len() implies #[trigger] old_v.gains[j] > g by {
            assert(old_v.gains[j] >= g);
            if old_v.gains[j] == g {
                if j > i {
                    assert(old_v.gains[i] < old_v.gains[j]);
                }
            }
        }
    }

    /// A well-formed table has a well-formed view.
    pub proof fn lemma_view_wf(&self)
        requires
            self.wf(),
        ensures
            self@.wf(),
    {
    }

    /// The bound that gains are clamped to.
    pub fn max_gain_value(&self) -> (r: i32)
        requires
            self.wf(),
        ensures
            r == self@.max_gain,
            r >= 1,
    {
        self.max_gain
    }

    /// Whether `vertex` is in the table.
    pub fn contains(&self, vertex: u32) -> (r: bool)
        requires
            self.wf(),
            (vertex as int) < self@.n,
        ensures
            r == self@.contains(vertex),
    {
        let r = self.position[vertex as usize].is_some();
        proof {
            if r {
                let v = vertex as int;
                let b = choose|b: int|
                    0 <= b < self.gains@.len() && #[trigger] self.gains@[b] == entry_gain(self.position@[v]) && entry_slot(self.position@[v]) < self.lists@[b]@.len() && self.lists@[b]@[entry_slot(self.position@[v])] as int
                        == v;
                let p = entry_slot(self.position@[v]);
                assert(self@.lists[b][p] == vertex);
            }
            if self@.contains(vertex) {
                let (b, p) = choose|b: int, p: int|
                    0 <= b < self@.lists.len() && 0 <= p < self@.lists[b].len() && #[trigger] self@.lists[b][p] == vertex;
                assert(self.lists@[b]@[p] == vertex);
            }
        }
        r
    }

    /// The most recently stored vertex of the highest-gain bucket, with its gain.
    pub fn peek_max(&self) -> (r: Option<(u32, i32)>)
        requires
            self.wf(),
        ensures
            r == self@.peek(),
    {
        let k = self.gains.len();
        if k == 0 {
            None
        } else {
            proof {
                assert(self@.lists[k - 1].len() > 0);
            }
            let l = &self.lists[k - 1];
            Some((l[l.len() - 1], self.gains[k - 1]))
        }
    }

    /// True when no vertex is stored.
    pub fn is_empty(&self) -> (r: bool)
        requires
            self.wf(),
        ensures
            r == (self@.peek() is None),
    {
        self.gains.len() == 0
    }

    /// Take `vertex` out of its bucket, if present; the last entry of that
    /// bucket takes its place, and a bucket left empty disappears.
    pub fn remove(&mut self, vertex: u32)
        requires
            old(self).wf(),
            (vertex as int) < old(self)@.n,
        ensures
            final(self).wf(),
            removed(old(self)@, vertex, final(self)@),
            !final(self)@.contains(vertex),
    {
        let ghost old_v = self@;
        match self.position[vertex as usize] {
            None => {
                proof {
                    if old_v.contains(vertex) {
                        let (b, p) = choose|b: int, p: int|
                            0 <= b < old_v.lists.len() && 0 <= p < old_v.lists[b].len() && #[trigger] old_v.lists[b][p]
                                == vertex;
                        assert(self.lists@[b]@[p] == vertex);
                    }
                }
            },
            Some((g, p)) => {
                let b = self.lower_bound(g);
                proof {
                    let v = vertex as int;
                    let bb = choose|bb: int|
                        0 <= bb < self.gains@.len() && #[trigger] self.gains@[bb] == entry_gain(self.position@[v])
                            && entry_slot(self.position@[v]) < self.lists@[bb]@.len()
                            && self.lists@[bb]@[entry_slot(self.position@[v])] as int == v;
                    if bb > b {
                        assert(self.gains@[b as int] < self.gains@[bb]);
                    }
                    if bb < b {
                        assert(self.gains@[bb] < g);
                    }
                    assert(bb == b);
                    assert(old_v.lists[b as int][p as int] == vertex);
                }
                let ghost lists0 = self.lists@;
                let ghost gains0 = self.gains@;
                let ghost pos0 = self.position@;
                let last = self.lists[b].len() - 1;
                if p < last {
                    let sv = self.lists[b][last];
                    proof {
                        assert(old_v.lists[b as int][last as int] == sv);
                        assert((sv as int) < old_v.n);
                    }
                    self.position.set(sv as usize, Some((g, p)));
                }
                self.lists[b].swap_remove(p);
                self.position.set(vertex as usize, None);
                if self.lists[b].len() == 0 {
                    self.gains.remove(b);
                    self.lists.remove(b);
                }
                proof {
                    self.lemma_remove(old_v, gains0, lists0, pos0, b as int, p as int, vertex);
                }
            },
        }
    }

    proof fn lemma_remove(
        &self,
        old_v: GainView,
        gains0: Seq<i32>,
        lists0: Seq<Vec<u32>>,
        pos0: Seq<Option<(i32, usize)>>,
        b: int,
        p: int,
        vertex: u32,
    )
        requires
            old_v.wf(),
            old_v.max_gain == self.max_gain,
            old_v.n == pos0.len(),
            old_v.gains == gains0,
            old_v.lists == lists0.map_values(|l: Vec<u32>| l@),
            lists0.len() == gains0.len(),
            forall|c: int, q: int|
                0 <= c < lists0.len() && 0 <= q < lists0[c]@.len() ==> pos0[#[trigger] lists0[c]@[q] as int] == Some(
                    (gains0[c], q as usize),
                ),
            forall|v: int|
                0 <= v < pos0.len() && #[trigger] pos0[v] is Some ==> exists|c: int|
                    0 <= c < gains0.len() && #[trigger] gains0[c] == entry_gain(pos0[v]) && entry_slot(pos0[v])
                        < lists0[c]@.len() && lists0[c]@[entry_slot(pos0[v])] as int == v,
            0 <= b < gains0.len(),
            0 <= p < lists0[b]@.len(),
            lists0[b]@[p] == vertex,
            ({
                let l2 = swap_out(lists0[b]@, p);
                let last = lists0[b]@.len() - 1;
                let pos1 = if p < last {
                    pos0.update(lists0[b]@[last] as int, Some((gains0[b], p as usize)))
                } else {
                    pos0
                };
                &&& self.position@ == pos1.update(vertex as int, None)
                &&& if l2.len() == 0 {
                    self.gains@ == gains0.remove(b) && self.lists@.len() == lists0.len() - 1 && (forall|c: int|
                        0 <= c < b ==> #[trigger] self.lists@[c] == lists0[c]) && (forall|c: int|
                        b <= c < self.lists@.len() ==> #[trigger] self.lists@[c] == lists0[c + 1])
                } else {
                    self.gains@ == gains0 && self.lists@.len() == lists0.len() && self.lists@[b]@ == l2 && (forall|c: int|
                        0 <= c < lists0.len() && c != b ==> #[trigger] self.lists@[c] == lists0[c])
                }
            }),
        ensures
            self.wf(),
            removed(old_v, vertex, self@),
            !self@.contains(vertex),
    {
        let new_v = self@;
        let L = lists0[b]@;
        let last = L.len() - 1;
        let g = gains0[b];
        let l2 = swap_out(L, p);
        assert(forall|c: int| 0 <= c < lists0.len() ==> #[trigger] old_v.lists[c] == lists0[c]@);
        assert(old_v.lists[b] == L);
        assert(old_v.contains(vertex)) by {
            assert(old_v.lists[b][p] == vertex);
        }
        // entries of the shrunk bucket come from the old one
        assert forall|q: int| 0 <= q < l2.len() implies #[trigger] l2[q] == (if q == p {
            L[last]
        } else {
            L[q]
        }) && (if q == p {
            last != p
        } else {
            q != p && q != last
        }) by {}
        if L.len() == 1 {
            assert(p == 0 && last == 0);
            let back = |c: int| if c < b {
                c
            } else {
                c + 1
            };
            assert(new_v.lists =~= old_v.lists.remove(b)) by {
                assert forall|c: int| 0 <= c < new_v.lists.len() implies #[trigger] new_v.lists[c] == old_v.lists.remove(
                    b,
                )[c] by {
                    assert(self.lists@[c] == lists0[back(c)]);
                }
            }
            assert forall|c: int| 0 <= c < new_v.lists.len() implies #[trigger] new_v.lists[c] == old_v.lists[back(c)]
                && new_v.gains[c] == old_v.gains[back(c)] && back(c) != b by {
                assert(self.lists@[c] == lists0[back(c)]);
            }
            assert forall|i: int, j: int| 0 <= i < j < new_v.gains.len() implies new_v.gains[i] < new_v.gains[j] by {
                assert(new_v.gains[i] == old_v.gains[back(i)]);
                assert(new_v.gains[j] == old_v.gains[back(j)]);
            }
            assert forall|c: int| 0 <= c < new_v.gains.len() implies #[trigger] new_v.lists[c].len() > 0
                && -new_v.max_gain <= new_v.gains[c] <= new_v.max_gain by {
                assert(new_v.lists[c] == old_v.lists[back(c)]);
            }
            assert forall|c: int, q: int|
                0 <= c < new_v.lists.len() && 0 <= q < new_v.lists[c].len() implies (#[trigger] new_v.lists[c][q] as int)
                < new_v.n by {
                assert(new_v.lists[c] == old_v.lists[back(c)]);
            }
            assert forall|c: int, q: int, d: int, r: int|
                0 <= c < new_v.lists.len() && 0 <= q < new_v.lists[c].len() && 0 <= d < new_v.lists.len() && 0 <= r
                    < new_v.lists[d].len() && #[trigger] new_v.lists[c][q] == #[trigger] new_v.lists[d][r] implies c == d
                && q == r by {
                assert(new_v.lists[c] == old_v.lists[back(c)]);
                assert(new_v.lists[d] == old_v.lists[back(d)]);
                assert(old_v.lists[back(c)][q] == old_v.lists[back(d)][r]);
            }
            assert forall|c: int, q: int|
                0 <= c < self.lists@.len() && 0 <= q < self.lists@[c]@.len() implies self.position@[
                    #[trigger] self.lists@[c]@[q] as int] == Some((self.gains@[c], q as usize)) by {
                assert(self.lists@[c] == lists0[back(c)]);
                let x = lists0[back(c)]@[q];
                assert(old_v.lists[back(c)][q] == x);
                if x == vertex {
                    assert(old_v.lists[b][p] == vertex);
                }
                assert(pos0[x as int] == Some((gains0[back(c)], q as usize)));
            }
            assert forall|v: int|
                0 <= v < self.position@.len() && #[trigger] self.position@[v] is Some implies exists|c: int|
                    0 <= c < self.gains@.len() && #[trigger] self.gains@[c] == entry_gain(self.position@[v])
                        && entry_slot(self.position@[v]) < self.lists@[c]@.len()
                        && self.lists@[c]@[entry_slot(self.position@[v])] as int == v by {
                assert(v != vertex as int);
                assert(self.position@[v] == pos0[v]);
                let c0 = choose|c: int|
                    0 <= c < gains0.len() && #[trigger] gains0[c] == entry_gain(pos0[v]) && entry_slot(pos0[v])
                        < lists0[c]@.len() && lists0[c]@[entry_slot(pos0[v])] as int == v;
                if c0 == b {
                    assert(lists0[b]@[0] == vertex);
                    assert(false);
                }
                let c = if c0 < b {
                    c0
                } else {
                    c0 - 1
                };
                assert(back(c) == c0);
                assert(self.lists@[c] == lists0[c0]);
                assert(self.gains@[c] == gains0[c0]);
            }
            assert(!new_v.contains(vertex)) by {
                if new_v.contains(vertex) {
                    let (c, q) = choose|c: int, q: int|
                        0 <= c < new_v.lists.len() && 0 <= q < new_v.lists[c].len() && #[trigger] new_v.lists[c][q] == vertex;
                    assert(old_v.lists[back(c)][q] == vertex);
                    assert(old_v.lists[b][p] == vertex);
                }
            }
        } else {
            assert(l2.len() > 0);
            assert(new_v.lists =~= old_v.lists.update(b, l2)) by {
                assert forall|c: int| 0 <= c < new_v.lists.len() implies #[trigger] new_v.lists[c] == old_v.lists.update(
                    b,
                    l2,
                )[c] by {
                    if c != b {
                        assert(self.lists@[c] == lists0[c]);
                    }
                }
            }
            assert forall|c: int, q: int|
                0 <= c < new_v.lists.len() && 0 <= q < new_v.lists[c].len() implies (#[trigger] new_v.lists[c][q] as int)
                < new_v.n by {
                if c == b {
                    if q == p {
                        assert(old_v.lists[b][last] == L[last]);
                    } else {
                        assert(old_v.lists[b][q] == L[q]);
                    }
                }
            }
            // where an entry of the new view sits in the old one
            let oq = |c: int, q: int| if c == b && q == p {
                last
            } else {
                q
            };
            assert forall|c: int, q: int|
                0 <= c < new_v.lists.len() && 0 <= q < new_v.lists[c].len() implies #[trigger] new_v.lists[c][q]
                == old_v.lists[c][oq(c, q)] && 0 <= oq(c, q) < old_v.lists[c].len() && !(c == b && oq(c, q) == p) by {
                if c == b {
                    assert(l2[q] == (if q == p {
                        L[last]
                    } else {
                        L[q]
                    }));
                }
            }
            assert forall|c: int, q: int, d: int, r: int|
                0 <= c < new_v.lists.len() && 0 <= q < new_v.lists[c].len() && 0 <= d < new_v.lists.len() && 0 <= r
                    < new_v.lists[d].len() && #[trigger] new_v.lists[c][q] == #[trigger] new_v.lists[d][r] implies c == d
                && q == r by {
                assert(new_v.lists[c][q] == old_v.lists[c][oq(c, q)]);
                assert(new_v.lists[d][r] == old_v.lists[d][oq(d, r)]);
                assert(old_v.lists[c][oq(c, q)] == old_v.lists[d][oq(d, r)]);
            }
            assert forall|c: int| 0 <= c < new_v.gains.len() implies #[trigger] new_v.lists[c].len() > 0
                && -new_v.max_gain <= new_v.gains[c] <= new_v.max_gain by {
                if c != b {
                    assert(new_v.lists[c] == old_v.lists[c]);
                }
            }
            assert forall|c: int, q: int|
                0 <= c < self.lists@.len() && 0 <= q < self.lists@[c]@.len() implies self.position@[
                    #[trigger] self.lists@[c]@[q] as int] == Some((self.gains@[c], q as usize)) by {
                assert(new_v.lists[c][q] == self.lists@[c]@[q]);
                let x = self.lists@[c]@[q];
                assert(x == old_v.lists[c][oq(c, q)]);
                assert(old_v.lists[c][oq(c, q)] == lists0[c]@[oq(c, q)]);
                assert(pos0[x as int] == Some((gains0[c], oq(c, q) as usize)));
                if x == vertex {
                    assert(old_v.lists[b][p] == vertex);
                }
                if p < last && x == L[last] {
                    assert(old_v.lists[b][last] == L[last]);
                    assert(c == b && oq(c, q) == last);
                }
            }
            assert forall|v: int|
                0 <= v < self.position@.len() && #[trigger] self.position@[v] is Some implies exists|c: int|
                    0 <= c < self.gains@.len() && #[trigger] self.gains@[c] == entry_gain(self.position@[v])
                        && entry_slot(self.position@[v]) < self.lists@[c]@.len()
                        && self.lists@[c]@[entry_slot(self.position@[v])] as int == v by {
                assert(v != vertex as int);
                if p < last && v == L[last] as int {
                    assert(self.gains@[b] == g);
                    assert(self.lists@[b]@[p] == l2[p]);
                } else {
                    assert(self.position@[v] == pos0[v]);
                    let c0 = choose|c: int|
                        0 <= c < gains0.len() && #[trigger] gains0[c] == entry_gain(pos0[v]) && entry_slot(pos0[v])
                            < lists0[c]@.len() && lists0[c]@[entry_slot(pos0[v])] as int == v;
                    let q0 = entry_slot(pos0[v]);
                    assert(old_v.lists[c0][q0] as int == v);
                    if c0 == b {
                        assert(q0 != p) by {
                            if q0 == p {
                                assert(L[p] == vertex);
                            }
                        }
                        assert(q0 != last) by {
                            if q0 == last && p < last {
                                assert(L[last] as int == v);
                            }
                        }
                        assert(self.lists@[b]@[q0] == l2[q0]);
                    } else {
                        assert(self.lists@[c0] == lists0[c0]);
                    }
                    assert(self.gains@[c0] == gains0[c0]);
                }
            }
            assert(!new_v.contains(vertex)) by {
                if new_v.contains(vertex) {
                    let (c, q) = choose|c: int, q: int|
                        0 <= c < new_v.lists.len() && 0 <= q < new_v.lists[c].len() && #[trigger] new_v.lists[c][q] == vertex;
                    assert(new_v.lists[c][q] == old_v.lists[c][oq(c, q)]);
                    assert(old_v.lists[b][p] == vertex);
                }
            }
        }
    }

    /// Take out and return the vertex that `peek_max` names.
    pub fn pop_max(&mut self) -> (r: Option<(u32, i32)>)
        requires
            old(self).wf(),
        ensures
            final(self).wf(),
            r == old(self)@.peek(),
            match r {
                Some((v, g)) => removed(old(self)@, v, final(self)@),
                None => final(self)@ == old(self)@,
            },
    {
        match self.peek_max() {
            None => None,
            Some((v, g)) => {
                proof {
                    let k = self@.lists.len() - 1;
                    assert(self@.lists[k][self@.lists[k].len() - 1] == v);
                    assert((v as int) < self@.n);
                }
                self.remove(v);
                Some((v, g))
            },
        }
    }

    /// Store `vertex` again with gain `new_gain`: take it out (if present),
    /// then insert it.
    pub fn update(&mut self, vertex: u32, new_gain: i32)
        requires
            old(self).wf(),
            (vertex as int) < old(self)@.n,
        ensures
            final(self).wf(),
            exists|mid: GainView| removed(old(self)@, vertex, mid) && #[trigger] inserted(mid, vertex, new_gain, final(self)@),
    {
        self.remove(vertex);
        let ghost mid = self@;
        self.insert(vertex, new_gain);
        proof {
            assert(inserted(mid, vertex, new_gain, self@));
        }
    }
}

/// Storing `v` adds exactly `v` to the table.
pub proof fn lemma_inserted_contains(old: GainView, v: u32, gain: i32, new: GainView)
    requires
        old.wf(),
        inserted(old, v, gain, new),
    ensures
        forall|w: u32| #[trigger] new.contains(w) <==> (old.contains(w) || w == v),
{
    let g = clamp_gain(gain, old.max_gain);
    if exists|b: int| 0 <= b < old.gains.len() && #[trigger] old.gains[b] == g {
        let b = choose|b: int|
            0 <= b < old.gains.len() && #[trigger] old.gains[b] == g && new.gains == old.gains && new.lists
                == old.lists.update(b, old.lists[b].push(v));
        assert forall|w: u32| #[trigger] new.contains(w) <==> (old.contains(w) || w == v) by {
            if new.contains(w) {
                let (c, q) = choose|c: int, q: int| 0 <= c < new.lists.len() && 0 <= q < new.lists[c].len() && #[trigger] new.lists[c][q] == w;
                if !(c == b && q == old.lists[b].len()) {
                    assert(old.lists[c][q] == w);
                }
            }
            if old.contains(w) {
                let (c, q) = choose|c: int, q: int| 0 <= c < old.lists.len() && 0 <= q < old.lists[c].len() && #[trigger] old.lists[c][q] == w;
                assert(new.lists[c][q] == w);
            }
            if w == v {
                assert(new.lists[b][old.lists[b].len() as int] == v);
            }
        }
    } else {
        let i = choose|i: int|
            0 <= i <= old.gains.len() && (forall|j: int| 0 <= j < i ==> #[trigger] old.gains[j] < g) && (forall|j: int|
                i <= j < old.gains.len() ==> #[trigger] old.gains[j] > g) && new.gains == old.gains.insert(i, g)
                && new.lists == old.lists.insert(i, seq![v]);
        assert forall|w: u32| #[trigger] new.contains(w) <==> (old.contains(w) || w == v) by {
            if new.contains(w) {
                let (c, q) = choose|c: int, q: int| 0 <= c < new.lists.len() && 0 <= q < new.lists[c].len() && #[trigger] new.lists[c][q] == w;
                if c < i {
                    assert(old.lists[c][q] == w);
                } else if c > i {
                    assert(old.lists[c - 1][q] == w);
                }
            }
            if old.contains(w) {
                let (c, q) = choose|c: int, q: int| 0 <= c < old.lists.len() && 0 <= q < old.lists[c].len() && #[trigger] old.lists[c][q] == w;
                if c < i {
                    assert(new.lists[c][q] == w);
                } else {
                    assert(new.lists[c + 1][q] == w);
                }
            }
            if w == v {
                assert(new.lists[i][0] == v);
            }
        }
    }
}

/// Taking `v` out removes exactly `v` from the table.
pub proof fn lemma_removed_contains(old: GainView, v: u32, new: GainView)
    requires
        old.wf(),
        removed(old, v, new),
    ensures
        forall|w: u32| #[trigger] new.contains(w) <==> (old.contains(w) && w != v),
{
    if old.contains(v) {
        let (b, p) = choose|b: int, p: int|
            0 <= b < old.lists.len() && 0 <= p < old.lists[b].len() && #[trigger] old.lists[b][p] == v && if old.lists[b].len()
                == 1 {
                new.gains == old.gains.remove(b) && new.lists == old.lists.remove(b)
            } else {
                new.gains == old.gains && new.lists == old.lists.update(b, swap_out(old.lists[b], p))
            };
        let last = old.lists[b].len() - 1;
        assert forall|w: u32| #[trigger] new.contains(w) <==> (old.contains(w) && w != v) by {
            if new.contains(w) {
                let (c, q) = choose|c: int, q: int| 0 <= c < new.lists.len() && 0 <= q < new.lists[c].len() && #[trigger] new.lists[c][q] == w;
                if old.lists[b].len() == 1 {
                    let oc = if c < b {
                        c
                    } else {
                        c + 1
                    };
                    assert(old.lists[oc][q] == w);
                    assert(oc != b);
                } else if c == b {
                    let oq = if q == p {
                        last
                    } else {
                        q
                    };
                    assert(old.lists[b][oq] == w);
                    assert(oq != p);
                } else {
                    assert(old.lists[c][q] == w);
                }
            }
            if old.contains(w) && w != v {
                let (c, q) = choose|c: int, q: int| 0 <= c < old.lists.len() && 0 <= q < old.lists[c].len() && #[trigger] old.lists[c][q] == w;
                if old.lists[b].len() == 1 {
                    assert(c != b);
                    let nc = if c < b {
                        c
                    } else {
                        c - 1
                    };
                    assert(new.lists[nc][q] == w);
                } else if c == b {
                    assert(q != p);
                    let nq = if q == last {
                        p
                    } else {
                        q
                    };
                    assert(new.lists[b][nq] == w);
                } else {
                    assert(new.lists[c][q] == w);
                }
            }
        }
    }
}


} // verus!
