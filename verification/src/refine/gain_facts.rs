use vstd::prelude::*;

use crate::refine::gain::{clamp_gain, inserted, removed, swap_out, GainView};

verus! {

/// Vertex `v` sits in the bucket of gain `gain`.
pub open spec fn stored_with(t: GainView, v: u32, gain: i32) -> bool {
    exists|b: int, p: int|
        0 <= b < t.lists.len() && 0 <= p < t.lists[b].len() && #[trigger] t.lists[b][p] == v && t.gains[b] == gain
}

/// A stored vertex has one gain, at most the top one, and the top entry is
/// stored with its gain.
pub proof fn lemma_holds_facts(t: GainView, u: u32, gain: i32)
    requires
        t.wf(),
        stored_with(t, u, gain),
    ensures
        t.contains(u),
        t.peek() matches Some(top) && gain <= top.1 && stored_with(t, top.0, top.1),
        forall|g2: i32| #[trigger] stored_with(t, u, g2) ==> g2 == gain,
{
    let (b, p) = choose|b: int, p: int|
        0 <= b < t.lists.len() && 0 <= p < t.lists[b].len() && #[trigger] t.lists[b][p] == u && t.gains[b] == gain;
    let kl = t.lists.len() - 1;
    assert(t.lists[kl].len() > 0);
    assert(t.lists[kl][t.lists[kl].len() - 1] == t.peek().unwrap().0);
    if b < kl {
        assert(t.gains[b] < t.gains[kl]);
    }
    assert forall|g2: i32| #[trigger] stored_with(t, u, g2) implies g2 == gain by {
        let (c, q) = choose|c: int, q: int|
            0 <= c < t.lists.len() && 0 <= q < t.lists[c].len() && #[trigger] t.lists[c][q] == u && t.gains[c] == g2;
        assert(t.lists[b][p] == t.lists[c][q]);
    }
}

/// Taking `v` out keeps every other vertex with its gain.
pub proof fn lemma_removed_holds(old: GainView, v: u32, new: GainView, u: u32, gain: i32)
    requires
        old.wf(),
        removed(old, v, new),
        stored_with(old, u, gain),
        u != v,
    ensures
        stored_with(new, u, gain),
{
    let (c, q) = choose|c: int, q: int|
        0 <= c < old.lists.len() && 0 <= q < old.lists[c].len() && #[trigger] old.lists[c][q] == u && old.gains[c] == gain;
    if old.contains(v) {
        let (b, p) = choose|b: int, p: int|
            0 <= b < old.lists.len() && 0 <= p < old.lists[b].len() && #[trigger] old.lists[b][p] == v && if old.lists[b].len()
                == 1 {
                new.gains == old.gains.remove(b) && new.lists == old.lists.remove(b)
            } else {
                new.gains == old.gains && new.lists == old.lists.update(b, swap_out(old.lists[b], p))
            };
        let last = old.lists[b].len() - 1;
        if old.lists[b].len() == 1 {
            assert(c != b);
            let nc = if c < b {
                c
            } else {
                c - 1
            };
            assert(new.lists[nc][q] == u && new.gains[nc] == gain);
        } else if c == b {
            assert(q != p);
            let nq = if q == last {
                p
            } else {
                q
            };
            assert(new.lists[b][nq] == u);
        } else {
            assert(new.lists[c][q] == u);
        }
    }
}

/// Storing `v` holds it with its clamped gain and keeps every vertex already
/// stored with its gain.
pub proof fn lemma_inserted_holds(old: GainView, v: u32, gain: i32, new: GainView)
    requires
        old.wf(),
        inserted(old, v, gain, new),
    ensures
        stored_with(new, v, clamp_gain(gain, old.max_gain)),
        forall|u: u32, ug: i32| #[trigger] stored_with(old, u, ug) ==> stored_with(new, u, ug),
{
    let g = clamp_gain(gain, old.max_gain);
    if exists|b: int| 0 <= b < old.gains.len() && #[trigger] old.gains[b] == g {
        let b = choose|b: int|
            0 <= b < old.gains.len() && #[trigger] old.gains[b] == g && new.gains == old.gains && new.lists
                == old.lists.update(b, old.lists[b].push(v));
        assert(new.lists[b][old.lists[b].len() as int] == v);
        assert forall|u: u32, ug: i32| #[trigger] stored_with(old, u, ug) implies stored_with(new, u, ug) by {
            let (c, q) = choose|c: int, q: int|
                0 <= c < old.lists.len() && 0 <= q < old.lists[c].len() && #[trigger] old.lists[c][q] == u && old.gains[c]
                    == ug;
            assert(new.lists[c][q] == u);
        }
    } else {
        let i = choose|i: int|
            0 <= i <= old.gains.len() && (forall|j: int| 0 <= j < i ==> #[trigger] old.gains[j] < g) && (forall|j: int|
                i <= j < old.gains.len() ==> #[trigger] old.gains[j] > g) && new.gains == old.gains.insert(i, g)
                && new.lists == old.lists.insert(i, seq![v]);
        assert(new.lists[i][0] == v);
        assert forall|u: u32, ug: i32| #[trigger] stored_with(old, u, ug) implies stored_with(new, u, ug) by {
            let (c, q) = choose|c: int, q: int|
                0 <= c < old.lists.len() && 0 <= q < old.lists[c].len() && #[trigger] old.lists[c][q] == u && old.gains[c]
                    == ug;
            if c < i {
                assert(new.lists[c][q] == u);
            } else {
                assert(new.lists[c + 1][q] == u);
            }
        }
    }
}


} // verus!
