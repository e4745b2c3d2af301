use vstd::prelude::*;

verus! {

/// Strictly increasing sequence.
pub open spec fn strictly_increasing(s: Seq<u32>) -> bool {
    forall|i: int, j: int| 0 <= i < j < s.len() ==> #[trigger] s[i] < #[trigger] s[j]
}

/// Merge two strictly increasing sequences with no common element.
fn merge_distinct(a: &[u32], b: &[u32]) -> (r: Vec<u32>)
    requires
        strictly_increasing(a@),
        strictly_increasing(b@),
        forall|i: int, j: int| 0 <= i < a@.len() && 0 <= j < b@.len() ==> a@[i] != b@[j],
    ensures
        strictly_increasing(r@),
        r@.len() == a@.len() + b@.len(),
        forall|x: u32| r@.contains(x) <==> (a@.contains(x) || b@.contains(x)),
{
    let mut r: Vec<u32> = Vec::new();
    let mut i: usize = 0;
    let mut j: usize = 0;
    while i < a.len() || j < b.len()
        invariant
            strictly_increasing(a@),
            strictly_increasing(b@),
            forall|x: int, y: int| 0 <= x < a@.len() && 0 <= y < b@.len() ==> a@[x] != b@[y],
            0 <= i <= a@.len(),
            0 <= j <= b@.len(),
            r@.len() == i + j,
            strictly_increasing(r@),
            r@.len() > 0 ==> (forall|x: int| i <= x < a@.len() ==> r@.last() < a@[x]),
            r@.len() > 0 ==> (forall|y: int| j <= y < b@.len() ==> r@.last() < b@[y]),
            forall|x: u32| r@.contains(x) <==> (a@.subrange(0, i as int).contains(x) || b@.subrange(0, j as int).contains(x)),
        decreases a@.len() + b@.len() - i - j,
    {
        let take_a = if i < a.len() && j < b.len() {
            a[i] < b[j]
        } else {
            i < a.len()
        };
        let ghost old_r = r@;
        if take_a {
            r.push(a[i]);
            proof {
                assert forall|x: u32| r@.contains(x) <==> (a@.subrange(0, i + 1).contains(x) || b@.subrange(0, j as int).contains(x)) by {
                    if r@.contains(x) {
                        let t = choose|t: int| 0 <= t < r@.len() && #[trigger] r@[t] == x;
                        if t < old_r.len() {
                            assert(old_r.contains(x));
                            if a@.subrange(0, i as int).contains(x) {
                                let s = choose|s: int| 0 <= s < i && #[trigger] a@.subrange(0, i as int)[s] == x;
                                assert(a@.subrange(0, i + 1)[s] == x);
                            }
                        } else {
                            assert(a@.subrange(0, i + 1)[i as int] == x);
                        }
                    }
                    if a@.subrange(0, i + 1).contains(x) {
                        let s = choose|s: int| 0 <= s < i + 1 && #[trigger] a@.subrange(0, i + 1)[s] == x;
                        if s < i {
                            assert(a@.subrange(0, i as int)[s] == x);
                            assert(old_r.contains(x));
                            let t = choose|t: int| 0 <= t < old_r.len() && #[trigger] old_r[t] == x;
                            assert(r@[t] == x);
                        } else {
                            assert(r@[r@.len() - 1] == x);
                        }
                    }
                    if b@.subrange(0, j as int).contains(x) {
                        assert(old_r.contains(x));
                        let t = choose|t: int| 0 <= t < old_r.len() && #[trigger] old_r[t] == x;
                        assert(r@[t] == x);
                    }
                }
                if j < b@.len() {
                    assert(a@[i as int] < b@[j as int]);
                }
            }
            i += 1;
        } else {
            r.push(b[j]);
            proof {
                assert forall|x: u32| r@.contains(x) <==> (a@.subrange(0, i as int).contains(x) || b@.subrange(0, j + 1).contains(x)) by {
                    if r@.contains(x) {
                        let t = choose|t: int| 0 <= t < r@.len() && #[trigger] r@[t] == x;
                        if t < old_r.len() {
                            assert(old_r.contains(x));
                            if b@.subrange(0, j as int).contains(x) {
                                let s = choose|s: int| 0 <= s < j && #[trigger] b@.subrange(0, j as int)[s] == x;
                                assert(b@.subrange(0, j + 1)[s] == x);
                            }
                        } else {
                            assert(b@.subrange(0, j + 1)[j as int] == x);
                        }
                    }
                    if b@.subrange(0, j + 1).contains(x) {
                        let s = choose|s: int| 0 <= s < j + 1 && #[trigger] b@.subrange(0, j + 1)[s] == x;
                        if s < j {
                            assert(b@.subrange(0, j as int)[s] == x);
                            assert(old_r.contains(x));
                            let t = choose|t: int| 0 <= t < old_r.len() && #[trigger] old_r[t] == x;
                            assert(r@[t] == x);
                        } else {
                            assert(r@[r@.len() - 1] == x);
                        }
                    }
                    if a@.subrange(0, i as int).contains(x) {
                        assert(old_r.contains(x));
                        let t = choose|t: int| 0 <= t < old_r.len() && #[trigger] old_r[t] == x;
                        assert(r@[t] == x);
                    }
                }
                if i < a@.len() {
                    assert(b@[j as int] < a@[i as int]) by {
                        assert(a@[i as int] != b@[j as int]);
                    }
                }
            }
            j += 1;
        }
    }
    proof {
        assert(a@.subrange(0, a@.len() as int) =~= a@);
        assert(b@.subrange(0, b@.len() as int) =~= b@);
    }
    r
}

/// Sort distinct values into strictly increasing order.
pub fn sort_distinct(s: &[u32]) -> (r: Vec<u32>)
    requires
        s@.no_duplicates(),
    ensures
        strictly_increasing(r@),
        r@.len() == s@.len(),
        forall|x: u32| r@.contains(x) <==> s@.contains(x),
    decreases s@.len(),
{
    if s.len() <= 1 {
        let mut r: Vec<u32> = Vec::new();
        if s.len() == 1 {
            r.push(s[0]);
        }
        proof {
            assert(r@ =~= s@);
        }
        return r;
    }
    let mid = s.len() / 2;
    let left = &s[0..mid];
    let right = &s[mid..s.len()];
    proof {
        assert(left@ =~= s@.subrange(0, mid as int));
        assert(right@ =~= s@.subrange(mid as int, s@.len() as int));
        assert forall|x: int, y: int| 0 <= x < y < left@.len() implies left@[x] != left@[y] by {
            assert(left@[x] == s@[x] && left@[y] == s@[y]);
        }
        assert forall|x: int, y: int| 0 <= x < y < right@.len() implies right@[x] != right@[y] by {
            assert(right@[x] == s@[mid + x] && right@[y] == s@[mid + y]);
        }
    }
    let l = sort_distinct(left);
    let r = sort_distinct(right);
    proof {
        assert forall|x: int, y: int| 0 <= x < l@.len() && 0 <= y < r@.len() implies l@[x] != r@[y] by {
            assert(l@.contains(l@[x]));
            assert(r@.contains(r@[y]));
            if l@[x] == r@[y] {
                let p = choose|p: int| 0 <= p < left@.len() && #[trigger] left@[p] == l@[x];
                let q = choose|q: int| 0 <= q < right@.len() && #[trigger] right@[q] == r@[y];
                assert(s@[p] == s@[mid + q]);
            }
        }
    }
    let out = merge_distinct(l.as_slice(), r.as_slice());
    proof {
        assert forall|x: u32| out@.contains(x) <==> s@.contains(x) by {
            if s@.contains(x) {
                let p = choose|p: int| 0 <= p < s@.len() && #[trigger] s@[p] == x;
                if p < mid {
                    assert(left@[p] == x);
                } else {
                    assert(right@[p - mid] == x);
                }
            }
            if left@.contains(x) {
                let p = choose|p: int| 0 <= p < left@.len() && #[trigger] left@[p] == x;
                assert(s@[p] == x);
            }
            if right@.contains(x) {
                let p = choose|p: int| 0 <= p < right@.len() && #[trigger] right@[p] == x;
                assert(s@[mid + p] == x);
            }
        }
    }
    out
}

/// Item `a` comes before item `b` when its key is smaller, or the keys tie and
/// its index is smaller.
pub open spec fn key_before(keys: Seq<u64>, a: usize, b: usize) -> bool {
    keys[a as int] < keys[b as int] || (keys[a as int] == keys[b as int] && a < b)
}

/// Items in strictly increasing (key, index) order.
pub open spec fn key_sorted(keys: Seq<u64>, s: Seq<usize>) -> bool {
    forall|i: int, j: int| 0 <= i < j < s.len() ==> key_before(keys, #[trigger] s[i], #[trigger] s[j])
}

/// The vertices `0..n` listed in the order that `key_sorted` asks for.
pub open spec fn sorted_order(keys: Seq<u64>, n: int) -> Seq<usize> {
    choose|o: Seq<usize>| crate::random::is_permutation(o, n) && key_sorted(keys, o)
}

/// A key-sorted listing of `0..n` is `sorted_order`.
pub proof fn lemma_sorted_order(keys: Seq<u64>, n: int, o: Seq<usize>)
    requires
        crate::random::is_permutation(o, n),
        key_sorted(keys, o),
    ensures
        o == sorted_order(keys, n),
{
    let o2 = sorted_order(keys, n);
    assert(crate::random::is_permutation(o2, n) && key_sorted(keys, o2));
    assert forall|x: usize| o.contains(x) <==> o2.contains(x) by {
        if o.contains(x) {
            let t = choose|t: int| 0 <= t < o.len() && o[t] == x;
            assert((o[t] as int) < n);
            assert(o2.contains(x));
        }
        if o2.contains(x) {
            let t = choose|t: int| 0 <= t < o2.len() && o2[t] == x;
            assert((o2[t] as int) < n);
            assert(o.contains(x));
        }
    }
    lemma_key_sorted_unique(keys, o, o2);
}

/// Two lists of the same items, each in strictly increasing (key, index)
/// order, are the same list: the order that `key_sorted` asks for is unique.
pub proof fn lemma_key_sorted_unique(keys: Seq<u64>, s1: Seq<usize>, s2: Seq<usize>)
    requires
        key_sorted(keys, s1),
        key_sorted(keys, s2),
        s1.len() == s2.len(),
        forall|x: usize| s1.contains(x) <==> s2.contains(x),
    ensures
        s1 == s2,
    decreases s1.len(),
{
    if s1.len() > 0 {
        assert(s1.contains(s1[0]));
        assert(s2.contains(s2[0]));
        let j = choose|j: int| 0 <= j < s1.len() && s1[j] == s2[0];
        let i = choose|i: int| 0 <= i < s2.len() && s2[i] == s1[0];
        if j > 0 && i > 0 {
            assert(key_before(keys, s1[0], s1[j]));
            assert(key_before(keys, s2[0], s2[i]));
        }
        assert(s1[0] == s2[0]);
        let t1 = s1.drop_first();
        let t2 = s2.drop_first();
        assert forall|x: usize| t1.contains(x) <==> t2.contains(x) by {
            if t1.contains(x) {
                let a = choose|a: int| 0 <= a < t1.len() && t1[a] == x;
                assert(s1[a + 1] == x);
                assert(key_before(keys, s1[0], s1[a + 1]));
                assert(s1.contains(x));
                let b = choose|b: int| 0 <= b < s2.len() && s2[b] == x;
                assert(b != 0);
                assert(t2[b - 1] == x);
            }
            if t2.contains(x) {
                let a = choose|a: int| 0 <= a < t2.len() && t2[a] == x;
                assert(s2[a + 1] == x);
                assert(key_before(keys, s2[0], s2[a + 1]));
                assert(s2.contains(x));
                let b = choose|b: int| 0 <= b < s1.len() && s1[b] == x;
                assert(b != 0);
                assert(t1[b - 1] == x);
            }
        }
        assert forall|a: int, b: int| 0 <= a < b < t1.len() implies key_before(keys, #[trigger] t1[a], #[trigger] t1[b]) by {
            assert(t1[a] == s1[a + 1] && t1[b] == s1[b + 1]);
        }
        assert forall|a: int, b: int| 0 <= a < b < t2.len() implies key_before(keys, #[trigger] t2[a], #[trigger] t2[b]) by {
            assert(t2[a] == s2[a + 1] && t2[b] == s2[b + 1]);
        }
        lemma_key_sorted_unique(keys, t1, t2);
        assert(s1 =~= s2) by {
            assert forall|a: int| 0 <= a < s1.len() implies s1[a] == s2[a] by {
                if a > 0 {
                    assert(s1[a] == t1[a - 1] && s2[a] == t2[a - 1]);
                }
            }
        }
    } else {
        assert(s1 =~= s2);
    }
}

/// Merge two item lists sorted by (key, index) that share no item.
fn merge_by_key(a: &[usize], b: &[usize], keys: &[u64]) -> (r: Vec<usize>)
    requires
        key_sorted(keys@, a@),
        key_sorted(keys@, b@),
        forall|x: int| 0 <= x < a@.len() ==> (#[trigger] a@[x] as int) < keys@.len(),
        forall|y: int| 0 <= y < b@.len() ==> (#[trigger] b@[y] as int) < keys@.len(),
        forall|x: int, y: int| 0 <= x < a@.len() && 0 <= y < b@.len() ==> a@[x] != b@[y],
    ensures
        key_sorted(keys@, r@),
        r@.len() == a@.len() + b@.len(),
        forall|x: usize| r@.contains(x) <==> (a@.contains(x) || b@.contains(x)),
{
    let mut r: Vec<usize> = Vec::new();
    let mut i: usize = 0;
    let mut j: usize = 0;
    while i < a.len() || j < b.len()
        invariant
            key_sorted(keys@, a@),
            key_sorted(keys@, b@),
            forall|x: int| 0 <= x < a@.len() ==> (#[trigger] a@[x] as int) < keys@.len(),
            forall|y: int| 0 <= y < b@.len() ==> (#[trigger] b@[y] as int) < keys@.len(),
            forall|x: int, y: int| 0 <= x < a@.len() && 0 <= y < b@.len() ==> a@[x] != b@[y],
            0 <= i <= a@.len(),
            0 <= j <= b@.len(),
            r@.len() == i + j,
            key_sorted(keys@, r@),
            r@.len() > 0 ==> (forall|x: int| i <= x < a@.len() ==> key_before(keys@, r@.last(), #[trigger] a@[x])),
            r@.len() > 0 ==> (forall|y: int| j <= y < b@.len() ==> key_before(keys@, r@.last(), #[trigger] b@[y])),
            forall|x: usize|
                r@.contains(x) <==> (a@.subrange(0, i as int).contains(x) || b@.subrange(0, j as int).contains(x)),
        decreases a@.len() + b@.len() - i - j,
    {
        let take_a = if i < a.len() && j < b.len() {
            let ka = keys[a[i]];
            let kb = keys[b[j]];
            ka < kb || (ka == kb && a[i] < b[j])
        } else {
            i < a.len()
        };
        let ghost old_r = r@;
        if take_a {
            r.push(a[i]);
            proof {
                assert forall|x: usize|
                    r@.contains(x) <==> (a@.subrange(0, i + 1).contains(x) || b@.subrange(0, j as int).contains(x)) by {
                    if r@.contains(x) {
                        let t = choose|t: int| 0 <= t < r@.len() && #[trigger] r@[t] == x;
                        if t < old_r.len() {
                            assert(old_r.contains(x));
                            if a@.subrange(0, i as int).contains(x) {
                                let s = choose|s: int| 0 <= s < i && #[trigger] a@.subrange(0, i as int)[s] == x;
                                assert(a@.subrange(0, i + 1)[s] == x);
                            }
                        } else {
                            assert(a@.subrange(0, i + 1)[i as int] == x);
                        }
                    }
                    if a@.subrange(0, i + 1).contains(x) {
                        let s = choose|s: int| 0 <= s < i + 1 && #[trigger] a@.subrange(0, i + 1)[s] == x;
                        if s < i {
                            assert(a@.subrange(0, i as int)[s] == x);
                            assert(old_r.contains(x));
                            let t = choose|t: int| 0 <= t < old_r.len() && #[trigger] old_r[t] == x;
                            assert(r@[t] == x);
                        } else {
                            assert(r@[r@.len() - 1] == x);
                        }
                    }
                    if b@.subrange(0, j as int).contains(x) {
                        assert(old_r.contains(x));
                        let t = choose|t: int| 0 <= t < old_r.len() && #[trigger] old_r[t] == x;
                        assert(r@[t] == x);
                    }
                }
                if j < b@.len() {
                    assert(key_before(keys@, a@[i as int], b@[j as int]));
                    assert forall|y: int| j <= y < b@.len() implies key_before(keys@, r@.last(), #[trigger] b@[y]) by {
                        if y > j {
                            assert(key_before(keys@, b@[j as int], b@[y]));
                        }
                    }
                }
                assert forall|x: int| i + 1 <= x < a@.len() implies key_before(keys@, r@.last(), #[trigger] a@[x]) by {
                    assert(key_before(keys@, a@[i as int], a@[x]));
                }
                assert forall|p: int, q: int| 0 <= p < q < r@.len() implies key_before(keys@, #[trigger] r@[p], #[trigger] r@[q]) by {
                    if q == r@.len() - 1 && p < old_r.len() {
                        assert(key_before(keys@, old_r.last(), a@[i as int]));
                        if p < old_r.len() - 1 {
                            assert(key_before(keys@, old_r[p], old_r.last()));
                        }
                    }
                }
            }
            i += 1;
        } else {
            r.push(b[j]);
            proof {
                assert forall|x: usize|
                    r@.contains(x) <==> (a@.subrange(0, i as int).contains(x) || b@.subrange(0, j + 1).contains(x)) by {
                    if r@.contains(x) {
                        let t = choose|t: int| 0 <= t < r@.len() && #[trigger] r@[t] == x;
                        if t < old_r.len() {
                            assert(old_r.contains(x));
                            if b@.subrange(0, j as int).contains(x) {
                                let s = choose|s: int| 0 <= s < j && #[trigger] b@.subrange(0, j as int)[s] == x;
                                assert(b@.subrange(0, j + 1)[s] == x);
                            }
                        } else {
                            assert(b@.subrange(0, j + 1)[j as int] == x);
                        }
                    }
                    if b@.subrange(0, j + 1).contains(x) {
                        let s = choose|s: int| 0 <= s < j + 1 && #[trigger] b@.subrange(0, j + 1)[s] == x;
                        if s < j {
                            assert(b@.subrange(0, j as int)[s] == x);
                            assert(old_r.contains(x));
                            let t = choose|t: int| 0 <= t < old_r.len() && #[trigger] old_r[t] == x;
                            assert(r@[t] == x);
                        } else {
                            assert(r@[r@.len() - 1] == x);
                        }
                    }
                    if a@.subrange(0, i as int).contains(x) {
                        assert(old_r.contains(x));
                        let t = choose|t: int| 0 <= t < old_r.len() && #[trigger] old_r[t] == x;
                        assert(r@[t] == x);
                    }
                }
                if i < a@.len() {
                    assert(key_before(keys@, b@[j as int], a@[i as int])) by {
                        assert(a@[i as int] != b@[j as int]);
                    }
                    assert forall|x: int| i <= x < a@.len() implies key_before(keys@, r@.last(), #[trigger] a@[x]) by {
                        if x > i {
                            assert(key_before(keys@, a@[i as int], a@[x]));
                        }
                    }
                }
                assert forall|y: int| j + 1 <= y < b@.len() implies key_before(keys@, r@.last(), #[trigger] b@[y]) by {
                    assert(key_before(keys@, b@[j as int], b@[y]));
                }
                assert forall|p: int, q: int| 0 <= p < q < r@.len() implies key_before(keys@, #[trigger] r@[p], #[trigger] r@[q]) by {
                    if q == r@.len() - 1 && p < old_r.len() {
                        assert(key_before(keys@, old_r.last(), b@[j as int]));
                        if p < old_r.len() - 1 {
                            assert(key_before(keys@, old_r[p], old_r.last()));
                        }
                    }
                }
            }
            j += 1;
        }
    }
    proof {
        assert(a@.subrange(0, a@.len() as int) =~= a@);
        assert(b@.subrange(0, b@.len() as int) =~= b@);
    }
    r
}

/// Sort distinct items by (key, index).
fn sort_items_by_key(s: &[usize], keys: &[u64]) -> (r: Vec<usize>)
    requires
        s@.no_duplicates(),
        forall|x: int| 0 <= x < s@.len() ==> (#[trigger] s@[x] as int) < keys@.len(),
    ensures
        key_sorted(keys@, r@),
        r@.len() == s@.len(),
        forall|x: usize| r@.contains(x) <==> s@.contains(x),
    decreases s@.len(),
{
    if s.len() <= 1 {
        let mut r: Vec<usize> = Vec::new();
        if s.len() == 1 {
            r.push(s[0]);
        }
        proof {
            assert(r@ =~= s@);
        }
        return r;
    }
    let mid = s.len() / 2;
    let left = &s[0..mid];
    let right = &s[mid..s.len()];
    proof {
        assert(left@ =~= s@.subrange(0, mid as int));
        assert(right@ =~= s@.subrange(mid as int, s@.len() as int));
        assert forall|x: int, y: int| 0 <= x < y < left@.len() implies left@[x] != left@[y] by {
            assert(left@[x] == s@[x] && left@[y] == s@[y]);
        }
        assert forall|x: int, y: int| 0 <= x < y < right@.len() implies right@[x] != right@[y] by {
            assert(right@[x] == s@[mid + x] && right@[y] == s@[mid + y]);
        }
        assert forall|x: int| 0 <= x < left@.len() implies (#[trigger] left@[x] as int) < keys@.len() by {
            assert(left@[x] == s@[x]);
        }
        assert forall|x: int| 0 <= x < right@.len() implies (#[trigger] right@[x] as int) < keys@.len() by {
            assert(right@[x] == s@[mid + x]);
        }
    }
    let l = sort_items_by_key(left, keys);
    let r = sort_items_by_key(right, keys);
    proof {
        assert forall|x: int| 0 <= x < l@.len() implies (#[trigger] l@[x] as int) < keys@.len() by {
            assert(l@.contains(l@[x]));
            let p = choose|p: int| 0 <= p < left@.len() && #[trigger] left@[p] == l@[x];
        }
        assert forall|x: int| 0 <= x < r@.len() implies (#[trigger] r@[x] as int) < keys@.len() by {
            assert(r@.contains(r@[x]));
            let p = choose|p: int| 0 <= p < right@.len() && #[trigger] right@[p] == r@[x];
        }
        assert forall|x: int, y: int| 0 <= x < l@.len() && 0 <= y < r@.len() implies l@[x] != r@[y] by {
            assert(l@.contains(l@[x]));
            assert(r@.contains(r@[y]));
            if l@[x] == r@[y] {
                let p = choose|p: int| 0 <= p < left@.len() && #[trigger] left@[p] == l@[x];
                let q = choose|q: int| 0 <= q < right@.len() && #[trigger] right@[q] == r@[y];
                assert(s@[p] == s@[mid + q]);
            }
        }
    }
    let out = merge_by_key(l.as_slice(), r.as_slice(), keys);
    proof {
        assert forall|x: usize| out@.contains(x) <==> s@.contains(x) by {
            if s@.contains(x) {
                let p = choose|p: int| 0 <= p < s@.len() && #[trigger] s@[p] == x;
                if p < mid {
                    assert(left@[p] == x);
                } else {
                    assert(right@[p - mid] == x);
                }
            }
            if left@.contains(x) {
                let p = choose|p: int| 0 <= p < left@.len() && #[trigger] left@[p] == x;
                assert(s@[p] == x);
            }
            if right@.contains(x) {
                let p = choose|p: int| 0 <= p < right@.len() && #[trigger] right@[p] == x;
                assert(s@[mid + p] == x);
            }
        }
    }
    out
}

/// The indices `0..keys.len()` in increasing (key, index) order: a stable
/// sort of the indices by key.
pub fn order_by_key(keys: &[u64]) -> (r: Vec<usize>)
    ensures
        r@.len() == keys@.len(),
        key_sorted(keys@, r@),
        forall|t: int| 0 <= t < r@.len() ==> (#[trigger] r@[t] as int) < keys@.len(),
        forall|v: usize| (v as int) < keys@.len() ==> #[trigger] r@.contains(v),
{
    let mut ids: Vec<usize> = Vec::new();
    let mut v: usize = 0;
    while v < keys.len()
        invariant
            0 <= v <= keys@.len(),
            ids@.len() == v,
            forall|t: int| 0 <= t < v ==> #[trigger] ids@[t] == t,
        decreases keys@.len() - v,
    {
        ids.push(v);
        v += 1;
    }
    proof {
        assert forall|x: int, y: int| 0 <= x < y < ids@.len() implies ids@[x] != ids@[y] by {}
    }
    let r = sort_items_by_key(ids.as_slice(), keys);
    proof {
        assert forall|t: int| 0 <= t < r@.len() implies (#[trigger] r@[t] as int) < keys@.len() by {
            assert(r@.contains(r@[t]));
            let p = choose|p: int| 0 <= p < ids@.len() && #[trigger] ids@[p] == r@[t];
        }
        assert forall|w: usize| (w as int) < keys@.len() implies #[trigger] r@.contains(w) by {
            assert(ids@[w as int] == w);
            assert(ids@.contains(w));
        }
    }
    r
}

/// `x` clamped to the range of `i64`.
pub open spec fn clamp_i64(x: int) -> i64 {
    if x > i64::MAX {
        i64::MAX
    } else if x < i64::MIN {
        i64::MIN
    } else {
        x as i64
    }
}

/// Addition that sticks at the bounds of `i64` instead of overflowing.
pub fn sat_add(a: i64, b: i64) -> (r: i64)
    ensures
        r == clamp_i64(a + b),
{
    match a.checked_add(b) {
        Some(s) => s,
        None => {
            if b > 0 {
                i64::MAX
            } else {
                i64::MIN
            }
        },
    }
}

/// Multiplication that sticks at the bounds of `i64` instead of overflowing.
pub fn sat_mul(a: i64, b: i64) -> (r: i64)
    ensures
        r == clamp_i64(a * b),
{
    match a.checked_mul(b) {
        Some(s) => s,
        None => {
            proof {
                if a * b <= i64::MAX && a * b >= i64::MIN {
                    assert(false);
                }
                if (a > 0 && b > 0) || (a < 0 && b < 0) {
                    assert(a * b > 0) by (nonlinear_arith)
                        requires
                            (a > 0 && b > 0) || (a < 0 && b < 0),
                    ;
                } else {
                    assert(a * b <= 0) by (nonlinear_arith)
                        requires
                            !((a > 0 && b > 0) || (a < 0 && b < 0)),
                    ;
                }
            }
            if (a > 0) == (b > 0) {
                i64::MAX
            } else {
                i64::MIN
            }
        },
    }
}

} // verus!
