use vstd::prelude::*;

use rand::{Rng, SeedableRng};
use rand_pcg::Lcg128Xsl64;

verus! {

/// The PCG generator type of `rand_pcg`, carried through opaquely.
#[verifier::external_type_specification]
#[verifier::external_body]
pub struct ExLcg128Xsl64(Lcg128Xsl64);

/// A PCG generator (`rand_pcg::Pcg64`, the type `Lcg128Xsl64`) seeded through
/// `rand::SeedableRng::seed_from_u64`. Nothing is stated of its internal state.
#[verifier::external_body]
pub(crate) fn seeded_rng(seed: u64) -> (r: Lcg128Xsl64) {
    Lcg128Xsl64::seed_from_u64(seed)
}

/// One draw of `rand::Rng::gen_range` over the inclusive range `0..=hi` of
/// `usize`, which is never empty: the value lies in `0..=hi`; which one is
/// left open. (For `usize` the crate draws `0..n` as `0..=n - 1`, so this
/// also serves for half-open ranges.)
#[verifier::external_body]
pub(crate) fn random_up_to(rng: &mut Lcg128Xsl64, hi: usize) -> (r: usize)
    ensures
        r <= hi,
{
    rng.gen_range(0..=hi)
}

/// One draw of `rand::Rng::gen_range` over the half-open range `0..k` of
/// `u32`, which `k > 0` keeps from being empty: the value lies below `k`;
/// which one is left open.
#[verifier::external_body]
pub(crate) fn random_part(rng: &mut Lcg128Xsl64, k: u32) -> (r: u32)
    requires
        k > 0,
    ensures
        r < k,
{
    rng.gen_range(0..k)
}

/// `order` lists every index below `n` and nothing else, `n` entries in all.
pub open spec fn is_permutation(order: Seq<usize>, n: int) -> bool {
    &&& order.len() == n
    &&& forall|t: int| 0 <= t < order.len() ==> (#[trigger] order[t] as int) < n
    &&& forall|v: usize| (v as int) < n ==> #[trigger] order.contains(v)
}

/// Fisher-Yates shuffle of `0..n`: for `i` from `n - 1` down to `1`, swap
/// position `i` with a position drawn from `0..=i`.
pub fn shuffled_indices(rng: &mut Lcg128Xsl64, n: usize) -> (order: Vec<usize>)
    ensures
        is_permutation(order@, n as int),
{
    let mut order: Vec<usize> = Vec::new();
    let mut v: usize = 0;
    while v < n
        invariant
            0 <= v <= n,
            order@.len() == v,
            forall|t: int| 0 <= t < v ==> #[trigger] order@[t] == t,
        decreases n - v,
    {
        order.push(v);
        v += 1;
    }
    proof {
        assert forall|w: usize| (w as int) < n implies #[trigger] order@.contains(w) by {
            assert(order@[w as int] == w);
        }
    }
    let mut i: usize = n;
    while i > 1
        invariant
            1 <= i <= n || (i == n && n <= 1),
            is_permutation(order@, n as int),
        decreases i,
    {
        i -= 1;
        let j = random_up_to(rng, i);
        let a = order[i];
        let b = order[j];
        let ghost before = order@;
        order.set(i, b);
        order.set(j, a);
        proof {
            assert forall|w: usize| (w as int) < n implies #[trigger] order@.contains(w) by {
                assert(before.contains(w));
                let t = choose|t: int| 0 <= t < before.len() && before[t] == w;
                if t == i as int {
                    assert(order@[j as int] == w);
                } else if t == j as int {
                    assert(order@[i as int] == w);
                } else {
                    assert(order@[t] == w);
                }
            }
        }
    }
    order
}

} // verus!
