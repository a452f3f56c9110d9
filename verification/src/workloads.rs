//! Sequences of pushes and pops that exercise a heap.
//!
//! Each workload builds a fresh heap, drives it, and hands the heap back so
//! that callers can inspect or discard it.

use vstd::prelude::*;
use vstd::arithmetic::power2::{lemma2_to64, lemma_pow2_strictly_increases, lemma_pow2_unfold, pow2};
use vstd::seq_lib::*;
use crate::T;
use crate::heap::{Heap, pop_step};
use crate::model::lemma_pop_none_iff_empty;
use crate::outside::{random_u64, shuffle};

verus! {

/// Width of the window above the last popped key from which
/// `increasing_random_mix` draws the next key.
pub const SPREAD: u64 = 1000;

/// The problem sizes `2^minpow, ..., 2^maxpow`.
pub fn sizes(minpow: u32, maxpow: u32) -> (ns: Vec<T>)
    requires
        maxpow < 32,
    ensures
        ns@.len() == if minpow <= maxpow { maxpow - minpow + 1 } else { 0 },
        forall|i: int| 0 <= i < ns@.len() ==> ns@[i] == pow2((minpow + i) as nat),
{
    let mut ns: Vec<T> = Vec::new();
    let mut size: T = 1;
    let mut e: u32 = 0;
    proof {
        lemma2_to64();
    }
    while e < maxpow
        invariant
            e <= maxpow < 32,
            size == pow2(e as nat),
            ns@.len() == if e > minpow { e - minpow } else { 0 },
            forall|i: int| 0 <= i < ns@.len() ==> ns@[i] == pow2((minpow + i) as nat),
        decreases maxpow - e,
    {
        if e >= minpow {
            ns.push(size);
        }
        proof {
            lemma2_to64();
            lemma_pow2_unfold((e + 1) as nat);
            if e + 1 < 31 {
                lemma_pow2_strictly_increases((e + 1) as nat, 31);
            }
        }
        size = size * 2;
        e += 1;
    }
    if e >= minpow {
        ns.push(size);
    }
    ns
}

/// Pushes the keys `0..n` in increasing order.
pub fn push_linear<H: Heap>(n: T) -> (h: H)
    ensures
        h.inv(),
        forall|k: T| h.contents().count(k) == if k < n { 1nat } else { 0nat },
{
    broadcast use vstd::multiset::group_multiset_axioms;

    let mut h = H::default();
    let mut i: T = 0;
    while i < n
        invariant
            i <= n,
            h.inv(),
            forall|k: T| h.contents().count(k) == if k < i { 1nat } else { 0nat },
        decreases n - i,
    {
        h.push(i);
        i += 1;
    }
    h
}

/// Pushes the keys `0..n` in decreasing order.
pub fn push_linear_rev<H: Heap>(n: T) -> (h: H)
    ensures
        h.inv(),
        forall|k: T| h.contents().count(k) == if k < n { 1nat } else { 0nat },
{
    broadcast use vstd::multiset::group_multiset_axioms;

    let mut h = H::default();
    let mut i: T = n;
    while i > 0
        invariant
            i <= n,
            h.inv(),
            forall|k: T| h.contents().count(k) == if i <= k < n { 1nat } else { 0nat },
        decreases i,
    {
        i -= 1;
        h.push(i);
    }
    h
}

/// A key drawn uniformly from all keys.
fn get(rng: &mut fastrand::Rng) -> T {
    #[verifier::truncate]
    (random_u64(rng, 0, u64::MAX) as T)
}

/// Pushes `n` random keys.
pub fn push_random<H: Heap>(n: T) -> (h: H)
    ensures
        h.inv(),
        h.contents().len() == n,
{
    broadcast use vstd::multiset::group_multiset_axioms;

    let mut h = H::default();
    let mut rng = fastrand::Rng::new();
    let mut i: T = 0;
    while i < n
        invariant
            i <= n,
            h.inv(),
            h.contents().len() == i,
        decreases n - i,
    {
        h.push(get(&mut rng));
        i += 1;
    }
    h
}

/// The keys `0..n` in a random order.
pub fn shuffled_keys(n: T) -> (keys: Vec<T>)
    ensures
        keys@.len() == n,
        forall|k: T| keys@.to_multiset().count(k) == if k < n { 1nat } else { 0nat },
{
    broadcast use vstd::multiset::group_multiset_axioms;
    broadcast use group_to_multiset_ensures;

    let mut keys: Vec<T> = Vec::new();
    let mut i: T = 0;
    while i < n
        invariant
            i <= n,
            keys@.len() == i,
            forall|k: T| keys@.to_multiset().count(k) == if k < i { 1nat } else { 0nat },
        decreases n - i,
    {
        proof {
            to_multiset_build(keys@, i);
        }
        keys.push(i);
        i += 1;
    }
    shuffle(&mut keys);
    keys
}

/// Pushes the given keys in order.
pub fn push_keys<H: Heap>(keys: &Vec<T>) -> (h: H)
    ensures
        h.inv(),
        h.contents() == keys@.to_multiset(),
{
    broadcast use vstd::multiset::group_multiset_axioms;
    broadcast use group_to_multiset_ensures;

    let mut h = H::default();
    let mut i: usize = 0;
    assert(keys@.take(0) == Seq::<T>::empty());
    while i < keys.len()
        invariant
            i <= keys@.len(),
            h.inv(),
            h.contents() == keys@.take(i as int).to_multiset(),
        decreases keys@.len() - i,
    {
        proof {
            assert(keys@.take(i + 1) == keys@.take(i as int).push(keys@[i as int]));
            to_multiset_build(keys@.take(i as int), keys@[i as int]);
        }
        h.push(keys[i]);
        i += 1;
    }
    assert(keys@.take(keys@.len() as int) == keys@);
    h
}

/// Pops once. The result is absent exactly when no key is held, and
/// otherwise one key fewer is held afterwards.
fn pop_one<H: Heap>(h: &mut H) -> (r: Option<T>)
    requires
        old(h).inv(),
    ensures
        final(h).inv(),
        pop_step(old(h).contents(), r, final(h).contents()),
        r is None <==> old(h).contents().len() == 0,
        r is Some ==> final(h).contents().len() == old(h).contents().len() - 1,
        r is None ==> final(h).contents().len() == 0,
{
    let r = h.pop();
    proof {
        lemma_pop_none_iff_empty(old(h).contents(), r, h.contents());
    }
    r
}

/// Pushes the keys `0..n` in increasing order, then pops `n` times.
pub fn linear<H: Heap>(n: T) -> (h: H)
    ensures
        h.inv(),
        h.contents().len() == 0,
{
    broadcast use vstd::multiset::group_multiset_axioms;

    let mut h = H::default();
    let mut i: T = 0;
    while i < n
        invariant
            i <= n,
            h.inv(),
            h.contents().len() == i,
        decreases n - i,
    {
        h.push(i);
        i += 1;
    }
    let mut i: T = 0;
    while i < n
        invariant
            i <= n,
            h.inv(),
            h.contents().len() == n - i,
        decreases n - i,
    {
        pop_one(&mut h);
        i += 1;
    }
    h
}

/// Pushes the keys `0..n` in decreasing order, then pops `n` times.
pub fn linear_rev<H: Heap>(n: T) -> (h: H)
    ensures
        h.inv(),
        h.contents().len() == 0,
{
    broadcast use vstd::multiset::group_multiset_axioms;

    let mut h = H::default();
    let mut i: T = n;
    while i > 0
        invariant
            i <= n,
            h.inv(),
            h.contents().len() == n - i,
        decreases i,
    {
        i -= 1;
        h.push(i);
    }
    let mut i: T = 0;
    while i < n
        invariant
            i <= n,
            h.inv(),
            h.contents().len() == n - i,
        decreases n - i,
    {
        pop_one(&mut h);
        i += 1;
    }
    h
}

/// For `i` from `n - 1` down to `0`, pushes `2 * i + 1` and `2 * i` and pops
/// once. Each pop takes the even key just pushed, so the odd keys below
/// `2 * n` remain.
pub fn linear_rev_mix<H: Heap>(n: T) -> (h: H)
    requires
        2 * n <= T::MAX + 1,
    ensures
        h.inv(),
        forall|k: T| h.contents().count(k) == if k < 2 * n && k % 2 == 1 { 1nat } else { 0nat },
{
    broadcast use vstd::multiset::group_multiset_axioms;

    let mut h = H::default();
    let mut i: T = n;
    while i > 0
        invariant
            i <= n,
            2 * n <= T::MAX + 1,
            h.inv(),
            forall|k: T|
                h.contents().count(k) == if 2 * i <= k < 2 * n && k % 2 == 1 {
                    1nat
                } else {
                    0nat
                },
        decreases i,
    {
        i -= 1;
        h.push(2 * i + 1);
        h.push(2 * i);
        let ghost held = h.contents();
        let r = pop_one(&mut h);
        proof {
            assert(held.count((2 * i) as T) == 1);
            let m = r.unwrap();
            assert(held.count(m) > 0);
            assert(m == 2 * i);
        }
    }
    h
}

/// Pushes a run of increasing keys with `K` pop-push pairs after each, then
/// pops them off with `K` push-pop pairs after each.
pub fn linear_mix<H: Heap, const K: usize>(n: T) -> (h: H)
    requires
        n * (1 + 2 * K) <= T::MAX,
    ensures
        h.inv(),
        h.contents().len() == 0,
{
    broadcast use vstd::multiset::group_multiset_axioms;

    let mut h = H::default();
    let mut x: T = 0;
    let mut i: T = 0;
    while i < n
        invariant
            i <= n,
            n * (1 + 2 * K) <= T::MAX,
            h.inv(),
            h.contents().len() == i,
            x == i * (1 + K),
        decreases n - i,
    {
        proof {
            assert((i + 1) * (1 + K) == i * (1 + K) + 1 + K) by (nonlinear_arith);
            assert((i + 1) * (1 + K) <= n * (1 + 2 * K)) by (nonlinear_arith)
                requires
                    i < n,
                    K >= 0,
            ;
        }
        h.push(x);
        x += 1;
        let mut j: usize = 0;
        while j < K
            invariant
                j <= K,
                h.inv(),
                h.contents().len() == i + 1,
                x == i * (1 + K) + 1 + j,
                i * (1 + K) + 1 + K <= T::MAX,
            decreases K - j,
        {
            pop_one(&mut h);
            h.push(x);
            x += 1;
            j += 1;
        }
        i += 1;
    }
    let mut i: T = 0;
    while i < n
        invariant
            i <= n,
            n * (1 + 2 * K) <= T::MAX,
            h.inv(),
            h.contents().len() == n - i,
            x == n * (1 + K) + i * K,
        decreases n - i,
    {
        proof {
            assert((i + 1) * K == i * K + K) by (nonlinear_arith);
            assert(n * (1 + K) + (i + 1) * K <= n * (1 + 2 * K)) by (nonlinear_arith)
                requires
                    i < n,
                    K >= 0,
            ;
        }
        pop_one(&mut h);
        let mut j: usize = 0;
        while j < K
            invariant
                j <= K,
                h.inv(),
                h.contents().len() == n - i - 1,
                i < n,
                x == n * (1 + K) + i * K + j,
                n * (1 + K) + i * K + K <= T::MAX,
            decreases K - j,
        {
            h.push(x);
            x += 1;
            pop_one(&mut h);
            j += 1;
        }
        i += 1;
    }
    h
}

/// Like `linear_mix`, relying on every pop to return a key.
pub fn increasing_linear_mix<H: Heap, const K: usize>(n: T) -> (h: H)
    requires
        n * (1 + 2 * K) <= T::MAX,
    ensures
        h.inv(),
        h.contents().len() == 0,
{
    broadcast use vstd::multiset::group_multiset_axioms;

    let mut h = H::default();
    let mut l: T = 0;
    let mut i: T = 0;
    while i < n
        invariant
            i <= n,
            n * (1 + 2 * K) <= T::MAX,
            h.inv(),
            h.contents().len() == i,
            l == i * (1 + K),
        decreases n - i,
    {
        proof {
            assert((i + 1) * (1 + K) == i * (1 + K) + 1 + K) by (nonlinear_arith);
            assert((i + 1) * (1 + K) <= n * (1 + 2 * K)) by (nonlinear_arith)
                requires
                    i < n,
                    K >= 0,
            ;
        }
        h.push(l);
        l += 1;
        let mut j: usize = 0;
        while j < K
            invariant
                j <= K,
                h.inv(),
                h.contents().len() == i + 1,
                l == i * (1 + K) + 1 + j,
                i * (1 + K) + 1 + K <= T::MAX,
            decreases K - j,
        {
            pop_one(&mut h).unwrap();
            h.push(l);
            l += 1;
            j += 1;
        }
        i += 1;
    }
    let mut i: T = 0;
    while i < n
        invariant
            i <= n,
            n * (1 + 2 * K) <= T::MAX,
            h.inv(),
            h.contents().len() == n - i,
            l == n * (1 + K) + i * K,
        decreases n - i,
    {
        proof {
            assert((i + 1) * K == i * K + K) by (nonlinear_arith);
            assert(n * (1 + K) + (i + 1) * K <= n * (1 + 2 * K)) by (nonlinear_arith)
                requires
                    i < n,
                    K >= 0,
            ;
        }
        pop_one(&mut h).unwrap();
        let mut j: usize = 0;
        while j < K
            invariant
                j <= K,
                h.inv(),
                h.contents().len() == n - i - 1,
                i < n,
                l == n * (1 + K) + i * K + j,
                n * (1 + K) + i * K + K <= T::MAX,
            decreases K - j,
        {
            h.push(l);
            l += 1;
            pop_one(&mut h).unwrap();
            j += 1;
        }
        i += 1;
    }
    h
}

/// Pushes `n` random keys, then pops `n` times.
pub fn random<H: Heap>(n: T) -> (h: H)
    ensures
        h.inv(),
        h.contents().len() == 0,
{
    broadcast use vstd::multiset::group_multiset_axioms;

    let mut h = H::default();
    let mut rng = fastrand::Rng::new();
    let mut i: T = 0;
    while i < n
        invariant
            i <= n,
            h.inv(),
            h.contents().len() == i,
        decreases n - i,
    {
        h.push(get(&mut rng));
        i += 1;
    }
    let mut i: T = 0;
    while i < n
        invariant
            i <= n,
            h.inv(),
            h.contents().len() == n - i,
        decreases n - i,
    {
        pop_one(&mut h);
        i += 1;
    }
    h
}

/// Pushes `n` random keys, then `n` times pushes a random key and pops.
pub fn random_alternate<H: Heap>(n: T) -> (h: H)
    requires
        2 * n <= T::MAX,
    ensures
        h.inv(),
        h.contents().len() == n,
{
    broadcast use vstd::multiset::group_multiset_axioms;

    let mut h = H::default();
    let mut rng = fastrand::Rng::new();
    let mut i: T = 0;
    while i < n
        invariant
            i <= n,
            h.inv(),
            h.contents().len() == i,
        decreases n - i,
    {
        h.push(get(&mut rng));
        i += 1;
    }
    let mut i: T = n;
    while i < 2 * n
        invariant
            n <= i <= 2 * n,
            2 * n <= T::MAX,
            h.inv(),
            h.contents().len() == n,
        decreases 2 * n - i,
    {
        h.push(get(&mut rng));
        pop_one(&mut h);
        i += 1;
    }
    h
}

/// Pushes `n` random keys with `K` pop-push pairs after each, then pops
/// them off with `K` push-pop pairs after each.
pub fn random_mix<H: Heap, const K: usize>(n: T) -> (h: H)
    ensures
        h.inv(),
        h.contents().len() == 0,
{
    broadcast use vstd::multiset::group_multiset_axioms;

    let mut h = H::default();
    let mut rng = fastrand::Rng::new();
    let mut i: T = 0;
    while i < n
        invariant
            i <= n,
            h.inv(),
            h.contents().len() == i,
        decreases n - i,
    {
        h.push(get(&mut rng));
        let mut j: usize = 0;
        while j < K
            invariant
                j <= K,
                h.inv(),
                h.contents().len() == i + 1,
            decreases K - j,
        {
            pop_one(&mut h);
            h.push(get(&mut rng));
            j += 1;
        }
        i += 1;
    }
    let mut i: T = 0;
    while i < n
        invariant
            i <= n,
            h.inv(),
            h.contents().len() == n - i,
        decreases n - i,
    {
        pop_one(&mut h);
        let mut j: usize = 0;
        while j < K
            invariant
                j <= K,
                h.inv(),
                h.contents().len() == n - i - 1,
                i < n,
            decreases K - j,
        {
            h.push(get(&mut rng));
            pop_one(&mut h);
            j += 1;
        }
        i += 1;
    }
    h
}

/// A key drawn from the `SPREAD` values that start at `l`, cut to the width of a key:
/// fewer than `SPREAD` steps up from `l`, wrapping around past the largest key.
fn get_above(rng: &mut fastrand::Rng, l: T) -> (r: T)
    ensures
        (r - l) % 0x1_0000_0000 < SPREAD,
{
    let drawn = random_u64(rng, l as u64, l as u64 + SPREAD - 1);
    assert((drawn as u32) as u64 == drawn % 0x1_0000_0000) by (bit_vector);
    #[verifier::truncate]
    (drawn as T)
}

/// Like `random_mix`, but every key pushed is drawn from a window that
/// starts at the key popped last.
pub fn increasing_random_mix<H: Heap, const K: usize>(n: T) -> (h: H)
    ensures
        h.inv(),
        h.contents().len() == 0,
{
    broadcast use vstd::multiset::group_multiset_axioms;

    let mut h = H::default();
    let mut rng = fastrand::Rng::new();
    let mut l: T = 0;
    let mut i: T = 0;
    while i < n
        invariant
            i <= n,
            h.inv(),
            h.contents().len() == i,
        decreases n - i,
    {
        h.push(get_above(&mut rng, l));
        let mut j: usize = 0;
        while j < K
            invariant
                j <= K,
                h.inv(),
                h.contents().len() == i + 1,
            decreases K - j,
        {
            l = pop_one(&mut h).unwrap();
            h.push(get_above(&mut rng, l));
            j += 1;
        }
        i += 1;
    }
    let mut i: T = 0;
    while i < n
        invariant
            i <= n,
            h.inv(),
            h.contents().len() == n - i,
        decreases n - i,
    {
        l = pop_one(&mut h).unwrap();
        let mut j: usize = 0;
        while j < K
            invariant
                j <= K,
                h.inv(),
                h.contents().len() == n - i - 1,
                i < n,
            decreases K - j,
        {
            h.push(get_above(&mut rng, l));
            l = pop_one(&mut h).unwrap();
            j += 1;
        }
        i += 1;
    }
    h
}

/// With `s` the integer square root of `n`, runs rows `i = 0..=s` of `s`
/// operations each: `i` pops followed by `s - i` pushes of random keys.
/// The heap grows over the first rows, shrinks over the last and ends
/// empty.
pub fn natural<H: Heap>(n: T) -> (h: H)
    ensures
        h.inv(),
        h.contents().len() == 0,
{
    broadcast use vstd::multiset::group_multiset_axioms;

    let mut h = H::default();
    let mut rng = fastrand::Rng::new();
    let s = n.isqrt();
    assert(s <= 0xffff) by (nonlinear_arith)
        requires
            s * s <= n,
            n <= 0xffff_ffff,
            s >= 0,
    ;
    let mut i: T = 0;
    while i <= s
        invariant
            i <= s + 1,
            s <= 0xffff,
            h.inv(),
            h.contents().len() == i * (s - i + 1),
        decreases s + 1 - i,
    {
        let ghost base = i * (s - i + 1);
        proof {
            assert(base >= i) by (nonlinear_arith)
                requires
                    base == i * (s - i + 1),
                    0 <= i <= s,
            ;
            assert(base - 2 * i + s == (i + 1) * (s - (i + 1) + 1)) by (nonlinear_arith)
                requires
                    base == i * (s - i + 1),
            ;
        }
        let mut j: T = 0;
        while j < s
            invariant
                j <= s,
                i <= s,
                base >= i,
                h.inv(),
                h.contents().len() == if j < i {
                    base - j
                } else {
                    base - 2 * i + j
                },
            decreases s - j,
        {
            if j < i {
                pop_one(&mut h);
            } else {
                h.push(get(&mut rng));
            }
            j += 1;
        }
        i += 1;
    }
    proof {
        assert((s + 1) * (s - (s + 1) + 1) == 0) by (nonlinear_arith);
    }
    h
}

} // verus!
