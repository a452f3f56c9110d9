//! A reference model of a min-priority queue as a multiset of keys, and the
//! laws that every heap meeting the `Heap` contract obeys.

use vstd::prelude::*;
use vstd::multiset::Multiset;
use crate::T;
use crate::heap::{is_min, pop_step};

verus! {

/// One operation on a heap.
pub enum Op {
    Push(T),
    Pop,
}

/// The smallest key of a non-empty multiset.
pub open spec fn least(s: Multiset<T>) -> T {
    choose|m: T| is_min(s, m)
}

/// What a `pop` returns on a heap that holds `s`.
pub open spec fn answer(s: Multiset<T>) -> Option<T> {
    if s.len() == 0 {
        None
    } else {
        Some(least(s))
    }
}

/// The keys held after one operation on a heap that holds `s`.
pub open spec fn step(s: Multiset<T>, op: Op) -> Multiset<T> {
    match op {
        Op::Push(k) => s.insert(k),
        Op::Pop => if s.len() == 0 {
            s
        } else {
            s.remove(least(s))
        },
    }
}

/// The keys held after running `ops` on an empty heap.
pub open spec fn run(ops: Seq<Op>) -> Multiset<T>
    decreases ops.len(),
{
    if ops.len() == 0 {
        Multiset::empty()
    } else {
        step(run(ops.drop_last()), ops.last())
    }
}

/// All keys pushed by `ops`.
pub open spec fn pushed(ops: Seq<Op>) -> Multiset<T>
    decreases ops.len(),
{
    if ops.len() == 0 {
        Multiset::empty()
    } else {
        match ops.last() {
            Op::Push(k) => pushed(ops.drop_last()).insert(k),
            Op::Pop => pushed(ops.drop_last()),
        }
    }
}

/// All keys returned by the pops of `ops`, run on an empty heap.
pub open spec fn popped(ops: Seq<Op>) -> Multiset<T>
    decreases ops.len(),
{
    if ops.len() == 0 {
        Multiset::empty()
    } else {
        match (ops.last(), answer(run(ops.drop_last()))) {
            (Op::Pop, Some(m)) => popped(ops.drop_last()).insert(m),
            _ => popped(ops.drop_last()),
        }
    }
}

/// Among the keys of `s` that are at most `k`, one is smallest in `s`.
proof fn lemma_min_below(s: Multiset<T>, k: T)
    requires
        s.count(k) > 0,
    ensures
        exists|m: T| is_min(s, m),
    decreases k,
{
    if exists|j: T| j < k && s.count(j) > 0 {
        let j = choose|j: T| j < k && s.count(j) > 0;
        lemma_min_below(s, j);
    } else {
        assert(is_min(s, k));
    }
}

/// A non-empty multiset has a smallest key, and `least` names it.
pub proof fn lemma_least_is_min(s: Multiset<T>)
    requires
        s.len() > 0,
    ensures
        is_min(s, least(s)),
{
    broadcast use vstd::multiset::lemma_multiset_empty_len;

    let k = choose|k: T| 0 < s.count(k);
    lemma_min_below(s, k);
}

/// The smallest key of a multiset is unique.
pub proof fn lemma_min_unique(s: Multiset<T>, a: T, b: T)
    requires
        is_min(s, a),
        is_min(s, b),
    ensures
        a == b,
{
}

/// A `pop` reports absence exactly when the heap holds no key, and
/// otherwise takes exactly one key away.
pub proof fn lemma_pop_none_iff_empty(before: Multiset<T>, r: Option<T>, after: Multiset<T>)
    requires
        pop_step(before, r, after),
    ensures
        r is None <==> before.len() == 0,
        r is Some ==> after.len() == before.len() - 1,
        r is None ==> after.len() == 0,
{
    broadcast use vstd::multiset::group_multiset_axioms;

    if let Some(m) = r {
        assert(before.count(m) <= before.len());
        assert(Multiset::singleton(m).subset_of(before));
    }
}

/// Every heap answers a `pop` as the model does: the result and the keys
/// left behind are determined by the keys held before. Two heaps that hold
/// the same keys therefore return the same value and stay in agreement.
pub proof fn lemma_pop_follows_model(before: Multiset<T>, r: Option<T>, after: Multiset<T>)
    requires
        pop_step(before, r, after),
    ensures
        r == answer(before),
        after == step(before, Op::Pop),
{
    lemma_pop_none_iff_empty(before, r, after);
    if let Some(m) = r {
        lemma_least_is_min(before);
        lemma_min_unique(before, m, least(before));
    }
}

/// The model itself meets the contract of `pop`.
pub proof fn lemma_model_pops(s: Multiset<T>)
    ensures
        pop_step(s, answer(s), step(s, Op::Pop)),
{
    if s.len() > 0 {
        lemma_least_is_min(s);
    }
}

/// Two pops in a row, with only keys at least as large as the first result
/// pushed between them, return keys in non-decreasing order.
pub proof fn lemma_pops_ascend(first: Multiset<T>, m1: T, second: Multiset<T>, m2: T)
    requires
        is_min(first, m1),
        forall|k: T| #[trigger] second.count(k) > 0 ==> first.remove(m1).count(k) > 0 || m1 <= k,
        is_min(second, m2),
    ensures
        m1 <= m2,
{
    broadcast use vstd::multiset::group_multiset_axioms;

    if !(first.remove(m1).count(m2) > 0) {
    } else {
        assert(first.count(m2) > 0);
    }
}

/// Every key ever pushed has either been returned by a pop or is still held.
pub proof fn lemma_conservation(ops: Seq<Op>)
    ensures
        pushed(ops) == popped(ops).add(run(ops)),
    decreases ops.len(),
{
    broadcast use vstd::multiset::group_multiset_axioms;

    if ops.len() == 0 {
        assert(pushed(ops) =~= popped(ops).add(run(ops)));
    } else {
        let front = ops.drop_last();
        lemma_conservation(front);
        let held = run(front);
        match ops.last() {
            Op::Push(k) => {
                assert(pushed(ops) =~= popped(ops).add(run(ops)));
            },
            Op::Pop => {
                if held.len() > 0 {
                    lemma_least_is_min(held);
                }
                assert(pushed(ops) =~= popped(ops).add(run(ops)));
            },
        }
    }
}

} // verus!
