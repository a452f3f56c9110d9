//! Lane-block helpers: the short linear scans behind `push` and `pop`.

use vstd::prelude::*;
use crate::{T, L};

verus! {

/// How many of `pivots[1..=layer]` are strictly greater than `t`.
pub open spec fn count_above(pivots: Seq<T>, layer: nat, t: T) -> nat
    decreases layer,
{
    if layer == 0 {
        0
    } else {
        count_above(pivots, (layer - 1) as nat, t) + if pivots[layer as int] > t {
            1nat
        } else {
            0nat
        }
    }
}

/// The layer a new key `t` belongs to: the number of pivots among
/// `pivots[1..=layer]` that exceed it.
pub fn push_position(pivots: &[T], layer: usize, t: T) -> (r: usize)
    requires
        layer < pivots@.len(),
    ensures
        r == count_above(pivots@, layer as nat, t),
        r <= layer,
{
    let mut count: usize = 0;
    let mut i: usize = 0;
    while i < layer
        invariant
            i <= layer < pivots@.len(),
            count == count_above(pivots@, i as nat, t),
            count <= i,
        decreases layer - i,
    {
        i += 1;
        if pivots[i] > t {
            count += 1;
        }
    }
    count
}

/// With pivots that never increase, the pivots exceeding `t` form a prefix
/// of `pivots[1..=layer]`, and `count_above` is the length of that prefix.
pub proof fn lemma_count_above_is_prefix(pivots: Seq<T>, layer: nat, t: T)
    requires
        layer < pivots.len(),
        forall|i: int, j: int| 1 <= i <= j <= layer ==> pivots[i] >= pivots[j],
    ensures
        count_above(pivots, layer, t) <= layer,
        forall|i: int| 1 <= i <= count_above(pivots, layer, t) ==> pivots[i] > t,
        forall|i: int| count_above(pivots, layer, t) < i <= layer ==> pivots[i] <= t,
    decreases layer,
{
    if layer > 0 {
        let below = (layer - 1) as nat;
        lemma_count_above_is_prefix(pivots, below, t);
        if pivots[layer as int] > t {
            if count_above(pivots, below, t) < below {
                assert(pivots[below as int] <= t);
                assert(pivots[below as int] >= pivots[layer as int]);
            }
        }
    }
}

/// `x` is the index of the first smallest key of `keys`.
pub open spec fn is_first_min(keys: Seq<T>, x: int) -> bool {
    &&& 0 <= x < keys.len()
    &&& forall|j: int| 0 <= j < keys.len() ==> keys[x] <= keys[j]
    &&& forall|j: int| 0 <= j < x ==> keys[x] < keys[j]
}

/// No two indices are both the first smallest.
pub proof fn lemma_first_min_unique(keys: Seq<T>, x: int, y: int)
    requires
        is_first_min(keys, x),
        is_first_min(keys, y),
    ensures
        x == y,
{
    if x < y {
        assert(keys[y] < keys[x]);
    } else if y < x {
        assert(keys[x] < keys[y]);
    }
}

/// Index of the first smallest key of a non-empty slice.
pub fn position_min(keys: &[T]) -> (r: usize)
    requires
        keys@.len() > 0,
    ensures
        is_first_min(keys@, r as int),
{
    let mut best: usize = 0;
    let mut i: usize = 1;
    while i < keys.len()
        invariant
            best < i <= keys@.len(),
            forall|j: int| 0 <= j < i ==> keys@[best as int] <= keys@[j],
            forall|j: int| 0 <= j < best ==> keys@[best as int] < keys@[j],
        decreases keys@.len() - i,
    {
        if keys[i] < keys[best] {
            best = i;
        }
        i += 1;
    }
    best
}

/// The keys of `block` that are at least `threshold`, in order.
pub open spec fn kept(block: Seq<T>, threshold: T) -> Seq<T>
    decreases block.len(),
{
    if block.len() == 0 {
        Seq::empty()
    } else {
        let rest = kept(block.drop_last(), threshold);
        if block.last() >= threshold {
            rest.push(block.last())
        } else {
            rest
        }
    }
}

/// The keys of `block` that are below `threshold`, in order.
pub open spec fn moved(block: Seq<T>, threshold: T) -> Seq<T>
    decreases block.len(),
{
    if block.len() == 0 {
        Seq::empty()
    } else {
        let rest = moved(block.drop_last(), threshold);
        if block.last() < threshold {
            rest.push(block.last())
        } else {
            rest
        }
    }
}

/// Every key of a block is either kept or moved.
pub proof fn lemma_block_sides(block: Seq<T>, threshold: T)
    ensures
        kept(block, threshold).len() + moved(block, threshold).len() == block.len(),
    decreases block.len(),
{
    if block.len() > 0 {
        lemma_block_sides(block.drop_last(), threshold);
    }
}

/// The number of keys of a lane block that count when `remaining` keys are
/// left to process.
pub open spec fn valid_lanes(remaining: usize) -> int {
    if remaining < L {
        remaining as int
    } else {
        L as int
    }
}

/// Loads the lane block of `keys` that starts at `start`. Lanes past the end
/// of `keys` are zero.
pub fn load(keys: &Vec<T>, start: usize) -> (lanes: [T; L])
    requires
        start <= keys@.len(),
    ensures
        forall|j: int| 0 <= j < L && start + j < keys@.len() ==> lanes@[j] == keys@[start + j],
        forall|j: int| 0 <= j < L && start + j >= keys@.len() ==> lanes@[j] == 0,
{
    let mut lanes: [T; L] = [0; L];
    let mut j: usize = 0;
    while j < L && j < keys.len() - start
        invariant
            j <= L,
            start <= keys@.len(),
            j <= keys@.len() - start,
            forall|k: int| 0 <= k < j ==> lanes@[k] == keys@[start + k],
            forall|k: int| j <= k < L ==> lanes@[k] == 0,
        decreases L - j,
    {
        lanes[j] = keys[start + j];
        j += 1;
    }
    lanes
}

/// Splits one lane block against `threshold`: of its first
/// `min(remaining, L)` lanes, those below the threshold are appended to
/// `next` at `next_len`, the others to `cur` at `cur_len`, and both cursors
/// advance past what was written. Nothing beyond the cursors changes.
pub fn partition(
    lanes: [T; L],
    remaining: usize,
    threshold: T,
    cur: &mut Vec<T>,
    cur_len: &mut usize,
    next: &mut Vec<T>,
    next_len: &mut usize,
)
    requires
        *old(cur_len) + valid_lanes(remaining) <= old(cur)@.len(),
        *old(next_len) + valid_lanes(remaining) <= old(next)@.len(),
    ensures
        final(cur)@.len() == old(cur)@.len(),
        final(next)@.len() == old(next)@.len(),
        *final(cur_len) + *final(next_len) == *old(cur_len) + *old(next_len) + valid_lanes(
            remaining,
        ),
        *final(cur_len) == *old(cur_len) + kept(
            lanes@.take(valid_lanes(remaining)),
            threshold,
        ).len(),
        *final(next_len) == *old(next_len) + moved(
            lanes@.take(valid_lanes(remaining)),
            threshold,
        ).len(),
        final(cur)@.take(*final(cur_len) as int) == old(cur)@.take(*old(cur_len) as int) + kept(
            lanes@.take(valid_lanes(remaining)),
            threshold,
        ),
        final(next)@.take(*final(next_len) as int) == old(next)@.take(*old(next_len) as int)
            + moved(lanes@.take(valid_lanes(remaining)), threshold),
        forall|i: int|
            *final(cur_len) <= i < old(cur)@.len() ==> final(cur)@[i] == old(cur)@[i],
        forall|i: int|
            *final(next_len) <= i < old(next)@.len() ==> final(next)@[i] == old(next)@[i],
{
    let count: usize = if remaining < L {
        remaining
    } else {
        L
    };
    let ghost block = lanes@.take(count as int);
    let mut j: usize = 0;
    assert(block.take(0) == Seq::<T>::empty());
    while j < count
        invariant
            j <= count <= L,
            block == lanes@.take(count as int),
            cur@.len() == old(cur)@.len(),
            next@.len() == old(next)@.len(),
            *old(cur_len) + count <= cur.len(),
            *old(next_len) + count <= next.len(),
            *cur_len == *old(cur_len) + kept(block.take(j as int), threshold).len(),
            *next_len == *old(next_len) + moved(block.take(j as int), threshold).len(),
            *cur_len + *next_len == *old(cur_len) + *old(next_len) + j,
            cur@.take(*cur_len as int) == old(cur)@.take(*old(cur_len) as int) + kept(
                block.take(j as int),
                threshold,
            ),
            next@.take(*next_len as int) == old(next)@.take(*old(next_len) as int) + moved(
                block.take(j as int),
                threshold,
            ),
            forall|i: int| *cur_len <= i < cur@.len() ==> cur@[i] == old(cur)@[i],
            forall|i: int| *next_len <= i < next@.len() ==> next@[i] == old(next)@[i],
        decreases count - j,
    {
        let key = lanes[j];
        proof {
            assert(block.take(j as int + 1).drop_last() == block.take(j as int));
            assert(block.take(j as int + 1).last() == key);
        }
        if key < threshold {
            let ghost before = next@;
            next[*next_len] = key;
            *next_len = *next_len + 1;
            assert(next@.take(*next_len as int) == before.take(*next_len as int - 1).push(key));
        } else {
            let ghost before = cur@;
            cur[*cur_len] = key;
            *cur_len = *cur_len + 1;
            assert(cur@.take(*cur_len as int) == before.take(*cur_len as int - 1).push(key));
        }
        j += 1;
    }
    assert(block.take(count as int) == block);
}

} // verus!
