//! The layered heap itself.

use vstd::prelude::*;
use vstd::multiset::Multiset;
use crate::{T, L};
use crate::heap::Heap;
use crate::lanes::{
    is_first_min, lemma_first_min_unique, load, partition, position_min, push_position,
    valid_lanes,
};
use crate::layers::{
    Layered, SLOTS, lemma_fresh, lemma_layers_populated, lemma_put, lemma_settled,
    lemma_take_out, lemma_top_min_is_min, lemma_total_of_empties,
};
use crate::median::median_sample;
use crate::outside::random_index;
use crate::split::{
    lemma_grown, lemma_split_at, lemma_split_run, lemma_split_sides, lower, threshold_at, upper,
};

verus! {

/// How many splits without effect one `pop` tolerates before it searches the
/// top bucket as it is.
pub const RETRIES: usize = 32;

/// A min-priority queue that keeps its keys in layered, unsorted buckets.
///
/// `N` is the bucket size above which the top bucket is split before the
/// minimum is searched; `M` is the number of random samples whose median
/// becomes the pivot of a split.
pub struct QuickHeap<const N: usize, const M: usize> {
    /// Index of the layer that holds the smallest keys.
    layer: usize,
    /// Exclusive upper bounds of the layers; `pivots[0]` is `T::MAX`.
    pivots: Vec<T>,
    /// The keys of each layer.
    buckets: Vec<Vec<T>>,
}

impl<const N: usize, const M: usize> View for QuickHeap<N, M> {
    type V = Layered;

    closed spec fn view(&self) -> Layered {
        Layered {
            active: self.layer as nat,
            pivots: self.pivots@,
            buckets: Seq::new(self.buckets@.len(), |i: int| self.buckets@[i]@),
        }
    }
}

impl<const N: usize, const M: usize> Heap for QuickHeap<N, M> {
    open spec fn inv(&self) -> bool {
        self@.wf()
    }

    open spec fn contents(&self) -> Multiset<T> {
        self@.contents()
    }

    fn default() -> (h: Self)
        ensures
            h@ == Layered::fresh(),
    {
        let mut pivots: Vec<T> = vec![0; SLOTS];
        pivots[0] = T::MAX;
        let h = Self { layer: 0, pivots, buckets: vec![vec![]; SLOTS] };
        proof {
            lemma_fresh();
            assert(h@.pivots =~= Layered::fresh().pivots);
            assert(h@.buckets =~~= Layered::fresh().buckets);
        }
        h
    }

    fn push(&mut self, t: T)
        ensures
            final(self)@ == old(self)@.put(t),
    {
        let target = push_position(self.pivots.as_slice(), self.layer, t);
        proof {
            lemma_put(self@, t);
        }
        self.buckets[target].reserve(L + 1);
        self.buckets[target].push(t);
        assert(self@.buckets =~~= old(self)@.put(t).buckets);
    }

    fn pop(&mut self) -> (r: Option<T>)
        ensures
            old(self)@.top().len() == 0 ==> final(self)@ == old(self)@,
            0 < old(self)@.top().len() <= N ==> final(self)@ == old(self)@.take_min(),
            old(self)@.top().len() > 0 ==> exists|draws: Seq<Seq<usize>>|
                {
                    &&& old(self)@.admits(draws, M as nat)
                    &&& old(self)@.split_all(draws).top().len() <= N || draws.len() >= RETRIES
                    &&& final(self)@ == #[trigger] old(self)@.split_all(
                        draws,
                    ).settled().take_min()
                },
            final(self)@.pivots[final(self)@.active as int + 1] == 0,
    {
        // Only the top layer of an empty heap can be empty.
        if self.buckets[self.layer].len() == 0 {
            proof {
                assert(self@.top().len() == 0);
                assert forall|i: int| 0 <= i < self@.buckets.len() implies (
                #[trigger] self@.buckets[i]).len() == 0 by {}
                lemma_total_of_empties(self@.buckets);
            }
            return None;
        }
        // Split the top layer as long as it is too large.
        let mut retries: usize = 0;
        let ghost mut draws: Seq<Seq<usize>> = Seq::empty();
        while self.buckets[self.layer].len() > N && retries < RETRIES
            invariant
                self@.wf_splitting(),
                self@.top().len() <= N ==> self.inv(),
                self.contents() == old(self).contents(),
                self@.top().len() > 0,
                old(self)@.top().len() <= N ==> self@ == old(self)@,
                old(self)@.admits(draws, M as nat),
                self@ == old(self)@.split_all(draws),
                retries <= draws.len(),
                retries <= RETRIES,
            decreases self@.top().len() + (RETRIES - retries),
        {
            let before = self.layer;
            let ghost start = self@;
            self.partition();
            proof {
                let positions = choose|positions: Seq<usize>|
                    {
                        &&& positions.len() == M
                        &&& forall|i: int|
                            0 <= i < positions.len() ==> positions[i] < start.top().len()
                        &&& self@ == #[trigger] start.split_at(positions)
                    };
                lemma_split_at(start, positions);
                assert(draws.push(positions).drop_last() == draws);
                draws = draws.push(positions);
            }
            if self.layer == before {
                retries += 1;
            }
        }
        // Where splitting was given up, the bound of the last attempt goes.
        let ghost split = self@;
        proof {
            lemma_settled(split);
        }
        if self.buckets[self.layer].len() > N {
            self.settle();
        }
        // Find and extract the minimum.
        let min_pos = position_min(self.buckets[self.layer].as_slice());
        proof {
            let top = self@.top();
            assert(top.contains(top[min_pos as int]));
            lemma_top_min_is_min(self@, top[min_pos as int]);
            lemma_take_out(self@, min_pos as int);
            let chosen = choose|x: int| is_first_min(top, x);
            lemma_first_min_unique(top, chosen, min_pos as int);
        }
        let ghost full = self@;
        let min = self.buckets[self.layer].swap_remove(min_pos);

        // Retire the top layer when it ran empty.
        if self.buckets[self.layer].is_empty() && self.layer > 0 {
            self.pivots[self.layer] = 0;
            self.layer -= 1;
        }
        assert(self@.buckets =~~= full.take_out(min_pos as int).buckets);
        assert(self@ == full.take_min());
        assert(full == old(self)@.split_all(draws).settled());
        Some(min)
    }
}

/// Splits the lane blocks of `cur` that start at `start` or later and before
/// `end` against `threshold`, and returns where the next block starts.
fn split_blocks(
    cur: &mut Vec<T>,
    next: &mut Vec<T>,
    cur_len: &mut usize,
    next_len: &mut usize,
    start: usize,
    end: usize,
    threshold: T,
    Ghost(s): Ghost<Seq<T>>,
    Ghost(p): Ghost<T>,
    Ghost(pos): Ghost<int>,
) -> (stop: usize)
    requires
        old(cur).len() == s.len(),
        old(next).len() == s.len(),
        start <= s.len(),
        end <= s.len(),
        start % L == 0 || start == s.len(),
        *old(cur_len) + *old(next_len) == start,
        old(cur)@.take(*old(cur_len) as int) == upper(s.take(start as int), p, pos),
        old(next)@.take(*old(next_len) as int) == lower(s.take(start as int), p, pos),
        forall|j: int| start <= j < s.len() ==> old(cur)@[j] == s[j],
        forall|j: int|
            start <= j < s.len() && j - j % (L as int) < end ==> threshold_at(j, p, pos)
                == threshold,
    ensures
        final(cur).len() == s.len(),
        final(next).len() == s.len(),
        start <= stop <= s.len(),
        end <= stop,
        stop % L == 0 || stop == s.len(),
        *final(cur_len) + *final(next_len) == stop,
        final(cur)@.take(*final(cur_len) as int) == upper(s.take(stop as int), p, pos),
        final(next)@.take(*final(next_len) as int) == lower(s.take(stop as int), p, pos),
        forall|j: int| stop <= j < s.len() ==> final(cur)@[j] == s[j],
{
    let n = cur.len();
    let mut i = start;
    while i < end
        invariant
            n == s.len(),
            cur.len() == n,
            next.len() == n,
            start <= i <= n,
            end <= n,
            i % L == 0 || i == n,
            *cur_len + *next_len == i,
            cur@.take(*cur_len as int) == upper(s.take(i as int), p, pos),
            next@.take(*next_len as int) == lower(s.take(i as int), p, pos),
            forall|j: int| i <= j < n ==> cur@[j] == s[j],
            forall|j: int|
                start <= j < n && j - j % (L as int) < end ==> threshold_at(j, p, pos)
                    == threshold,
        decreases n - i,
    {
        let lanes = load(cur, i);
        let remaining = n - i;
        proof {
            let count = valid_lanes(remaining);
            assert(lanes@.take(count) == s.subrange(i as int, i + count));
            assert forall|j: int| i <= j < i + count implies threshold_at(j, p, pos)
                == threshold by {
                assert(j - j % (L as int) == i);
            }
            lemma_split_run(s, i as int, count, p, pos, threshold);
        }
        partition(lanes, remaining, threshold, cur, cur_len, next, next_len);
        if remaining <= L {
            i = n;
        } else {
            i += L;
        }
    }
    i
}

/// Splits `cur` in place around `pivot`, sampled at `pivot_pos`: the keys
/// that stay are packed at the front of `cur`, the keys that move down
/// replace the contents of `next`, both in the order they had.
///
/// The bucket is read one lane block at a time. Up to the block of the
/// sample the threshold is one above the pivot, so that keys equal to the
/// pivot move down; after it the threshold is the pivot itself.
pub fn split_bucket(cur: &mut Vec<T>, next: &mut Vec<T>, pivot: T, pivot_pos: usize)
    requires
        pivot_pos < old(cur).len(),
    ensures
        final(cur)@ == upper(old(cur)@, pivot, pivot_pos as int),
        final(next)@ == lower(old(cur)@, pivot, pivot_pos as int),
{
    let ghost s = cur@;
    let n = cur.len();
    let bound = if pivot < T::MAX {
        pivot + 1
    } else {
        pivot
    };
    next.clear();
    next.resize(n, 0);

    let mut cur_len: usize = 0;
    let mut next_len: usize = 0;
    assert(s.take(0) == Seq::<T>::empty());
    // Up to the lane block of the sample, keys equal to the pivot move down.
    let half = split_blocks(
        cur,
        next,
        &mut cur_len,
        &mut next_len,
        0,
        pivot_pos + 1,
        bound,
        Ghost(s),
        Ghost(pivot),
        Ghost(pivot_pos as int),
    );
    // After it, they stay.
    let end = split_blocks(
        cur,
        next,
        &mut cur_len,
        &mut next_len,
        half,
        n,
        pivot,
        Ghost(s),
        Ghost(pivot),
        Ghost(pivot_pos as int),
    );
    assert(s.take(n as int) == s);
    cur.truncate(cur_len);
    next.truncate(next_len);
}

impl<const N: usize, const M: usize> QuickHeap<N, M> {
    /// Whether no key is held. Only the top bucket needs a look.
    pub fn is_empty(&self) -> (r: bool)
        requires
            self.inv(),
        ensures
            r <==> self.contents().len() == 0,
    {
        proof {
            lemma_layers_populated(self@);
        }
        self.buckets[self.layer].len() == 0
    }

    /// Index of the layer that holds the smallest keys.
    pub fn layer(&self) -> (r: usize)
        ensures
            r == self@.active,
    {
        self.layer
    }

    /// The pivots of all layers, in use or not.
    pub fn pivots(&self) -> (r: &Vec<T>)
        ensures
            r@ == self@.pivots,
    {
        &self.pivots
    }

    /// The keys of layer `i`, or `None` past the last layer.
    pub fn bucket(&self, i: usize) -> (r: Option<&Vec<T>>)
        ensures
            r is Some <==> i < self@.buckets.len(),
            r is Some ==> r.unwrap()@ == self@.buckets[i as int],
    {
        if i < self.buckets.len() {
            Some(&self.buckets[i])
        } else {
            None
        }
    }

    /// Makes room for `L` more layers once the last two slots are reached.
    fn grow(&mut self)
        requires
            old(self)@.wf_splitting(),
        ensures
            final(self)@ == old(self)@.grown(),
    {
        assert(self.pivots.len() == self@.pivots.len());
        if self.layer + 2 == self.pivots.len() {
            let mut added: usize = 0;
            while added < L
                invariant
                    added <= L,
                    self.layer == old(self).layer,
                    self.pivots@ == old(self).pivots@ + Seq::new(added as nat, |i: int| 0u32),
                    self.buckets@.len() == old(self).buckets@.len() + added,
                    forall|i: int|
                        0 <= i < old(self).buckets@.len() ==> self.buckets@[i] == old(
                            self,
                        ).buckets@[i],
                    forall|i: int|
                        old(self).buckets@.len() <= i < self.buckets@.len()
                            ==> self.buckets@[i]@.len() == 0,
                decreases L - added,
            {
                self.pivots.push(0);
                self.buckets.push(Vec::new());
                added += 1;
            }
            assert(self@.buckets =~~= old(self)@.grown().buckets);
        }
    }

    /// Marks the slot past the top layer unused again. After an attempt to
    /// split that had no effect this restores the invariant that `push` and
    /// `pop` ask for.
    pub fn settle(&mut self)
        requires
            old(self)@.wf_splitting(),
        ensures
            final(self).inv(),
            final(self)@ == old(self)@.settled(),
    {
        proof {
            lemma_settled(self@);
        }
        assert(self.pivots.len() == self@.pivots.len());
        self.pivots[self.layer + 1] = 0;
    }

    /// Tries to split the top bucket around the median of the keys found at
    /// `positions`.
    ///
    /// The bound of the pivot is recorded in the slot past the top layer.
    /// Keys below the pivot move to a new top layer, larger keys stay, and
    /// keys equal to the pivot move if they lie in a lane block up to that
    /// of the median sample. If all keys would end up on one side, they stay
    /// where they are and the top layer does not change; the recorded bound
    /// stays until the next attempt or until `settle` clears it.
    pub fn partition_at(&mut self, positions: &Vec<usize>)
        requires
            old(self)@.wf_splitting(),
            forall|i: int|
                0 <= i < positions@.len() ==> positions@[i] < old(self)@.top().len(),
        ensures
            final(self)@.wf_splitting(),
            final(self)@ == old(self)@.split_at(positions@),
            final(self)@.active != old(self)@.active ==> final(self).inv(),
    {
        proof {
            lemma_split_at(self@, positions@);
        }
        if positions.len() == 0 {
            return ;
        }
        let active = self.layer;
        let (pivot, pivot_pos) = median_sample(&self.buckets[active], positions);
        let ghost s = self@.top();
        proof {
            lemma_grown(self@);
        }
        self.grow();
        assert(active + 1 < self.buckets.len());
        // The stored bound is exclusive, so that 0 can mark unused layers.
        self.pivots[active + 1] = if pivot < T::MAX {
            pivot + 1
        } else {
            pivot
        };

        // Take the bucket to split and the one below it out of the spine.
        let mut cur: Vec<T> = Vec::new();
        let mut next: Vec<T> = Vec::new();
        std::mem::swap(&mut cur, &mut self.buckets[active]);
        std::mem::swap(&mut next, &mut self.buckets[active + 1]);
        assert(cur@ == s);
        split_bucket(&mut cur, &mut next, pivot, pivot_pos);
        proof {
            lemma_split_sides(s, pivot, pivot_pos as int);
        }
        if cur.len() == 0 {
            // Every key moved down: put them back and leave the top layer as it is.
            std::mem::swap(&mut cur, &mut next);
        } else if next.len() > 0 {
            self.layer = active + 1;
        }
        self.buckets[active] = cur;
        self.buckets[active + 1] = next;
        assert(self@.buckets =~~= old(self)@.split_at(positions@).buckets);
    }

    /// Tries to split the top bucket around the median of `M` keys sampled
    /// at random positions.
    fn partition(&mut self)
        requires
            old(self)@.wf_splitting(),
            old(self)@.top().len() > 0,
        ensures
            final(self)@.wf_splitting(),
            exists|positions: Seq<usize>|
                {
                    &&& positions.len() == M
                    &&& forall|i: int|
                        0 <= i < positions.len() ==> positions[i] < old(self)@.top().len()
                    &&& final(self)@ == #[trigger] old(self)@.split_at(positions)
                },
    {
        let n = self.buckets[self.layer].len();
        let mut positions: Vec<usize> = Vec::new();
        let mut drawn: usize = 0;
        while drawn < M
            invariant
                drawn <= M,
                n > 0,
                positions@.len() == drawn,
                forall|i: int| 0 <= i < positions@.len() ==> positions@[i] < n,
            decreases M - drawn,
        {
            positions.push(random_index(n));
            drawn += 1;
        }
        self.partition_at(&positions);
    }
}

} // verus!
