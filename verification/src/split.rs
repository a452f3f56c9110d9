//! What splitting the top bucket around a sampled pivot does to the layers.

use vstd::prelude::*;
use vstd::seq_lib::*;
use crate::{T, L};
use crate::lanes::{kept, moved};
use crate::layers::{Layered, lemma_total_update, total};
use crate::median::{lemma_median_is_sample, median_of, samples_of};

verus! {

/// The exclusive upper bound recorded for a layer split off at pivot `p`:
/// one more than `p`, unless `p` is already the largest key.
pub open spec fn bound_of(p: T) -> T {
    if p < T::MAX {
        (p + 1) as T
    } else {
        p
    }
}

/// Whether index `j` lies in a lane block at or before the block of `pos`.
pub open spec fn early(j: int, pos: int) -> bool {
    j / (L as int) <= pos / (L as int)
}

/// The threshold applied to the key at index `j`: up to the lane block of
/// the sampled position keys equal to the pivot move down, after it they stay.
pub open spec fn threshold_at(j: int, p: T, pos: int) -> T {
    if early(j, pos) {
        bound_of(p)
    } else {
        p
    }
}

/// The keys of `s` that move down to the new layer, in order.
pub open spec fn lower(s: Seq<T>, p: T, pos: int) -> Seq<T>
    decreases s.len(),
{
    if s.len() == 0 {
        Seq::empty()
    } else {
        let rest = lower(s.drop_last(), p, pos);
        if s.last() < threshold_at(s.len() - 1, p, pos) {
            rest.push(s.last())
        } else {
            rest
        }
    }
}

/// The keys of `s` that stay in their layer, in order.
pub open spec fn upper(s: Seq<T>, p: T, pos: int) -> Seq<T>
    decreases s.len(),
{
    if s.len() == 0 {
        Seq::empty()
    } else {
        let rest = upper(s.drop_last(), p, pos);
        if s.last() >= threshold_at(s.len() - 1, p, pos) {
            rest.push(s.last())
        } else {
            rest
        }
    }
}

impl Layered {
    /// The same layers with room for `L` more, added once the last pair of
    /// slots is reached.
    pub open spec fn grown(self) -> Layered {
        if self.active + 2 == self.pivots.len() {
            Layered {
                active: self.active,
                pivots: self.pivots + Seq::new(L as nat, |i: int| 0u32),
                buckets: self.buckets + Seq::new(L as nat, |i: int| Seq::<T>::empty()),
            }
        } else {
            self
        }
    }

    /// The layers after an attempt to split the top bucket at pivot `p`,
    /// sampled at position `pos`. The bound of the pivot is recorded in the
    /// slot past the top layer in either case. When either side of the
    /// split would be empty, the keys stay where they are and the top layer
    /// stays the same.
    pub open spec fn split(self, p: T, pos: int) -> Layered {
        let low = lower(self.top(), p, pos);
        let high = upper(self.top(), p, pos);
        let grown = self.grown();
        if low.len() == 0 || high.len() == 0 {
            Layered {
                active: self.active,
                pivots: grown.pivots.update(self.active as int + 1, bound_of(p)),
                buckets: grown.buckets,
            }
        } else {
            Layered {
                active: self.active + 1,
                pivots: grown.pivots.update(self.active as int + 1, bound_of(p)),
                buckets: grown.buckets.update(self.active as int, high).update(
                    self.active as int + 1,
                    low,
                ),
            }
        }
    }

    /// The layers after an attempt to split the top bucket around the median
    /// of the keys at `positions`. Without a sample there is no pivot and
    /// nothing changes.
    pub open spec fn split_at(self, positions: Seq<usize>) -> Layered {
        if positions.len() == 0 {
            self
        } else {
            let m = median_of(samples_of(self.top(), positions));
            self.split(m.0, m.1 as int)
        }
    }

    /// The layers after one split attempt for each entry of `draws`, in turn.
    pub open spec fn split_all(self, draws: Seq<Seq<usize>>) -> Layered
        decreases draws.len(),
    {
        if draws.len() == 0 {
            self
        } else {
            self.split_all(draws.drop_last()).split_at(draws.last())
        }
    }

    /// Every entry of `draws` holds `m` positions, each within the top
    /// bucket as it is when that entry's turn comes.
    pub open spec fn admits(self, draws: Seq<Seq<usize>>, m: nat) -> bool
        decreases draws.len(),
    {
        if draws.len() == 0 {
            true
        } else {
            &&& self.admits(draws.drop_last(), m)
            &&& draws.last().len() == m
            &&& forall|i: int|
                0 <= i < m ==> draws.last()[i] < self.split_all(draws.drop_last()).top().len()
        }
    }
}

/// Over a run of indices that share one threshold, the split of a prefix
/// grows by the split of that run.
pub proof fn lemma_split_run(s: Seq<T>, i: int, k: int, p: T, pos: int, threshold: T)
    requires
        0 <= i,
        0 <= k,
        i + k <= s.len(),
        forall|j: int| i <= j < i + k ==> threshold_at(j, p, pos) == threshold,
    ensures
        lower(s.take(i + k), p, pos) == lower(s.take(i), p, pos) + moved(
            s.subrange(i, i + k),
            threshold,
        ),
        upper(s.take(i + k), p, pos) == upper(s.take(i), p, pos) + kept(
            s.subrange(i, i + k),
            threshold,
        ),
    decreases k,
{
    if k == 0 {
        assert(s.subrange(i, i) == Seq::<T>::empty());
        assert(lower(s.take(i), p, pos) + Seq::<T>::empty() == lower(s.take(i), p, pos));
        assert(upper(s.take(i), p, pos) + Seq::<T>::empty() == upper(s.take(i), p, pos));
    } else {
        lemma_split_run(s, i, k - 1, p, pos, threshold);
        let whole = s.take(i + k);
        let run = s.subrange(i, i + k);
        assert(whole.drop_last() == s.take(i + k - 1));
        assert(run.drop_last() == s.subrange(i, i + k - 1));
        assert(whole.last() == run.last());
        assert(threshold_at(whole.len() - 1, p, pos) == threshold);
        let low = lower(s.take(i), p, pos);
        let high = upper(s.take(i), p, pos);
        let low_run = moved(run.drop_last(), threshold);
        let high_run = kept(run.drop_last(), threshold);
        assert((low + low_run).push(run.last()) == low + low_run.push(run.last()));
        assert((high + high_run).push(run.last()) == high + high_run.push(run.last()));
    }
}

/// The two sides of a split share out the keys of the bucket.
pub proof fn lemma_split_sides(s: Seq<T>, p: T, pos: int)
    ensures
        lower(s, p, pos).len() + upper(s, p, pos).len() == s.len(),
        lower(s, p, pos).to_multiset().add(upper(s, p, pos).to_multiset()) == s.to_multiset(),
        forall|x: int|
            0 <= x < lower(s, p, pos).len() ==> (#[trigger] lower(s, p, pos)[x]) < bound_of(p)
                && s.contains(lower(s, p, pos)[x]),
        forall|x: int|
            0 <= x < upper(s, p, pos).len() ==> (#[trigger] upper(s, p, pos)[x]) >= p && upper(
                s,
                p,
                pos,
            )[x] + 1 >= bound_of(p) && s.contains(upper(s, p, pos)[x]),
        upper(s, p, pos).len() == 0 ==> lower(s, p, pos) == s,
        lower(s, p, pos).len() == 0 ==> upper(s, p, pos) == s,
    decreases s.len(),
{
    broadcast use group_to_multiset_ensures;
    broadcast use vstd::multiset::group_multiset_axioms;

    let low = lower(s, p, pos);
    let high = upper(s, p, pos);
    if s.len() == 0 {
        assert(low.to_multiset().add(high.to_multiset()) =~= s.to_multiset());
    } else {
        let front = s.drop_last();
        let last = s.last();
        lemma_split_sides(front, p, pos);
        let low_front = lower(front, p, pos);
        let high_front = upper(front, p, pos);
        assert(s == front.push(last));
        assert(s.to_multiset() == front.to_multiset().insert(last));
        assert(low.to_multiset().add(high.to_multiset()) =~= s.to_multiset());
        assert forall|x: int| 0 <= x < low.len() implies (#[trigger] low[x]) < bound_of(p)
            && s.contains(low[x]) by {
            if x < low_front.len() {
                assert(low[x] == low_front[x]);
                let y = choose|y: int| 0 <= y < front.len() && front[y] == low_front[x];
                assert(s[y] == low[x]);
            } else {
                assert(s[s.len() - 1] == low[x]);
            }
        }
        assert forall|x: int| 0 <= x < high.len() implies (#[trigger] high[x]) >= p && high[x] + 1
            >= bound_of(p) && s.contains(high[x]) by {
            if x < high_front.len() {
                assert(high[x] == high_front[x]);
                let y = choose|y: int| 0 <= y < front.len() && front[y] == high_front[x];
                assert(s[y] == high[x]);
            } else {
                assert(s[s.len() - 1] == high[x]);
            }
        }
    }
}

/// Each key of the bucket is found on the side its threshold sends it to.
pub proof fn lemma_split_places(s: Seq<T>, p: T, pos: int, j: int)
    requires
        0 <= j < s.len(),
    ensures
        s[j] < threshold_at(j, p, pos) ==> lower(s, p, pos).contains(s[j]),
        s[j] >= threshold_at(j, p, pos) ==> upper(s, p, pos).contains(s[j]),
    decreases s.len(),
{
    let low = lower(s, p, pos);
    let high = upper(s, p, pos);
    if j == s.len() - 1 {
        if s[j] < threshold_at(j, p, pos) {
            assert(low[low.len() - 1] == s[j]);
        } else {
            assert(high[high.len() - 1] == s[j]);
        }
    } else {
        let front = s.drop_last();
        lemma_split_places(front, p, pos, j);
        if s[j] < threshold_at(j, p, pos) {
            let x = choose|x: int| 0 <= x < lower(front, p, pos).len() && lower(front, p, pos)[x]
                == front[j];
            assert(low[x] == s[j]);
        } else {
            let x = choose|x: int| 0 <= x < upper(front, p, pos).len() && upper(front, p, pos)[x]
                == front[j];
            assert(high[x] == s[j]);
        }
    }
}

/// A split around a key of the bucket makes progress: the sampled key
/// itself moves down, unless it is the largest key there is, and every key
/// above the pivot stays.
pub proof fn lemma_split_progress(s: Seq<T>, p: T, pos: int)
    requires
        0 <= pos < s.len(),
        s[pos] == p,
    ensures
        p < T::MAX ==> lower(s, p, pos).contains(p),
        forall|j: int| 0 <= j < s.len() && s[j] > p ==> upper(s, p, pos).contains(#[trigger] s[j]),
{
    lemma_split_places(s, p, pos, pos);
    assert forall|j: int| 0 <= j < s.len() && s[j] > p implies upper(s, p, pos).contains(
        #[trigger] s[j],
    ) by {
        lemma_split_places(s, p, pos, j);
    }
}

/// Empty buckets appended at the end add no key.
pub proof fn lemma_total_append_empties(buckets: Seq<Seq<T>>, n: nat)
    ensures
        total(buckets + Seq::new(n, |i: int| Seq::<T>::empty())) == total(buckets),
    decreases n,
{
    broadcast use group_to_multiset_ensures;
    broadcast use vstd::multiset::group_multiset_axioms;

    let longer = buckets + Seq::new(n, |i: int| Seq::<T>::empty());
    if n == 0 {
        assert(longer == buckets);
    } else {
        lemma_total_append_empties(buckets, (n - 1) as nat);
        assert(longer.drop_last() == buckets + Seq::new((n - 1) as nat, |i: int| Seq::<T>::empty()));
        assert(longer.last().len() == 0);
        assert(longer.last().to_multiset().len() == 0);
        assert(total(longer) =~= total(buckets));
    }
}

/// Making room keeps the invariant between attempts, the keys and every
/// layer there was.
pub proof fn lemma_grown(h: Layered)
    requires
        h.wf_splitting(),
    ensures
        h.grown().wf_splitting(),
        h.grown().contents() == h.contents(),
        h.grown().active == h.active,
        h.grown().active + 3 <= h.grown().pivots.len(),
        forall|i: int| 0 <= i < h.buckets.len() ==> h.grown().buckets[i] == h.buckets[i],
        forall|i: int| 0 <= i < h.pivots.len() ==> h.grown().pivots[i] == h.pivots[i],
{
    lemma_total_append_empties(h.buckets, L as nat);
    let g = h.grown();
    assert forall|i: int| g.active < i < g.buckets.len() implies (#[trigger] g.buckets[i]).len()
        == 0 by {
        if i < h.buckets.len() {
            assert(g.buckets[i] == h.buckets[i]);
        }
    }
    assert forall|i: int| g.active + 1 < i < g.pivots.len() implies #[trigger] g.pivots[i]
        == 0 by {
        if i < h.pivots.len() {
            assert(g.pivots[i] == h.pivots[i]);
        }
    }
    assert forall|i: int, j: int| 0 <= i <= j <= g.active implies #[trigger] g.pivots[i]
        >= #[trigger] g.pivots[j] by {
        assert(h.pivots[i] >= h.pivots[j]);
    }
    assert forall|i: int, x: int|
        1 <= i <= g.active && 0 <= x < g.buckets[i].len() implies #[trigger] g.buckets[i][x]
        < g.pivots[i] by {
        assert(h.buckets[i][x] < h.pivots[i]);
    }
    assert forall|i: int, x: int|
        0 <= i < g.active && 0 <= x < g.buckets[i].len() implies #[trigger] g.buckets[i][x] + 1
        >= g.pivots[i + 1] by {
        assert(h.buckets[i][x] + 1 >= h.pivots[i + 1]);
    }
    assert forall|i: int| 0 <= i <= g.active && g.active > 0 implies (#[trigger] g.buckets[i]).len()
        > 0 by {
        assert(h.buckets[i].len() > 0);
    }
}

/// An attempt to split the top bucket at one of its keys records the bound
/// of that key in the slot past the top layer: a positive pivot that does
/// not exceed the pivot of the top layer. The pivots of the layers in use
/// stay as they were.
pub proof fn lemma_split_records_bound(h: Layered, p: T, pos: int)
    requires
        h.wf_splitting(),
        0 <= pos < h.top().len(),
        h.top()[pos] == p,
    ensures
        h.split(p, pos).pivots[h.active as int + 1] == bound_of(p),
        1 <= bound_of(p) <= h.pivots[h.active as int],
        forall|i: int| 0 <= i <= h.active ==> h.split(p, pos).pivots[i] == h.pivots[i],
{
    lemma_grown(h);
    let a = h.active as int;
    if a > 0 {
        assert(h.buckets[a][pos] < h.pivots[a]);
    }
}

/// An attempt to split the top bucket at one of its keys keeps the keys and
/// the invariant between attempts. An attempt that takes effect leaves a
/// well-formed heap with a shorter, non-empty top bucket; one that does not
/// leaves the top bucket as it was.
pub proof fn lemma_split(h: Layered, p: T, pos: int)
    requires
        h.wf_splitting(),
        0 <= pos < h.top().len(),
        h.top()[pos] == p,
    ensures
        h.split(p, pos).wf_splitting(),
        h.split(p, pos).contents() == h.contents(),
        h.split(p, pos).active == h.active ==> h.split(p, pos).top() == h.top(),
        h.split(p, pos).active != h.active ==> h.split(p, pos).wf() && h.split(p, pos).active
            == h.active + 1 && 0 < h.split(p, pos).top().len() < h.top().len(),
{
    broadcast use vstd::multiset::group_multiset_axioms;

    let s = h.top();
    let a = h.active as int;
    let low = lower(s, p, pos);
    let high = upper(s, p, pos);
    let g = h.grown();
    let r = h.split(p, pos);
    lemma_grown(h);
    lemma_split_sides(s, p, pos);
    if low.len() == 0 || high.len() == 0 {
        assert forall|i: int| r.active + 1 < i < r.pivots.len() implies #[trigger] r.pivots[i]
            == 0 by {
            assert(r.pivots[i] == g.pivots[i]);
        }
        assert forall|i: int, j: int| 0 <= i <= j <= r.active implies #[trigger] r.pivots[i]
            >= #[trigger] r.pivots[j] by {
            assert(g.pivots[i] >= g.pivots[j]);
        }
    } else {
        let with_high = g.buckets.update(a, high);
        lemma_total_update(g.buckets, a, high);
        lemma_total_update(with_high, a + 1, low);
        assert(g.buckets[a + 1].len() == 0);
        assert(with_high[a + 1] == g.buckets[a + 1]);
        assert(g.buckets[a + 1].to_multiset().len() == 0) by {
            broadcast use group_to_multiset_ensures;

        }
        assert(g.buckets[a] == s);
        assert forall|k: T| r.contents().count(k) == h.contents().count(k) by {
            assert(total(with_high).add(s.to_multiset()).count(k) == total(g.buckets).add(
                high.to_multiset(),
            ).count(k));
            assert(total(r.buckets).add(with_high[a + 1].to_multiset()).count(k) == total(
                with_high,
            ).add(low.to_multiset()).count(k));
            assert(low.to_multiset().add(high.to_multiset()).count(k) == s.to_multiset().count(k));
        }
        assert(r.contents() =~= h.contents());
        assert(r.top() == low);
        assert(bound_of(p) <= h.pivots[a]) by {
            if a > 0 {
                assert(h.buckets[a][pos] < h.pivots[a]);
            }
        }
        assert forall|i: int| r.active < i < r.buckets.len() implies (#[trigger] r.buckets[i]).len()
            == 0 by {
            assert(r.buckets[i] == g.buckets[i]);
        }
        assert forall|i: int| r.active < i < r.pivots.len() implies #[trigger] r.pivots[i]
            == 0 by {
            assert(r.pivots[i] == g.pivots[i]);
        }
        assert forall|i: int, j: int| 0 <= i <= j <= r.active implies #[trigger] r.pivots[i]
            >= #[trigger] r.pivots[j] by {
            if j <= a {
                assert(g.pivots[i] >= g.pivots[j]);
            } else if i <= a {
                assert(g.pivots[i] >= g.pivots[a]);
            }
        }
        assert forall|i: int, x: int|
            1 <= i <= r.active && 0 <= x < r.buckets[i].len() implies #[trigger] r.buckets[i][x]
            < r.pivots[i] by {
            if i == a + 1 {
                assert(low[x] < bound_of(p));
            } else if i == a {
                assert(s.contains(high[x]));
                let y = choose|y: int| 0 <= y < s.len() && s[y] == high[x];
                assert(g.buckets[a][y] < g.pivots[a]);
            } else {
                assert(g.buckets[i][x] < g.pivots[i]);
            }
        }
        assert forall|i: int, x: int|
            0 <= i < r.active && 0 <= x < r.buckets[i].len() implies #[trigger] r.buckets[i][x] + 1
            >= r.pivots[i + 1] by {
            if i == a {
                assert(high[x] + 1 >= bound_of(p));
            } else {
                assert(g.buckets[i][x] + 1 >= g.pivots[i + 1]);
            }
        }
        assert forall|i: int| 0 <= i <= r.active && r.active > 0 implies (
        #[trigger] r.buckets[i]).len() > 0 by {
            if i < a {
                assert(g.buckets[i].len() > 0);
            }
        }
    }
}

/// An attempt to split around the median of keys sampled from the top
/// bucket keeps the keys and the invariant between attempts. An attempt
/// that takes effect leaves a well-formed heap with a shorter, non-empty
/// top bucket; one that does not leaves the top bucket as it was.
pub proof fn lemma_split_at(h: Layered, positions: Seq<usize>)
    requires
        h.wf_splitting(),
        forall|i: int| 0 <= i < positions.len() ==> positions[i] < h.top().len(),
    ensures
        h.split_at(positions).wf_splitting(),
        h.split_at(positions).contents() == h.contents(),
        h.split_at(positions).active == h.active ==> h.split_at(positions).top() == h.top(),
        h.split_at(positions).active != h.active ==> h.split_at(positions).wf() && h.split_at(
            positions,
        ).active == h.active + 1 && 0 < h.split_at(positions).top().len() < h.top().len(),
{
    if positions.len() > 0 {
        let samples = samples_of(h.top(), positions);
        lemma_median_is_sample(samples);
        let m = median_of(samples);
        let k = choose|k: int| 0 <= k < samples.len() && samples[k] == m;
        assert(samples[k] == (h.top()[positions[k] as int], positions[k]));
        lemma_split(h, m.0, m.1 as int);
    }
}

/// An attempt to split around the median of keys sampled from the top
/// bucket records a positive pivot in the slot past the top layer, no
/// larger than the pivot of the top layer, and leaves the pivots of the
/// layers in use as they were.
pub proof fn lemma_split_at_records_bound(h: Layered, positions: Seq<usize>)
    requires
        h.wf_splitting(),
        positions.len() > 0,
        forall|i: int| 0 <= i < positions.len() ==> positions[i] < h.top().len(),
    ensures
        h.split_at(positions).pivots[h.active as int + 1] == bound_of(
            median_of(samples_of(h.top(), positions)).0,
        ),
        1 <= h.split_at(positions).pivots[h.active as int + 1] <= h.pivots[h.active as int],
        forall|i: int| 0 <= i <= h.active ==> h.split_at(positions).pivots[i] == h.pivots[i],
{
    let samples = samples_of(h.top(), positions);
    lemma_median_is_sample(samples);
    let m = median_of(samples);
    let k = choose|k: int| 0 <= k < samples.len() && samples[k] == m;
    assert(samples[k] == (h.top()[positions[k] as int], positions[k]));
    lemma_split_records_bound(h, m.0, m.1 as int);
}

} // verus!
