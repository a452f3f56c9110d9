//! The mathematical model of a layered heap: pivots, buckets and the
//! invariant that ties them together.

use vstd::prelude::*;
use vstd::multiset::Multiset;
use vstd::seq_lib::*;
use crate::T;
use crate::heap::is_min;
use crate::lanes::{count_above, is_first_min, lemma_count_above_is_prefix};

verus! {

/// Number of layers a fresh heap has room for.
pub const SLOTS: usize = 128;

/// All keys of a sequence of buckets, with multiplicity.
pub open spec fn total(buckets: Seq<Seq<T>>) -> Multiset<T>
    decreases buckets.len(),
{
    if buckets.len() == 0 {
        Multiset::empty()
    } else {
        total(buckets.drop_last()).add(buckets.last().to_multiset())
    }
}

/// The abstract state of a layered heap.
///
/// `buckets[0..=active]` are the layers in use, `pivots[i]` for `i >= 1` is
/// the exclusive upper bound of layer `i`, and `0` marks a layer as unused.
/// `pivots[0]` is the largest key and bounds nothing: the first layer takes
/// every key that no deeper layer takes, the largest key included.
pub struct Layered {
    /// Index of the layer that holds the smallest keys.
    pub active: nat,
    /// One pivot per layer.
    pub pivots: Seq<T>,
    /// The keys of each layer, in the order they are stored.
    pub buckets: Seq<Seq<T>>,
}

impl Layered {
    /// The layers of a heap that holds no key yet.
    pub open spec fn fresh() -> Layered {
        Layered {
            active: 0,
            pivots: Seq::new(SLOTS as nat, |i: int| if i == 0 { T::MAX } else { 0u32 }),
            buckets: Seq::new(SLOTS as nat, |i: int| Seq::<T>::empty()),
        }
    }

    /// The layer a new key `t` goes to: the deepest one whose pivot exceeds it.
    pub open spec fn target(self, t: T) -> int {
        count_above(self.pivots, self.active, t) as int
    }

    /// The layers after `t` is appended to the bucket of its layer.
    pub open spec fn put(self, t: T) -> Layered {
        Layered {
            active: self.active,
            pivots: self.pivots,
            buckets: self.buckets.update(self.target(t), self.buckets[self.target(t)].push(t)),
        }
    }

    /// The keys held, with multiplicity.
    pub open spec fn contents(self) -> Multiset<T> {
        total(self.buckets)
    }

    /// Pivots and buckets run in parallel and leave room for one more layer.
    pub open spec fn shaped(self) -> bool {
        &&& self.pivots.len() == self.buckets.len()
        &&& self.active + 2 <= self.pivots.len()
        &&& self.pivots[0] == T::MAX
    }

    /// Every layer above the active one is unused and empty.
    pub open spec fn unused_above(self) -> bool {
        &&& forall|i: int| self.active < i < self.pivots.len() ==> #[trigger] self.pivots[i] == 0
        &&& forall|i: int|
            self.active < i < self.buckets.len() ==> (#[trigger] self.buckets[i]).len() == 0
    }

    /// Every layer above the active one is empty, and every slot past the
    /// next one is unused.
    pub open spec fn unused_beyond(self) -> bool {
        &&& forall|i: int|
            self.active + 1 < i < self.pivots.len() ==> #[trigger] self.pivots[i] == 0
        &&& forall|i: int|
            self.active < i < self.buckets.len() ==> (#[trigger] self.buckets[i]).len() == 0
    }

    /// The pivots of the layers in use never increase with depth.
    pub open spec fn pivots_ordered(self) -> bool {
        forall|i: int, j: int|
            0 <= i <= j <= self.active ==> #[trigger] self.pivots[i] >= #[trigger] self.pivots[j]
    }

    /// Every key of a layer `i >= 1` lies strictly below that layer's pivot.
    pub open spec fn bounded_above(self) -> bool {
        forall|i: int, x: int|
            1 <= i <= self.active && 0 <= x < self.buckets[i].len() ==> #[trigger] self.buckets[i][x]
                < self.pivots[i]
    }

    /// Every key of a layer with a deeper neighbour is at least that
    /// neighbour's pivot minus one.
    pub open spec fn bounded_below(self) -> bool {
        forall|i: int, x: int|
            0 <= i < self.active && 0 <= x < self.buckets[i].len() ==> #[trigger] self.buckets[i][x]
                + 1 >= self.pivots[i + 1]
    }

    /// Once a second layer exists, no layer in use is empty.
    pub open spec fn populated(self) -> bool {
        forall|i: int|
            0 <= i <= self.active && self.active > 0 ==> (#[trigger] self.buckets[i]).len() > 0
    }

    /// The invariant of the layered heap.
    pub open spec fn wf(self) -> bool {
        &&& self.shaped()
        &&& self.unused_above()
        &&& self.pivots_ordered()
        &&& self.bounded_above()
        &&& self.bounded_below()
        &&& self.populated()
    }

    /// The invariant between two attempts to split the top bucket: as `wf`,
    /// except that the slot past the top layer may still hold the bound
    /// recorded by an attempt that had no effect.
    pub open spec fn wf_splitting(self) -> bool {
        &&& self.shaped()
        &&& self.unused_beyond()
        &&& self.pivots_ordered()
        &&& self.bounded_above()
        &&& self.bounded_below()
        &&& self.populated()
    }

    /// The same layers with the slot past the top layer marked unused.
    pub open spec fn settled(self) -> Layered {
        Layered {
            active: self.active,
            pivots: self.pivots.update(self.active as int + 1, 0),
            buckets: self.buckets,
        }
    }

    /// The bucket that holds the smallest keys.
    pub open spec fn top(self) -> Seq<T> {
        self.buckets[self.active as int]
    }

    /// The layers after the first smallest key of the top bucket is removed.
    pub open spec fn take_min(self) -> Layered {
        self.take_out(choose|x: int| is_first_min(self.top(), x))
    }

    /// The layers after the key at index `x` of the top bucket is removed by
    /// moving the last key into its place. A top layer that runs empty is
    /// retired, unless it is the only one.
    pub open spec fn take_out(self, x: int) -> Layered {
        let rest = self.top().update(x, self.top().last()).drop_last();
        if rest.len() == 0 && self.active > 0 {
            Layered {
                active: (self.active - 1) as nat,
                pivots: self.pivots.update(self.active as int, 0),
                buckets: self.buckets.update(self.active as int, rest),
            }
        } else {
            Layered {
                active: self.active,
                pivots: self.pivots,
                buckets: self.buckets.update(self.active as int, rest),
            }
        }
    }
}

/// Replacing one bucket replaces exactly its keys in the total.
pub proof fn lemma_total_update(buckets: Seq<Seq<T>>, j: int, bucket: Seq<T>)
    requires
        0 <= j < buckets.len(),
    ensures
        total(buckets.update(j, bucket)).add(buckets[j].to_multiset()) == total(buckets).add(
            bucket.to_multiset(),
        ),
    decreases buckets.len(),
{
    broadcast use vstd::multiset::group_multiset_axioms;

    let updated = buckets.update(j, bucket);
    let front = buckets.drop_last();
    assert(total(buckets) == total(front).add(buckets.last().to_multiset()));
    assert(total(updated) == total(updated.drop_last()).add(updated.last().to_multiset()));
    if j == buckets.len() - 1 {
        assert(updated.drop_last() == front);
        assert(updated.last() == bucket);
    } else {
        lemma_total_update(front, j, bucket);
        assert(updated.drop_last() == front.update(j, bucket));
        assert(front[j] == buckets[j]);
        assert(updated.last() == buckets.last());
        let lhs = total(front.update(j, bucket)).add(buckets[j].to_multiset());
        let rhs = total(front).add(bucket.to_multiset());
        assert(lhs == rhs);
        assert forall|k: T|
            total(updated).add(buckets[j].to_multiset()).count(k) == total(buckets).add(
                bucket.to_multiset(),
            ).count(k) by {
            assert(lhs.count(k) == rhs.count(k));
        }
    }
    assert(total(updated).add(buckets[j].to_multiset()) =~= total(buckets).add(
        bucket.to_multiset(),
    ));
}

/// Buckets that are all empty hold no key.
pub proof fn lemma_total_of_empties(buckets: Seq<Seq<T>>)
    requires
        forall|i: int| 0 <= i < buckets.len() ==> (#[trigger] buckets[i]).len() == 0,
    ensures
        total(buckets) == Multiset::<T>::empty(),
    decreases buckets.len(),
{
    broadcast use group_to_multiset_ensures;

    if buckets.len() > 0 {
        lemma_total_of_empties(buckets.drop_last());
        assert(buckets.last().len() == 0);
        assert(buckets.last().to_multiset().len() == 0);
        assert(total(buckets) =~= Multiset::<T>::empty());
    }
}

/// A key is in the total exactly when some bucket holds it.
pub proof fn lemma_total_contains(buckets: Seq<Seq<T>>, k: T)
    ensures
        total(buckets).count(k) > 0 <==> exists|i: int, x: int|
            0 <= i < buckets.len() && 0 <= x < buckets[i].len() && #[trigger] buckets[i][x] == k,
    decreases buckets.len(),
{
    broadcast use group_to_multiset_ensures;

    if buckets.len() > 0 {
        let front = buckets.drop_last();
        let last = buckets.last();
        lemma_total_contains(front, k);
        if total(buckets).count(k) > 0 {
            if last.to_multiset().count(k) > 0 {
                assert(last.contains(k));
                let x = choose|x: int| 0 <= x < last.len() && last[x] == k;
                assert(buckets[buckets.len() - 1][x] == k);
            } else {
                let (i, x) = choose|i: int, x: int|
                    0 <= i < front.len() && 0 <= x < front[i].len() && #[trigger] front[i][x] == k;
                assert(buckets[i][x] == k);
            }
        }
        if exists|i: int, x: int|
            0 <= i < buckets.len() && 0 <= x < buckets[i].len() && #[trigger] buckets[i][x] == k {
            let (i, x) = choose|i: int, x: int|
                0 <= i < buckets.len() && 0 <= x < buckets[i].len() && #[trigger] buckets[i][x]
                    == k;
            if i == buckets.len() - 1 {
                assert(last.contains(k));
            } else {
                assert(front[i][x] == k);
            }
        }
    }
}

/// A fresh heap is well-formed and holds no key.
pub proof fn lemma_fresh()
    ensures
        Layered::fresh().wf(),
        Layered::fresh().contents() == Multiset::<T>::empty(),
{
    lemma_total_of_empties(Layered::fresh().buckets);
}

/// Putting a key into its layer keeps the invariant and adds one occurrence
/// of the key.
pub proof fn lemma_put(h: Layered, t: T)
    requires
        h.wf(),
    ensures
        0 <= h.target(t) <= h.active,
        h.put(t).wf(),
        h.put(t).contents() == h.contents().insert(t),
{
    broadcast use vstd::multiset::group_multiset_axioms;

    lemma_count_above_is_prefix(h.pivots, h.active, t);
    let target = h.target(t);
    let bucket = h.buckets[target].push(t);
    let r = h.put(t);
    lemma_total_update(h.buckets, target, bucket);
    to_multiset_build(h.buckets[target], t);
    let moved = h.buckets[target].to_multiset();
    assert forall|k: T| r.contents().count(k) == h.contents().insert(t).count(k) by {
        assert(total(r.buckets).add(moved).count(k) == total(h.buckets).add(
            bucket.to_multiset(),
        ).count(k));
    }
    assert(r.contents() =~= h.contents().insert(t));
    assert forall|i: int| r.active < i < r.buckets.len() implies (#[trigger] r.buckets[i]).len()
        == 0 by {
        assert(r.buckets[i] == h.buckets[i]);
    }
    assert forall|i: int, x: int|
        1 <= i <= r.active && 0 <= x < r.buckets[i].len() implies #[trigger] r.buckets[i][x]
        < r.pivots[i] by {
        if i == target && x == bucket.len() - 1 {
        } else {
            assert(r.buckets[i][x] == h.buckets[i][x]);
        }
    }
    assert forall|i: int, x: int|
        0 <= i < r.active && 0 <= x < r.buckets[i].len() implies #[trigger] r.buckets[i][x] + 1
        >= r.pivots[i + 1] by {
        if i == target && x == bucket.len() - 1 {
        } else {
            assert(r.buckets[i][x] == h.buckets[i][x]);
        }
    }
    assert forall|i: int| 0 <= i <= r.active && r.active > 0 implies (#[trigger] r.buckets[i]).len()
        > 0 by {
        if i != target {
            assert(r.buckets[i] == h.buckets[i]);
        } else {
            assert(h.buckets[i].len() > 0);
        }
    }
}

/// Marking the slot past the top layer unused restores the invariant and
/// changes nothing else; on a well-formed heap it changes nothing at all.
pub proof fn lemma_settled(h: Layered)
    requires
        h.wf_splitting(),
    ensures
        h.settled().wf(),
        h.settled().contents() == h.contents(),
        h.settled().top() == h.top(),
        h.wf() ==> h.settled() == h,
{
    let r = h.settled();
    assert forall|i: int| r.active < i < r.pivots.len() implies #[trigger] r.pivots[i] == 0 by {
        if i > r.active + 1 {
            assert(h.pivots[i] == 0);
        }
    }
    assert forall|i: int, j: int| 0 <= i <= j <= r.active implies #[trigger] r.pivots[i]
        >= #[trigger] r.pivots[j] by {
        assert(h.pivots[i] >= h.pivots[j]);
    }
    if h.wf() {
        assert(h.pivots[h.active as int + 1] == 0);
        assert(r.pivots =~= h.pivots);
    }
}

/// Moving the last key into the place of another removes one occurrence of
/// the key that was there.
pub proof fn lemma_swap_remove(s: Seq<T>, x: int)
    requires
        0 <= x < s.len(),
    ensures
        s.update(x, s.last()).drop_last().to_multiset() == s.to_multiset().remove(s[x]),
        forall|y: int|
            0 <= y < s.len() - 1 ==> s.contains(#[trigger] s.update(x, s.last()).drop_last()[y]),
{
    broadcast use group_to_multiset_ensures;
    broadcast use vstd::multiset::group_multiset_axioms;

    let front = s.drop_last();
    let rest = s.update(x, s.last()).drop_last();
    assert(s == front.push(s.last()));
    assert(s.to_multiset() == front.to_multiset().insert(s.last()));
    if x == s.len() - 1 {
        assert(rest == front);
        assert(rest.to_multiset() =~= s.to_multiset().remove(s[x]));
    } else {
        assert(rest == front.update(x, s.last()));
        to_multiset_update(front, x, s.last());
        assert(front[x] == s[x]);
        assert(rest.to_multiset() =~= s.to_multiset().remove(s[x]));
    }
    assert forall|y: int| 0 <= y < s.len() - 1 implies s.contains(#[trigger] rest[y]) by {
        if y == x {
            assert(s[s.len() - 1] == rest[y]);
        } else {
            assert(s[y] == rest[y]);
        }
    }
}

/// Removing a key from the top bucket keeps the invariant and removes one
/// occurrence of that key from the heap.
pub proof fn lemma_take_out(h: Layered, x: int)
    requires
        h.wf(),
        0 <= x < h.top().len(),
    ensures
        h.take_out(x).wf(),
        h.take_out(x).contents() == h.contents().remove(h.top()[x]),
{
    broadcast use vstd::multiset::group_multiset_axioms;

    let a = h.active as int;
    let s = h.top();
    let rest = s.update(x, s.last()).drop_last();
    let r = h.take_out(x);
    lemma_swap_remove(s, x);
    lemma_total_update(h.buckets, a, rest);
    assert(r.buckets == h.buckets.update(a, rest));
    assert(s.to_multiset().count(s[x]) > 0) by {
        broadcast use group_to_multiset_ensures;

        assert(s.contains(s[x]));
    }
    assert forall|k: T| r.contents().count(k) == h.contents().remove(s[x]).count(k) by {
        assert(total(r.buckets).add(s.to_multiset()).count(k) == total(h.buckets).add(
            rest.to_multiset(),
        ).count(k));
    }
    assert(r.contents() =~= h.contents().remove(s[x]));
    assert forall|i: int| r.active < i < r.buckets.len() implies (#[trigger] r.buckets[i]).len()
        == 0 by {
        if i != a {
            assert(r.buckets[i] == h.buckets[i]);
        }
    }
    assert forall|i: int| r.active < i < r.pivots.len() implies #[trigger] r.pivots[i] == 0 by {
        if i != a {
            assert(r.pivots[i] == h.pivots[i]);
        }
    }
    assert forall|i: int, j: int| 0 <= i <= j <= r.active implies #[trigger] r.pivots[i]
        >= #[trigger] r.pivots[j] by {
        assert(h.pivots[i] >= h.pivots[j]);
    }
    assert forall|i: int, y: int|
        1 <= i <= r.active && 0 <= y < r.buckets[i].len() implies #[trigger] r.buckets[i][y]
        < r.pivots[i] by {
        if i == a {
            assert(s.contains(rest[y]));
            let z = choose|z: int| 0 <= z < s.len() && s[z] == rest[y];
            assert(h.buckets[a][z] < h.pivots[a]);
        } else {
            assert(h.buckets[i][y] < h.pivots[i]);
        }
    }
    assert forall|i: int, y: int|
        0 <= i < r.active && 0 <= y < r.buckets[i].len() implies #[trigger] r.buckets[i][y] + 1
        >= r.pivots[i + 1] by {
        assert(h.buckets[i][y] + 1 >= h.pivots[i + 1]);
    }
    assert forall|i: int| 0 <= i <= r.active && r.active > 0 implies (#[trigger] r.buckets[i]).len()
        > 0 by {
        if i != a {
            assert(h.buckets[i].len() > 0);
        }
    }
}

/// The pivots of a well-formed heap start at the largest key, never increase
/// over the layers in use, and are positive below the first layer.
pub proof fn lemma_pivots_never_increase(h: Layered)
    requires
        h.wf(),
    ensures
        h.pivots[0] == T::MAX,
        forall|i: int, j: int| 0 <= i <= j <= h.active ==> h.pivots[i] >= h.pivots[j],
        forall|i: int| 1 <= i <= h.active ==> h.pivots[i] >= 1,
{
    assert forall|i: int| 1 <= i <= h.active implies h.pivots[i] >= 1 by {
        assert(h.buckets[i].len() > 0);
        assert(h.buckets[i][0] < h.pivots[i]);
    }
}

/// In a well-formed heap with more than one layer no layer in use is empty,
/// every layer beyond is empty, and the heap as a whole is empty exactly
/// when its top bucket is.
pub proof fn lemma_layers_populated(h: Layered)
    requires
        h.wf(),
    ensures
        forall|i: int| 0 <= i <= h.active && h.active > 0 ==> h.buckets[i].len() > 0,
        forall|i: int| h.active < i < h.buckets.len() ==> h.buckets[i].len() == 0,
        h.contents().len() == 0 <==> h.top().len() == 0,
{
    broadcast use vstd::multiset::group_multiset_axioms;

    if h.top().len() == 0 {
        assert(h.active == 0);
        assert forall|i: int| 0 <= i < h.buckets.len() implies (#[trigger] h.buckets[i]).len()
            == 0 by {}
        lemma_total_of_empties(h.buckets);
    } else {
        let k = h.top()[0];
        assert(h.buckets[h.active as int][0] == k);
        lemma_total_contains(h.buckets, k);
        assert(h.contents().count(k) <= h.contents().len());
    }
}

/// The smallest key of the top bucket is a smallest key of the whole heap.
pub proof fn lemma_top_min_is_min(h: Layered, m: T)
    requires
        h.wf(),
        h.top().contains(m),
        forall|x: int| 0 <= x < h.top().len() ==> m <= h.top()[x],
    ensures
        is_min(h.contents(), m),
{
    let a = h.active as int;
    let x0 = choose|x: int| 0 <= x < h.top().len() && h.top()[x] == m;
    assert(h.buckets[a][x0] == m);
    lemma_total_contains(h.buckets, m);
    assert forall|k: T| #[trigger] h.contents().count(k) > 0 implies m <= k by {
        lemma_total_contains(h.buckets, k);
        let (i, x) = choose|i: int, x: int|
            0 <= i < h.buckets.len() && 0 <= x < h.buckets[i].len() && #[trigger] h.buckets[i][x]
                == k;
        if i < a {
            assert(h.buckets[i][x] + 1 >= h.pivots[i + 1]);
            assert(h.pivots[i + 1] >= h.pivots[a]);
            assert(h.buckets[a][x0] < h.pivots[a]);
        } else if i == a {
        } else {
            assert(h.buckets[i].len() == 0);
        }
    }
}

} // verus!
