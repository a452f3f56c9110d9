//! Median-of-samples pivot selection.

use vstd::prelude::*;
use vstd::relations::{sorted_by, total_ordering};
use vstd::seq_lib::*;
use crate::T;

verus! {

/// A sampled key together with the position it was read from.
pub type Sample = (T, usize);

/// Samples are ordered by key, and by position among equal keys.
pub open spec fn sample_leq(a: Sample, b: Sample) -> bool {
    a.0 < b.0 || (a.0 == b.0 && a.1 <= b.1)
}

/// `sample_leq` as a relation value.
pub open spec fn sample_order() -> spec_fn(Sample, Sample) -> bool {
    |a: Sample, b: Sample| sample_leq(a, b)
}

/// The samples read from `bucket` at `positions`.
pub open spec fn samples_of(bucket: Seq<T>, positions: Seq<usize>) -> Seq<Sample> {
    Seq::new(positions.len(), |i: int| (bucket[positions[i] as int], positions[i]))
}

/// The sample in the middle of the sorted samples (the upper one of the
/// two middle samples when their number is even).
pub open spec fn median_of(samples: Seq<Sample>) -> Sample {
    samples.sort_by(sample_order())[samples.len() as int / 2]
}

/// The order on samples is total.
pub proof fn lemma_sample_order_total()
    ensures
        total_ordering(sample_order()),
{
    let leq = sample_order();
    assert forall|x: Sample, y: Sample| #[trigger] leq(x, y) && #[trigger] leq(y, x) implies x
        == y by {}
}

/// The median sample is one of the samples.
pub proof fn lemma_median_is_sample(samples: Seq<Sample>)
    requires
        samples.len() > 0,
    ensures
        samples.contains(median_of(samples)),
{
    broadcast use group_to_multiset_ensures;

    lemma_sample_order_total();
    samples.lemma_sort_by_ensures(sample_order());
    let sorted = samples.sort_by(sample_order());
    assert(sorted.len() == samples.len()) by {
        assert(sorted.to_multiset().len() == samples.to_multiset().len());
    }
    let m = median_of(samples);
    assert(sorted[samples.len() as int / 2] == m);
    assert(sorted.contains(m));
    if !samples.contains(m) {
        assert(!sorted.contains(m));
    }
}

/// Reads the keys of `bucket` at `positions` and returns the median sample.
pub fn median_sample(bucket: &Vec<T>, positions: &Vec<usize>) -> (r: Sample)
    requires
        positions@.len() > 0,
        forall|i: int| 0 <= i < positions@.len() ==> positions@[i] < bucket@.len(),
    ensures
        r == median_of(samples_of(bucket@, positions@)),
        r.1 < bucket@.len(),
        bucket@[r.1 as int] == r.0,
{
    let ghost samples = samples_of(bucket@, positions@);
    let mut sorted: Vec<Sample> = Vec::new();
    let mut i: usize = 0;
    assert(sorted@ == samples.take(0));
    while i < positions.len()
        invariant
            i <= positions@.len(),
            samples == samples_of(bucket@, positions@),
            forall|i: int| 0 <= i < positions@.len() ==> positions@[i] < bucket@.len(),
            sorted@.len() == i,
            sorted_by(sorted@, sample_order()),
            sorted@.to_multiset() == samples.take(i as int).to_multiset(),
        decreases positions@.len() - i,
    {
        let pos = positions[i];
        let sample: Sample = (bucket[pos], pos);
        let mut j: usize = 0;
        while j < sorted.len() && (sorted[j].0 < sample.0 || (sorted[j].0 == sample.0 && sorted[j].1
            <= sample.1))
            invariant
                j <= sorted@.len(),
                forall|k: int| 0 <= k < j ==> sample_leq(sorted@[k], sample),
            decreases sorted@.len() - j,
        {
            j += 1;
        }
        proof {
            let before = sorted@;
            let after = before.insert(j as int, sample);
            to_multiset_insert(before, j as int, sample);
            assert(samples.take(i as int + 1) == samples.take(i as int).push(sample));
            to_multiset_build(samples.take(i as int), sample);
            let leq = sample_order();
            assert forall|a: int, b: int| 0 <= a < b < after.len() implies #[trigger] leq(
                after[a],
                after[b],
            ) by {
                if b < j {
                    assert(leq(before[a], before[b]));
                } else if b == j {
                } else if a < j {
                    assert(leq(before[a], before[b - 1]));
                } else if a == j {
                    assert(!sample_leq(before[j as int], sample));
                    if b - 1 > j {
                        assert(leq(before[j as int], before[b - 1]));
                    }
                } else {
                    assert(leq(before[a - 1], before[b - 1]));
                }
            }
        }
        sorted.insert(j, sample);
        i += 1;
    }
    proof {
        assert(samples.take(samples.len() as int) == samples);
        lemma_sample_order_total();
        samples.lemma_sort_by_ensures(sample_order());
        lemma_sorted_unique(sorted@, samples.sort_by(sample_order()), sample_order());
        lemma_median_is_sample(samples);
    }
    let r = sorted[positions.len() / 2];
    proof {
        let k = choose|k: int| 0 <= k < samples.len() && samples[k] == r;
        assert(samples[k] == (bucket@[positions@[k] as int], positions@[k]));
    }
    r
}

} // verus!
