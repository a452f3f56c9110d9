use quickheap::{Heap, QuickHeap, T};
use std::cmp::Reverse;
use std::collections::BinaryHeap;

/// Checks the shape of the layers between two operations.
fn check_layers<const N: usize, const M: usize>(h: &QuickHeap<N, M>) {
    let layer = h.layer();
    let pivots = h.pivots();
    assert!(layer + 2 <= pivots.len());
    assert_eq!(pivots[0], T::MAX);
    for i in 0..layer {
        assert!(pivots[i] >= pivots[i + 1]);
    }
    for i in 1..=layer {
        assert!(pivots[i] >= 1);
        for &k in h.bucket(i).unwrap() {
            assert!(k < pivots[i]);
        }
    }
    for i in 0..layer {
        for &k in h.bucket(i).unwrap() {
            assert!(k as u64 + 1 >= pivots[i + 1] as u64);
        }
    }
    for i in (layer + 1)..pivots.len() {
        assert_eq!(pivots[i], 0);
        assert!(h.bucket(i).unwrap().is_empty());
    }
    if layer > 0 {
        for i in 0..=layer {
            assert!(!h.bucket(i).unwrap().is_empty());
        }
    }
    assert!(h.bucket(pivots.len()).is_none());
    assert_eq!(h.is_empty(), h.bucket(layer).unwrap().is_empty());
}

/// Runs a random sequence of pushes and pops against a reference heap and
/// checks every answer and the layers after every operation.
fn random_run<const N: usize, const M: usize>(seed: u64, steps: usize, bound: T, push_odds: u32) {
    let mut rng = fastrand::Rng::with_seed(seed);
    let mut h = <QuickHeap<N, M> as Heap>::default();
    let mut reference: BinaryHeap<Reverse<T>> = BinaryHeap::new();
    let mut pushed: Vec<T> = Vec::new();
    let mut popped: Vec<T> = Vec::new();
    check_layers(&h);
    for _ in 0..steps {
        if rng.u32(0..100) < push_odds {
            let k = match rng.u32(0..20) {
                0 => 0,
                1 => T::MAX,
                2 => T::MAX - 1,
                _ => rng.u32(0..bound),
            };
            h.push(k);
            reference.push(Reverse(k));
            pushed.push(k);
        } else {
            let expected = reference.pop().map(|k| k.0);
            assert_eq!(h.is_empty(), expected.is_none());
            let r = h.pop();
            assert_eq!(r, expected);
            if let Some(k) = r {
                popped.push(k);
            }
        }
        check_layers(&h);
    }
    // What was pushed is what was popped together with what is still held.
    let mut rest: Vec<T> = Vec::new();
    let mut last: Option<T> = None;
    while let Some(k) = h.pop() {
        assert!(last.map_or(true, |l| l <= k));
        last = Some(k);
        rest.push(k);
        check_layers(&h);
    }
    assert!(h.is_empty());
    assert_eq!(h.layer(), 0);
    let mut all = popped.clone();
    all.extend(rest);
    all.sort();
    pushed.sort();
    assert_eq!(all, pushed);
}

#[test]
fn random_runs_agree_with_a_reference_heap() {
    for seed in 0..20 {
        random_run::<16, 3>(seed, 3000, 1_000_000, 60);
        random_run::<16, 1>(seed, 3000, 1_000_000, 60);
    }
}

#[test]
fn random_runs_with_many_duplicates() {
    for seed in 0..20 {
        random_run::<16, 3>(100 + seed, 3000, 5, 65);
        random_run::<4, 1>(100 + seed, 3000, 2, 65);
    }
}

#[test]
fn random_runs_that_often_hit_the_empty_heap() {
    for seed in 0..20 {
        random_run::<16, 3>(200 + seed, 2000, 1000, 45);
        random_run::<2, 1>(200 + seed, 2000, 1000, 50);
    }
}

#[test]
fn random_runs_with_unusual_parameters() {
    for seed in 0..10 {
        random_run::<1, 1>(300 + seed, 2000, 100, 60);
        random_run::<0, 1>(300 + seed, 500, 100, 60);
        random_run::<16, 0>(300 + seed, 2000, 100, 60);
        random_run::<8, 4>(300 + seed, 2000, 100, 60);
        random_run::<64, 5>(300 + seed, 4000, 100_000, 70);
    }
}

#[test]
fn successive_pops_never_decrease() {
    let mut rng = fastrand::Rng::with_seed(42);
    let mut h = <QuickHeap<16, 3> as Heap>::default();
    for _ in 0..20_000 {
        h.push(rng.u32(..));
    }
    let mut last = 0;
    for _ in 0..20_000 {
        let k = h.pop().unwrap();
        assert!(last <= k);
        last = k;
    }
    assert_eq!(h.pop(), None);
}

#[test]
fn pops_never_decrease_while_pushes_stay_above_the_last_pop() {
    let mut rng = fastrand::Rng::with_seed(43);
    let mut h = <QuickHeap<16, 3> as Heap>::default();
    for _ in 0..100 {
        h.push(rng.u32(0..1000));
    }
    let mut last = 0;
    for _ in 0..50_000 {
        let k = h.pop().unwrap();
        assert!(last <= k);
        last = k;
        h.push(k + rng.u32(0..50));
    }
}

#[test]
fn pop_is_absent_exactly_on_the_empty_heap() {
    let mut h = <QuickHeap<16, 3> as Heap>::default();
    assert!(h.is_empty());
    assert_eq!(h.pop(), None);
    h.push(3);
    h.push(3);
    assert!(!h.is_empty());
    assert_eq!(h.pop(), Some(3));
    assert!(!h.is_empty());
    assert_eq!(h.pop(), Some(3));
    assert!(h.is_empty());
    assert_eq!(h.pop(), None);
    h.push(0);
    assert!(!h.is_empty());
    assert_eq!(h.pop(), Some(0));
    assert_eq!(h.pop(), None);
}

#[test]
fn large_top_bucket_is_split_before_the_minimum_is_taken() {
    let mut h = <QuickHeap<16, 3> as Heap>::default();
    for k in 0..10_000 {
        h.push((k * 7919) % 10_007);
    }
    assert_eq!(h.layer(), 0);
    assert_eq!(h.bucket(0).unwrap().len(), 10_000);
    assert_eq!(h.pop(), Some(0));
    assert!(h.layer() > 0);
    let held: usize = (0..=h.layer()).map(|i| h.bucket(i).unwrap().len()).sum();
    assert_eq!(held, 9_999);
    assert!(h.bucket(0).unwrap().len() < 9_999);
    check_layers(&h);
}
