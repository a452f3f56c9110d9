use quickheap::workloads::{
    increasing_linear_mix, increasing_random_mix, linear, linear_mix, linear_rev, linear_rev_mix,
    natural, push_keys, push_linear, push_linear_rev, push_random, random, random_alternate,
    random_mix, shuffled_keys, sizes, SPREAD,
};
use quickheap::{Heap, QuickHeap, T};
use std::cmp::Reverse;
use std::collections::BinaryHeap;

type Q = QuickHeap<16, 3>;

#[derive(Debug, Clone, Copy, PartialEq, Eq)]
enum Event {
    Push(T),
    Pop(Option<T>),
}

/// A heap that keeps a log of what was asked of it and what it answered.
struct Recorder {
    heap: BinaryHeap<Reverse<T>>,
    log: Vec<Event>,
}

impl Heap for Recorder {
    fn default() -> Self {
        Recorder { heap: BinaryHeap::new(), log: Vec::new() }
    }

    fn push(&mut self, t: T) {
        self.heap.push(Reverse(t));
        self.log.push(Event::Push(t));
    }

    fn pop(&mut self) -> Option<T> {
        let r = self.heap.pop().map(|k| k.0);
        self.log.push(Event::Pop(r));
        r
    }
}

fn push(k: T) -> Event {
    Event::Push(k)
}

fn pop(k: T) -> Event {
    Event::Pop(Some(k))
}

/// The log with every pushed key replaced by zero.
fn shape(log: &[Event]) -> Vec<Event> {
    log.iter()
        .map(|e| match e {
            Event::Push(_) => Event::Push(0),
            Event::Pop(r) => Event::Pop(r.map(|_| 0)),
        })
        .collect()
}

fn drain<H: Heap>(mut h: H) -> Vec<T> {
    let mut keys = Vec::new();
    while let Some(k) = h.pop() {
        keys.push(k);
    }
    keys
}

#[test]
fn push_linear_holds_each_key_once() {
    assert_eq!(drain(push_linear::<Q>(0)), Vec::<T>::new());
    assert_eq!(drain(push_linear::<Q>(1)), vec![0]);
    assert_eq!(drain(push_linear::<Q>(1000)), (0..1000).collect::<Vec<T>>());
}

#[test]
fn push_linear_rev_holds_each_key_once() {
    assert_eq!(drain(push_linear_rev::<Q>(0)), Vec::<T>::new());
    assert_eq!(drain(push_linear_rev::<Q>(1000)), (0..1000).collect::<Vec<T>>());
    let h = push_linear_rev::<Q>(5);
    assert_eq!(h.bucket(0).unwrap(), &vec![4, 3, 2, 1, 0]);
}

#[test]
fn linear_workloads_end_empty() {
    assert!(linear::<Q>(0).is_empty());
    assert!(linear::<Q>(5000).is_empty());
    assert!(linear_rev::<Q>(5000).is_empty());
    assert!(linear_mix::<Q, 0>(1000).is_empty());
    assert!(linear_mix::<Q, 4>(1000).is_empty());
    assert!(increasing_linear_mix::<Q, 0>(1000).is_empty());
    assert!(increasing_linear_mix::<Q, 4>(1000).is_empty());
    assert!(increasing_linear_mix::<Q, 1>(0).is_empty());
}

#[test]
fn linear_rev_mix_leaves_the_odd_keys() {
    assert_eq!(drain(linear_rev_mix::<Q>(0)), Vec::<T>::new());
    assert_eq!(drain(linear_rev_mix::<Q>(1)), vec![1]);
    assert_eq!(drain(linear_rev_mix::<Q>(4)), vec![1, 3, 5, 7]);
    let odd: Vec<T> = (0..2000).map(|i| 2 * i + 1).collect();
    assert_eq!(drain(linear_rev_mix::<Q>(2000)), odd);
}

#[test]
fn random_workloads_end_with_the_stated_number_of_keys() {
    assert_eq!(drain(push_random::<Q>(0)).len(), 0);
    assert_eq!(drain(push_random::<Q>(3000)).len(), 3000);
    assert!(random::<Q>(3000).is_empty());
    assert_eq!(drain(random_alternate::<Q>(3000)).len(), 3000);
    assert!(random_mix::<Q, 0>(3000).is_empty());
    assert!(random_mix::<Q, 4>(3000).is_empty());
    assert!(increasing_random_mix::<Q, 4>(3000).is_empty());
    assert!(increasing_random_mix::<Q, 0>(3000).is_empty());
    for n in [0, 1, 2, 3, 4, 15, 16, 17, 1000, 10_000] {
        assert!(natural::<Q>(n).is_empty());
    }
}

#[test]
fn random_keys_are_spread_over_the_key_range() {
    let keys = drain(push_random::<Q>(1000));
    assert!(keys.windows(2).all(|w| w[0] <= w[1]));
    assert!(keys[0] < keys[999]);
    assert!(keys.iter().any(|&k| k > T::MAX / 2));
    assert!(keys.iter().any(|&k| k < T::MAX / 2));
}

#[test]
fn linear_workloads_run_the_stated_operations() {
    assert_eq!(push_linear::<Recorder>(3).log, vec![push(0), push(1), push(2)]);
    assert_eq!(push_linear_rev::<Recorder>(3).log, vec![push(2), push(1), push(0)]);
    assert_eq!(
        linear::<Recorder>(3).log,
        vec![push(0), push(1), push(2), pop(0), pop(1), pop(2)]
    );
    assert_eq!(
        linear_rev::<Recorder>(3).log,
        vec![push(2), push(1), push(0), pop(0), pop(1), pop(2)]
    );
    assert_eq!(
        linear_rev_mix::<Recorder>(3).log,
        vec![push(5), push(4), pop(4), push(3), push(2), pop(2), push(1), push(0), pop(0)]
    );
}

#[test]
fn linear_mix_counts_upwards_through_both_phases() {
    let expected = vec![
        push(0), pop(0), push(1), pop(1), push(2),
        push(3), pop(2), push(4), pop(3), push(5),
        pop(4), push(6), pop(5), push(7), pop(6),
        pop(7), push(8), pop(8), push(9), pop(9),
    ];
    assert_eq!(linear_mix::<Recorder, 2>(2).log, expected);
    assert_eq!(increasing_linear_mix::<Recorder, 2>(2).log, expected);
    assert_eq!(linear_mix::<Recorder, 0>(2).log, vec![push(0), push(1), pop(0), pop(1)]);
    assert_eq!(linear_mix::<Recorder, 3>(0).log, vec![]);
}

#[test]
fn random_workloads_run_the_stated_operations() {
    let p = push(0);
    let o = pop(0);
    assert_eq!(shape(&push_random::<Recorder>(3).log), vec![p, p, p]);
    assert_eq!(shape(&random::<Recorder>(2).log), vec![p, p, o, o]);
    assert_eq!(shape(&random_alternate::<Recorder>(2).log), vec![p, p, p, o, p, o]);
    assert_eq!(
        shape(&random_mix::<Recorder, 1>(2).log),
        vec![p, o, p, p, o, p, o, p, o, o, p, o]
    );
    assert_eq!(
        shape(&increasing_random_mix::<Recorder, 1>(2).log),
        vec![p, o, p, p, o, p, o, p, o, o, p, o]
    );
}

#[test]
fn natural_runs_rows_of_pops_then_pushes() {
    let p = push(0);
    let o = pop(0);
    // The integer square root of 10 is 3: four rows of three operations.
    let rows = vec![p, p, p, o, p, p, o, o, p, o, o, o];
    assert_eq!(shape(&natural::<Recorder>(9).log), rows);
    assert_eq!(shape(&natural::<Recorder>(10).log), rows);
    assert_eq!(shape(&natural::<Recorder>(15).log), rows);
    assert_eq!(shape(&natural::<Recorder>(16).log).len(), 20);
    assert_eq!(shape(&natural::<Recorder>(0).log), vec![]);
    assert_eq!(shape(&natural::<Recorder>(1).log), vec![p, o]);
    assert_eq!(shape(&natural::<Recorder>(3).log), vec![p, o]);
}

#[test]
fn increasing_random_keys_stay_within_the_window() {
    assert_eq!(SPREAD, 1000);
    let log = increasing_random_mix::<Recorder, 4>(500).log;
    let mut last: T = 0;
    let mut above = 0;
    for e in log {
        match e {
            Event::Push(k) => {
                assert!(last <= k && (k as u64) < last as u64 + SPREAD);
                if k > last {
                    above += 1;
                }
            }
            Event::Pop(r) => {
                let k = r.unwrap();
                assert!(last <= k);
                last = k;
            }
        }
    }
    assert!(above > 1000);
}

#[test]
fn shuffled_keys_are_a_permutation() {
    assert_eq!(shuffled_keys(0), Vec::<T>::new());
    assert_eq!(shuffled_keys(1), vec![0]);
    let keys = shuffled_keys(1000);
    assert_eq!(keys.len(), 1000);
    let mut sorted = keys.clone();
    sorted.sort();
    assert_eq!(sorted, (0..1000).collect::<Vec<T>>());
    assert_ne!(keys, sorted);
}

#[test]
fn push_keys_holds_the_given_keys() {
    assert_eq!(drain(push_keys::<Q>(&vec![])), Vec::<T>::new());
    let h = push_keys::<Q>(&vec![3, 1, 2, 3]);
    assert_eq!(h.bucket(0).unwrap(), &vec![3, 1, 2, 3]);
    assert_eq!(drain(h), vec![1, 2, 3, 3]);
    let keys = shuffled_keys(5000);
    assert_eq!(drain(push_keys::<Q>(&keys)), (0..5000).collect::<Vec<T>>());
}

#[test]
fn mixes_at_the_edge_of_the_key_range() {
    // 1 + 2 * K pushes per round: the counter ends exactly at the bound.
    let n: T = 10_000;
    assert!(linear_mix::<Q, 2>(n).is_empty());
    assert!(linear_rev_mix::<Q>(0).is_empty());
}

#[test]
fn sizes_are_consecutive_powers_of_two() {
    assert_eq!(sizes(0, 0), vec![1]);
    assert_eq!(sizes(0, 3), vec![1, 2, 4, 8]);
    assert_eq!(sizes(10, 12), vec![1024, 2048, 4096]);
    assert_eq!(sizes(31, 31), vec![0x8000_0000]);
    assert_eq!(sizes(5, 4), Vec::<T>::new());
    let all = sizes(10, 25);
    assert_eq!(all.len(), 16);
    assert_eq!(all[0], 1 << 10);
    assert_eq!(all[15], 1 << 25);
}
