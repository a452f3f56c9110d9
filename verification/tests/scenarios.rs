use quickheap::{Heap, QuickHeap, T};

fn empty_pop_on<H: Heap>() {
    let mut h = H::default();
    assert_eq!(h.pop(), None);
    assert_eq!(h.pop(), None);
}

fn singleton_on<H: Heap>() {
    let mut h = H::default();
    h.push(42);
    assert_eq!(h.pop(), Some(42));
    assert_eq!(h.pop(), None);
}

fn reverse_insert_on<H: Heap>() {
    let mut h = H::default();
    for k in (1..=100).rev() {
        h.push(k);
    }
    for k in 1..=100 {
        assert_eq!(h.pop(), Some(k));
    }
    assert_eq!(h.pop(), None);
}

fn ordered_insert_on<H: Heap>() {
    let mut h = H::default();
    for k in 1..=100 {
        h.push(k);
    }
    for k in 1..=100 {
        assert_eq!(h.pop(), Some(k));
    }
    assert_eq!(h.pop(), None);
}

fn dijkstra_like_on<H: Heap>() {
    let mut rng = fastrand::Rng::with_seed(7);
    let mut h = H::default();
    h.push(0);
    let mut last: T = 0;
    for _ in 0..10_000 {
        let l = h.pop().unwrap();
        assert!(l >= last);
        last = l;
        h.push(l + rng.u32(0..1000));
    }
    assert!(h.pop().unwrap() >= last);
    assert_eq!(h.pop(), None);
}

fn dijkstra_fan_out_on<H: Heap>() {
    let mut rng = fastrand::Rng::with_seed(11);
    let mut h = H::default();
    h.push(0);
    let mut held = 1;
    let mut last: T = 0;
    for step in 0..20_000 {
        let l = h.pop().unwrap();
        held -= 1;
        assert!(l >= last);
        last = l;
        let fan = if step < 10_000 { 2 } else { 0 };
        for _ in 0..fan {
            h.push(l + rng.u32(0..1000));
            held += 1;
        }
        if held == 0 {
            break;
        }
    }
}

fn duplicates_on<H: Heap>() {
    let mut h = H::default();
    for _ in 0..1000 {
        h.push(7);
    }
    for _ in 0..1000 {
        assert_eq!(h.pop(), Some(7));
    }
    assert_eq!(h.pop(), None);
}

fn boundary_keys_on<H: Heap>() {
    let mut h = H::default();
    for _ in 0..10 {
        h.push(0);
        h.push(T::MAX);
        h.push(T::MAX - 1);
    }
    for _ in 0..10 {
        assert_eq!(h.pop(), Some(0));
    }
    for _ in 0..10 {
        assert_eq!(h.pop(), Some(T::MAX - 1));
    }
    for _ in 0..10 {
        assert_eq!(h.pop(), Some(T::MAX));
    }
    assert_eq!(h.pop(), None);
}

fn only_largest_keys_on<H: Heap>() {
    let mut h = H::default();
    for _ in 0..100 {
        h.push(T::MAX);
    }
    h.push(3);
    assert_eq!(h.pop(), Some(3));
    for _ in 0..50 {
        assert_eq!(h.pop(), Some(T::MAX));
    }
    h.push(T::MAX - 1);
    h.push(0);
    assert_eq!(h.pop(), Some(0));
    assert_eq!(h.pop(), Some(T::MAX - 1));
    for _ in 0..50 {
        assert_eq!(h.pop(), Some(T::MAX));
    }
    assert_eq!(h.pop(), None);
}

#[test]
fn empty_pop() {
    empty_pop_on::<QuickHeap<16, 3>>();
    empty_pop_on::<QuickHeap<16, 1>>();
    empty_pop_on::<QuickHeap<1, 1>>();
}

#[test]
fn singleton() {
    singleton_on::<QuickHeap<16, 3>>();
    singleton_on::<QuickHeap<16, 1>>();
    singleton_on::<QuickHeap<1, 1>>();
}

#[test]
fn reverse_insert_ordered_drain() {
    reverse_insert_on::<QuickHeap<16, 3>>();
    reverse_insert_on::<QuickHeap<16, 1>>();
    reverse_insert_on::<QuickHeap<8, 5>>();
    reverse_insert_on::<QuickHeap<1, 1>>();
}

#[test]
fn ordered_insert_ordered_drain() {
    ordered_insert_on::<QuickHeap<16, 3>>();
    ordered_insert_on::<QuickHeap<16, 1>>();
    ordered_insert_on::<QuickHeap<8, 5>>();
    ordered_insert_on::<QuickHeap<1, 1>>();
}

#[test]
fn dijkstra_like() {
    dijkstra_like_on::<QuickHeap<16, 3>>();
    dijkstra_like_on::<QuickHeap<16, 1>>();
}

#[test]
fn dijkstra_with_fan_out() {
    dijkstra_fan_out_on::<QuickHeap<16, 3>>();
    dijkstra_fan_out_on::<QuickHeap<4, 1>>();
}

#[test]
fn adversarial_duplicates() {
    duplicates_on::<QuickHeap<16, 3>>();
    duplicates_on::<QuickHeap<16, 1>>();
    duplicates_on::<QuickHeap<2, 1>>();
}

#[test]
fn boundary_keys() {
    for _ in 0..50 {
        boundary_keys_on::<QuickHeap<16, 3>>();
        boundary_keys_on::<QuickHeap<16, 1>>();
        boundary_keys_on::<QuickHeap<4, 1>>();
    }
}

#[test]
fn many_copies_of_the_largest_key() {
    for _ in 0..20 {
        only_largest_keys_on::<QuickHeap<16, 3>>();
        only_largest_keys_on::<QuickHeap<16, 1>>();
        only_largest_keys_on::<QuickHeap<3, 1>>();
    }
}

#[test]
fn without_samples_nothing_is_split() {
    let mut h = <QuickHeap<4, 0> as Heap>::default();
    for k in (0..100).rev() {
        h.push(k);
    }
    assert_eq!(h.pop(), Some(0));
    assert_eq!(h.layer(), 0);
    for k in 1..100 {
        assert_eq!(h.pop(), Some(k));
    }
    assert_eq!(h.pop(), None);
}
