use data_structures::heaps::binary_heap::BinaryHeap;
use data_structures::heaps::binomial_heap::BinomialHeap;
use data_structures::heaps::fibonacci_heap::FibonacciHeap;

/// A fixed permutation of `1..=n`, by a linear congruential walk.
fn shuffled(n: u64, seed: u64) -> Vec<u64> {
    let mut values: Vec<u64> = (1..=n).collect();
    let mut state = seed;
    let mut i = values.len();
    while i > 1 {
        state = state.wrapping_mul(6364136223846793005).wrapping_add(1442695040888963407);
        let j = ((state >> 33) % (i as u64)) as usize;
        i -= 1;
        values.swap(i, j);
    }
    values
}

#[test]
fn test_binary_heap() {
    let mut heap = BinaryHeap::new();
    heap.push(10);
    heap.push(20);
    heap.push(5);
    assert_eq!(heap.pop(), Some(20));
    assert_eq!(heap.pop(), Some(10));
    assert_eq!(heap.pop(), Some(5));
    assert_eq!(heap.pop(), None);
}

#[test]
fn test_fibonacci_heap() {
    let mut heap = FibonacciHeap::new();
    heap.push(10);
    heap.push(20);
    heap.push(5);
    assert_eq!(heap.pop(), Some(5));
    assert_eq!(heap.pop(), Some(10));
    assert_eq!(heap.pop(), Some(20));
    assert_eq!(heap.pop(), None);
}

#[test]
fn fibonacci_heap_new_is_empty() {
    let mut heap: FibonacciHeap<i32> = FibonacciHeap::new();
    assert!(heap.is_empty());
    assert_eq!(heap.peek(), None);
    assert_eq!(heap.pop(), None);
}

#[test]
fn fibonacci_heap_sorts_a_thousand_values() {
    let mut heap = FibonacciHeap::new();
    for v in shuffled(1000, 7) {
        heap.push(v);
    }
    for expected in 1..=1000u64 {
        assert_eq!(heap.pop(), Some(expected));
    }
    assert_eq!(heap.pop(), None);
    assert!(heap.is_empty());
}

#[test]
fn fibonacci_heap_peek_keeps_the_value() {
    let mut heap = FibonacciHeap::new();
    heap.push(42);
    assert_eq!(heap.peek(), Some(&42));
    assert_eq!(heap.peek(), Some(&42));
    assert!(!heap.is_empty());
    assert_eq!(heap.pop(), Some(42));
    assert!(heap.is_empty());
    assert_eq!(heap.peek(), None);
}

#[test]
fn fibonacci_heap_interleaved_matches_a_sorted_list() {
    let mut heap = FibonacciHeap::new();
    let mut model: Vec<u64> = Vec::new();
    let mut state: u64 = 99;
    for step in 0..4000u64 {
        state = state.wrapping_mul(6364136223846793005).wrapping_add(1442695040888963407);
        let choice = (state >> 40) % 3;
        if choice < 2 {
            let v = (state >> 20) % 500;
            heap.push(v);
            let at = model.partition_point(|x| *x <= v);
            model.insert(at, v);
        } else {
            let expected = if model.is_empty() { None } else { Some(model.remove(0)) };
            assert_eq!(heap.pop(), expected, "at step {}", step);
        }
        assert_eq!(heap.peek(), model.first());
        assert_eq!(heap.is_empty(), model.is_empty());
    }
    while let Some(expected) = if model.is_empty() { None } else { Some(model.remove(0)) } {
        assert_eq!(heap.pop(), Some(expected));
    }
    assert_eq!(heap.pop(), None);
}

#[test]
fn fibonacci_heap_pops_come_out_in_order() {
    let mut heap = FibonacciHeap::new();
    for v in [7, 3, 9, 3, 1, 8, 2, 7, 7, 0, 5] {
        heap.push(v);
    }
    let mut last = heap.pop().unwrap();
    assert_eq!(last, 0);
    let mut count = 1;
    while let Some(v) = heap.pop() {
        assert!(last <= v);
        last = v;
        count += 1;
    }
    assert_eq!(count, 11);
    assert_eq!(last, 9);
}

#[test]
fn fibonacci_heap_keeps_count() {
    let mut heap = FibonacciHeap::new();
    for v in shuffled(50, 3) {
        heap.push(v);
    }
    for _ in 0..20 {
        assert!(heap.pop().is_some());
    }
    let mut left = 0;
    while heap.pop().is_some() {
        left += 1;
    }
    assert_eq!(left, 30);
    assert!(heap.is_empty());
}

#[test]
fn fibonacci_heap_equals_sorting() {
    let values = vec![13, -4, 22, 0, -4, 7, 100, -51, 7, 3];
    let mut heap = FibonacciHeap::new();
    for v in values.iter() {
        heap.push(*v);
    }
    let mut popped = Vec::new();
    for _ in 0..values.len() {
        popped.push(heap.pop().unwrap());
    }
    let mut sorted = values.clone();
    sorted.sort();
    assert_eq!(popped, sorted);
    assert_eq!(popped, vec![-51, -4, -4, 0, 3, 7, 7, 13, 22, 100]);
}

#[test]
fn fibonacci_heap_empty_pop_is_harmless() {
    let mut heap = FibonacciHeap::new();
    assert_eq!(heap.pop(), None);
    assert_eq!(heap.pop(), None);
    assert_eq!(heap.pop(), None);
    heap.push(4);
    assert_eq!(heap.peek(), Some(&4));
    heap.push(2);
    assert_eq!(heap.pop(), Some(2));
    assert_eq!(heap.pop(), Some(4));
    assert_eq!(heap.pop(), None);
    assert_eq!(heap.pop(), None);
    heap.push(1);
    assert_eq!(heap.pop(), Some(1));
}

#[test]
fn fibonacci_heap_refills_after_running_empty() {
    let mut heap = FibonacciHeap::new();
    for round in 0..5u64 {
        for v in shuffled(64, round) {
            heap.push(v);
        }
        for expected in 1..=64u64 {
            assert_eq!(heap.pop(), Some(expected));
        }
        assert!(heap.is_empty());
    }
}

#[test]
fn fibonacci_heap_holds_other_ordered_types() {
    let mut heap = FibonacciHeap::new();
    heap.push((2u32, 1u32));
    heap.push((1, 9));
    heap.push((1, 3));
    assert_eq!(heap.pop(), Some((1, 3)));
    assert_eq!(heap.pop(), Some((1, 9)));
    assert_eq!(heap.pop(), Some((2, 1)));
}

#[test]
fn binary_heap_new_is_empty() {
    let mut heap: BinaryHeap<u8> = BinaryHeap::new();
    assert!(heap.is_empty());
    assert_eq!(heap.peek(), None);
    assert_eq!(heap.pop(), None);
}

#[test]
fn binary_heap_peek_is_the_greatest() {
    let mut heap = BinaryHeap::new();
    heap.push(3);
    assert_eq!(heap.peek(), Some(&3));
    heap.push(8);
    assert_eq!(heap.peek(), Some(&8));
    heap.push(5);
    assert_eq!(heap.peek(), Some(&8));
    assert!(!heap.is_empty());
}

#[test]
fn binary_heap_sorts_downwards() {
    let mut heap = BinaryHeap::new();
    for v in shuffled(500, 11) {
        heap.push(v);
    }
    for expected in (1..=500u64).rev() {
        assert_eq!(heap.pop(), Some(expected));
    }
    assert_eq!(heap.pop(), None);
}

#[test]
fn binary_heap_keeps_duplicates() {
    let mut heap = BinaryHeap::new();
    for v in [4, 4, 1, 4, 9, 1] {
        heap.push(v);
    }
    let mut out = Vec::new();
    while let Some(v) = heap.pop() {
        out.push(v);
    }
    assert_eq!(out, vec![9, 4, 4, 4, 1, 1]);
}

#[test]
fn test_binomial_heap() {
    let mut heap = BinomialHeap::new();
    heap.push(10);
    heap.push(20);
    heap.push(5);
    assert_eq!(heap.pop(), Some(5));
    assert_eq!(heap.pop(), Some(10));
    assert_eq!(heap.pop(), Some(20));
    assert_eq!(heap.pop(), None);
}

#[test]
fn binomial_heap_new_is_empty() {
    let mut heap: BinomialHeap<i64> = BinomialHeap::new();
    assert!(heap.is_empty());
    assert_eq!(heap.peek(), None);
    assert_eq!(heap.pop(), None);
    heap.push(-3);
    assert!(!heap.is_empty());
    assert_eq!(heap.peek(), Some(&-3));
}

#[test]
fn binomial_heap_sorts_upwards() {
    let mut heap = BinomialHeap::new();
    for v in shuffled(300, 5) {
        heap.push(v);
    }
    for expected in 1..=300u64 {
        assert_eq!(heap.peek(), Some(&expected));
        assert_eq!(heap.pop(), Some(expected));
    }
    assert_eq!(heap.pop(), None);
}

#[test]
fn binomial_heap_interleaved_matches_a_sorted_list() {
    let mut heap = BinomialHeap::new();
    let mut model: Vec<u64> = Vec::new();
    let mut state: u64 = 1234;
    for _ in 0..2000 {
        state = state.wrapping_mul(6364136223846793005).wrapping_add(1442695040888963407);
        if (state >> 40) % 3 < 2 {
            let v = (state >> 20) % 100;
            heap.push(v);
            let at = model.partition_point(|x| *x <= v);
            model.insert(at, v);
        } else {
            let expected = if model.is_empty() { None } else { Some(model.remove(0)) };
            assert_eq!(heap.pop(), expected);
        }
        assert_eq!(heap.peek(), model.first());
    }
}

#[test]
fn binomial_heap_clones_into_a_heap_of_its_own() {
    let mut heap = BinomialHeap::new();
    for v in [4, 1, 3, 2, 6, 5] {
        heap.push(v);
    }
    assert_eq!(heap.pop(), Some(1));
    let mut copy = heap.clone();
    heap.push(0);
    for expected in 2..=6 {
        assert_eq!(copy.pop(), Some(expected));
    }
    assert_eq!(copy.pop(), None);
    assert_eq!(heap.pop(), Some(0));
    assert_eq!(heap.pop(), Some(2));
}
