use lau_bridge_pattern_math::fibonacci_categorification::{
    CategorifiedFibonacci, FibonacciCategory, FibonacciSequence, FreeFibonacciMonoid,
};

#[test]
fn test_fibonacci_basic() {
    let fib = FibonacciSequence::new(10);
    assert_eq!(fib.get(0), 0);
    assert_eq!(fib.get(1), 1);
    assert_eq!(fib.get(2), 1);
    assert_eq!(fib.get(3), 2);
    assert_eq!(fib.get(5), 5);
    assert_eq!(fib.get(10), 55);
}

#[test]
fn test_zeckendorf() {
    let cat = FibonacciCategory::new(15);
    let rep = cat.zeckendorf(100);
    let sum: u64 = rep.iter().map(|&x| x as u64).sum();
    assert_eq!(sum, 100);
}

#[test]
fn test_free_monoid_growth() {
    let fm = FreeFibonacciMonoid::new(8);
    assert!(fm.verify_fibonacci_growth());
}

#[test]
fn test_free_monoid_counts() {
    let fm = FreeFibonacciMonoid::new(6);
    assert_eq!(fm.count(0), 1); // empty word
    assert_eq!(fm.count(1), 2); // a, b
    assert_eq!(fm.count(2), 3); // aa, ab, ba
    assert_eq!(fm.count(3), 5); // F(4) = 5
    assert_eq!(fm.count(4), 8); // F(5) = 8
}

#[test]
fn test_categorified_euler() {
    let cat = CategorifiedFibonacci { fib: FibonacciSequence::new(10) };
    let chi = cat.euler_characteristic(5);
    // F(0) - F(1) + F(2) - F(3) + F(4) - F(5) = 0 - 1 + 1 - 2 + 3 - 5 = -4
    assert_eq!(chi, -4);
}

#[test]
fn test_fibonacci_recurrence() {
    let fib = FibonacciSequence::new(15);
    for n in 2..15 {
        assert_eq!(fib.get(n), fib.get(n - 1) + fib.get(n - 2), "Fibonacci recurrence failed at n={}", n);
    }
}

#[test]
fn fibonacci_get_beyond_cache_and_at_the_u64_limit() {
    let fib = FibonacciSequence::new(0);
    assert_eq!(fib.get(20), 6765);
    assert_eq!(fib.get(93), 12200160415121876738);
    let full = FibonacciSequence::new(94);
    assert_eq!(full.get(93), 12200160415121876738);
    assert_eq!(full.get(92), 7540113804746346429);
}

#[test]
fn fibonacci_sequence_clone_keeps_values() {
    let fib = FibonacciSequence::new(12);
    let copy = fib.clone();
    for k in 0..12 {
        assert_eq!(copy.get(k), fib.get(k));
    }
}

#[test]
fn zeckendorf_terms_are_non_consecutive_fibonacci_numbers() {
    let cat = FibonacciCategory::new(20);
    let fibs: Vec<u64> = (0..25).map(|k| cat.fib.get(k)).collect();
    for n in 0..1000u64 {
        let rep = cat.zeckendorf(n);
        assert_eq!(rep.iter().sum::<u64>(), n);
        let idx: Vec<usize> = rep
            .iter()
            .map(|f| (2..25).rev().find(|&k| fibs[k] == *f).unwrap())
            .collect();
        for w in idx.windows(2) {
            assert!(w[0] >= w[1] + 2, "consecutive terms for {}: {:?}", n, rep);
        }
    }
}

#[test]
fn zeckendorf_exact_representations() {
    let cat = FibonacciCategory::new(15);
    assert_eq!(cat.zeckendorf(100), vec![89, 8, 3]);
    assert_eq!(cat.zeckendorf(0), Vec::<u64>::new());
    assert_eq!(cat.zeckendorf(1), vec![1]);
    assert_eq!(cat.zeckendorf(4), vec![3, 1]);
}

#[test]
fn zeckendorf_past_the_cache() {
    // The cache of a category with 3 objects holds F(0) .. F(4) = 0, 1, 1, 2, 3;
    // larger terms are generated as needed.
    let cat = FibonacciCategory::new(3);
    assert_eq!(cat.zeckendorf(100), vec![89, 8, 3]);
    assert_eq!(cat.zeckendorf(6), vec![5, 1]);
    let bare = FibonacciCategory::new(0);
    assert_eq!(bare.zeckendorf(3), vec![3]);
    // Up to the largest u64.
    let rep = bare.zeckendorf(u64::MAX);
    assert_eq!(rep.iter().map(|&f| f as u128).sum::<u128>(), u64::MAX as u128);
    assert_eq!(rep[0], 12200160415121876738);
}

#[test]
fn free_monoid_words() {
    let fm = FreeFibonacciMonoid::new(3);
    assert_eq!(fm.words_by_length.len(), 4);
    assert_eq!(fm.words_by_length[0], vec![""]);
    assert_eq!(fm.words_by_length[1], vec!["a", "b"]);
    assert_eq!(fm.words_by_length[2], vec!["aa", "ab", "ba"]);
    assert_eq!(fm.words_by_length[3], vec!["aaa", "aab", "aba", "baa", "bab"]);
    assert_eq!(fm.count(4), 0);
    let small = FreeFibonacciMonoid::new(0);
    assert_eq!(small.words_by_length.len(), 1);
    assert_eq!(small.words_by_length[0], vec![""]);
    assert_eq!(small.count(1), 0);
    assert!(small.verify_fibonacci_growth());
}

#[test]
fn free_monoid_counts_follow_fibonacci() {
    let fm = FreeFibonacciMonoid::new(15);
    let fib = FibonacciSequence::new(20);
    for n in 0..=15 {
        assert_eq!(fm.count(n) as u64, fib.get(n + 2));
    }
}

#[test]
fn free_monoid_growth_detects_tampering() {
    let mut fm = FreeFibonacciMonoid::new(5);
    fm.words_by_length[4].pop();
    assert!(!fm.verify_fibonacci_growth());
}

#[test]
fn categorified_euler_closed_form() {
    let cat = CategorifiedFibonacci { fib: FibonacciSequence::new(3) };
    let fib = FibonacciSequence::new(3);
    assert_eq!(cat.euler_characteristic(0), 0);
    for n in 1..=92usize {
        let f = fib.get(n - 1) as i64;
        let expected = if n % 2 == 0 { f - 1 } else { -f - 1 };
        assert_eq!(cat.euler_characteristic(n), expected, "n = {}", n);
    }
}

#[test]
fn fibonacci_category_cache_size() {
    let cat = FibonacciCategory::new(10);
    assert_eq!(cat.n_objects, 10);
    assert_eq!(cat.fib.get(11), 89);
}

#[test]
fn golden_ratio_terms_are_the_last_two_cached() {
    let fib = FibonacciSequence::new(20);
    assert_eq!(fib.golden_ratio_terms(), Some((4181, 2584)));
    let short = FibonacciSequence::new(2);
    assert_eq!(short.golden_ratio_terms(), None);
    let three = FibonacciSequence::new(3);
    assert_eq!(three.golden_ratio_terms(), Some((1, 1)));
}

#[test]
fn terms_up_to_lists_the_sequence() {
    let fib = FibonacciSequence::new(5);
    assert_eq!(fib.terms_up_to(10), vec![0, 1, 1, 2, 3, 5, 8, 13, 21, 34, 55]);
    assert_eq!(fib.terms_up_to(0), vec![0]);
    let last = fib.terms_up_to(93);
    assert_eq!(last.len(), 94);
    assert_eq!(last[93], 12200160415121876738);
}

#[test]
fn free_monoid_words_are_the_bb_free_words_in_order() {
    let fm = FreeFibonacciMonoid::new(8);
    for n in 0..=8usize {
        let mut expected: Vec<String> = Vec::new();
        for bits in 0..(1u32 << n) {
            let w: String = (0..n)
                .map(|i| if bits & (1 << (n - 1 - i)) != 0 { 'b' } else { 'a' })
                .collect();
            if !w.contains("bb") {
                expected.push(w);
            }
        }
        assert_eq!(fm.words_by_length[n], expected);
    }
}

#[test]
fn cached_terms_are_the_sequence() {
    assert_eq!(FibonacciSequence::new(8).cached_terms(), vec![0, 1, 1, 2, 3, 5, 8, 13]);
    assert_eq!(FibonacciSequence::new(0).cached_terms(), vec![0, 1]);
}
