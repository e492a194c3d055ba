use std::collections::VecDeque;
use wimbd::ngrams::counter::{CounterError, HashSeed, NgramCounter};
use wimbd::ngrams::lanes::Width;

fn key(tokens: &[&str]) -> VecDeque<String> {
    tokens.iter().map(|t| t.to_string()).collect()
}

fn seeds(k: u64) -> Vec<HashSeed> {
    (0..k).map(|j| HashSeed { k0: j, k1: 17, k2: 29, k3: 31 }).collect()
}

#[test]
fn a_new_table_is_at_its_initial_value() {
    let table = NgramCounter::new(1024, 5, Some(1), Width::W32, 0).unwrap();
    assert_eq!(table.len(), 256);
    assert_eq!(table.num_hashes(), 5);
    assert_eq!(table.max_value(), u32::MAX as u64);
    assert_eq!(table.nonzero(), 0);
    assert_eq!(table.max_count(&key(&["a", "b"])), 0);
    let table = NgramCounter::new(1024, 5, None, Width::W64, 9).unwrap();
    assert_eq!(table.len(), 128);
    assert_eq!(table.max_count(&key(&["a", "b"])), 9);
    let table = NgramCounter::new(1024, 1, Some(1), Width::W8, 255).unwrap();
    assert_eq!(table.len(), 1024);
    assert_eq!(table.max_value(), 255);
}

#[test]
fn dimensions_are_checked_in_order() {
    assert_eq!(NgramCounter::new(0, 0, None, Width::W8, 300).err(), Some(CounterError::NoHashes));
    assert_eq!(NgramCounter::new(0, 1, None, Width::W8, 300).err(), Some(CounterError::NoLanes));
    assert_eq!(NgramCounter::new(3, 1, None, Width::W32, 0).err(), Some(CounterError::NoLanes));
    assert_eq!(NgramCounter::new(7, 1, None, Width::W64, 0).err(), Some(CounterError::NoLanes));
    assert_eq!(
        NgramCounter::new(1, 1, None, Width::W8, 256).err(),
        Some(CounterError::InitialTooLarge)
    );
    assert_eq!(
        NgramCounter::new(4, 1, None, Width::W32, 1 << 32).err(),
        Some(CounterError::InitialTooLarge)
    );
    assert_eq!(
        NgramCounter::new(8, usize::MAX / 2, None, Width::W8, 0).err(),
        Some(CounterError::TooManyHashes)
    );
    assert_eq!(
        NgramCounter::with_seeds(8, Vec::new(), Width::W8, 0).err(),
        Some(CounterError::NoHashes)
    );
}

#[test]
fn increment_returns_the_count() {
    let mut table = NgramCounter::with_seeds(1 << 16, seeds(5), Width::W32, 0).unwrap();
    let ab = key(&["a", "b"]);
    let ba = key(&["b", "a"]);
    assert_eq!(table.increment(&ab, 1), 1);
    assert_eq!(table.increment(&ab, 1), 2);
    assert_eq!(table.increment(&ba, 1), 1);
    assert_eq!(table.increment(&ab, 5), 7);
    assert_eq!(table.max_count(&ab), 7);
    assert_eq!(table.max_count(&ba), 1);
    assert!(table.nonzero() >= 2 && table.nonzero() <= 10);
}

#[test]
fn increment_never_reports_less_than_the_true_count() {
    // One lane: every n-gram shares it.
    let mut table = NgramCounter::with_seeds(1, seeds(3), Width::W8, 0).unwrap();
    let a = key(&["a"]);
    let b = key(&["b"]);
    assert_eq!(table.increment(&a, 1), 1);
    assert_eq!(table.increment(&b, 1), 4);
    assert_eq!(table.increment(&a, 1), 7);
    assert_eq!(table.max_count(&a), 9);
    assert_eq!(table.nonzero(), 1);
}

#[test]
fn lanes_pin_at_the_largest_value() {
    let mut table = NgramCounter::with_seeds(64, seeds(2), Width::W8, 0).unwrap();
    let a = key(&["a"]);
    assert_eq!(table.increment(&a, 200), 200);
    assert_eq!(table.increment(&a, 200), 255);
    assert_eq!(table.increment(&a, 1), 255);
    assert_eq!(table.increment(&a, u64::MAX), 255);
    let mut table = NgramCounter::with_seeds(64, seeds(2), Width::W32, 0).unwrap();
    assert_eq!(table.increment(&a, (1 << 32) - 2), (1 << 32) - 2);
    assert_eq!(table.increment(&a, 1), (1 << 32) - 1);
    assert_eq!(table.increment(&a, 1), (1 << 32) - 1);
    let mut table = NgramCounter::with_seeds(64, seeds(2), Width::W64, 0).unwrap();
    assert_eq!(table.increment(&a, 1 << 32), 1 << 32);
    assert_eq!(table.increment(&a, u64::MAX), u64::MAX);
}

#[test]
fn lanes_pin_at_zero() {
    let mut table = NgramCounter::with_seeds(4096, seeds(4), Width::W32, u32::MAX as u64).unwrap();
    let a = key(&["a"]);
    let b = key(&["b"]);
    table.decrement(&a, 3);
    assert_eq!(table.max_count(&a), u32::MAX as u64 - 3);
    assert_eq!(table.max_count(&b), u32::MAX as u64);
    table.decrement(&a, u64::MAX);
    assert_eq!(table.max_count(&a), 0);
    table.decrement(&a, 1);
    assert_eq!(table.max_count(&a), 0);
    assert!(table.nonzero() >= 1 && table.nonzero() <= 4);
}

#[test]
fn the_same_seed_gives_the_same_lanes() {
    let run = |seed: Option<u64>| {
        let mut table = NgramCounter::new(8, 4, seed, Width::W8, 0).unwrap();
        let mut seen = Vec::new();
        for word in ["a", "b", "c", "d", "e", "f", "g", "h"] {
            seen.push(table.increment(&key(&[word, "x"]), 1));
        }
        seen
    };
    assert_eq!(run(Some(11)), run(Some(11)));
    assert_eq!(run(Some(0)), run(Some(0)));
}

#[test]
fn the_tokens_as_a_whole_are_the_key() {
    let mut table = NgramCounter::with_seeds(1 << 16, seeds(5), Width::W32, 0).unwrap();
    assert_eq!(table.increment(&key(&["ab", "c"]), 1), 1);
    assert_eq!(table.increment(&key(&["a", "bc"]), 1), 1);
    assert_eq!(table.increment(&key(&["abc"]), 1), 1);
    assert_eq!(table.increment(&key(&["c", "ab"]), 1), 1);
    assert_eq!(table.increment(&key(&["ab", "c"]), 1), 2);
    // A window that has slid holds the same key as a fresh one.
    let mut slid: VecDeque<String> = VecDeque::with_capacity(2);
    slid.push_back("x".to_string());
    slid.push_back("ab".to_string());
    slid.pop_front();
    slid.push_back("c".to_string());
    assert_eq!(table.increment(&slid, 1), 3);
}

#[test]
fn hash_functions_differ_and_follow_the_seed() {
    let touched = |seed: u64, word: &str| {
        let mut table = NgramCounter::new(1 << 20, 4, Some(seed), Width::W8, 0).unwrap();
        table.increment(&key(&[word]), 1);
        table.nonzero()
    };
    // Four hash functions with four different seeds touch four lanes.
    assert_eq!(touched(1, "a"), 4);
    assert_eq!(touched(2, "a"), 4);
    let lanes_hit = |seed: u64| {
        let mut table = NgramCounter::new(1 << 20, 4, Some(seed), Width::W8, 0).unwrap();
        let mut probe = NgramCounter::new(1 << 20, 4, Some(1), Width::W8, 0).unwrap();
        table.increment(&key(&["a", "b"]), 1);
        probe.increment(&key(&["a", "b"]), 1);
        // The second table, seeded with 1, tells whether the first one is
        // too: its own lanes are then exactly those of the first.
        let mut both = NgramCounter::new(1 << 20, 4, Some(seed), Width::W8, 0).unwrap();
        both.increment(&key(&["a", "b"]), 1);
        (table.nonzero(), probe.max_count(&key(&["a", "b"])), both.max_count(&key(&["a", "b"])))
    };
    assert_eq!(lanes_hit(1), (4, 1, 1));
    assert_eq!(lanes_hit(77), (4, 1, 1));
}

#[test]
fn a_count_of_two_to_the_thirty_two_pins_thirty_two_bits() {
    let a = key(&["a"]);
    let mut narrow = NgramCounter::with_seeds(64, seeds(3), Width::W32, 0).unwrap();
    let mut wide = NgramCounter::with_seeds(64, seeds(3), Width::W64, 0).unwrap();
    let mut reported = (0, 0);
    for _ in 0..4 {
        reported = (narrow.increment(&a, 1 << 30), wide.increment(&a, 1 << 30));
    }
    assert_eq!(reported, ((1 << 32) - 1, 1 << 32));
    assert_eq!(reported.0, narrow.max_value());
    assert!(reported.1 < wide.max_value());
}

#[test]
fn decrements_from_the_largest_value_leave_the_inverse_count() {
    let max = u32::MAX as u64;
    let mut table = NgramCounter::new(1 << 20, 5, Some(5), Width::W32, max).unwrap();
    let words = ["a", "b", "c", "d"];
    for (i, word) in words.iter().enumerate() {
        for _ in 0..=i {
            table.decrement(&key(&[word, "x"]), 1);
        }
    }
    for (i, word) in words.iter().enumerate() {
        assert_eq!(table.max_count(&key(&[word, "x"])), max - (i as u64 + 1));
    }
    assert_eq!(table.max_count(&key(&["e", "x"])), max);
}

#[test]
fn counting_in_two_tables_adds_up_lane_by_lane() {
    let first = [key(&["a"]), key(&["b"]), key(&["a"])];
    let second = [key(&["b"]), key(&["c"])];
    let mut both = NgramCounter::with_seeds(16, seeds(3), Width::W8, 0).unwrap();
    let mut one = NgramCounter::with_seeds(16, seeds(3), Width::W8, 0).unwrap();
    let mut other = NgramCounter::with_seeds(16, seeds(3), Width::W8, 0).unwrap();
    for k in first.iter() {
        both.increment(k, 1);
        one.increment(k, 1);
    }
    for k in second.iter() {
        both.increment(k, 1);
        other.increment(k, 1);
    }
    for word in ["a", "b", "c", "d", "e", "f"] {
        let k = key(&[word]);
        let (x, y, z) = (both.max_count(&k), one.max_count(&k), other.max_count(&k));
        assert!(x <= y + z);
        assert!(x >= y && x >= z);
    }
    // With one hash function the greatest lane of a key is its only lane,
    // so the lanes themselves can be compared.
    let mut single = NgramCounter::with_seeds(16, seeds(1), Width::W8, 0).unwrap();
    let mut left = NgramCounter::with_seeds(16, seeds(1), Width::W8, 0).unwrap();
    let mut right = NgramCounter::with_seeds(16, seeds(1), Width::W8, 0).unwrap();
    for k in first.iter() {
        single.increment(k, 1);
        left.increment(k, 1);
    }
    for k in second.iter() {
        single.increment(k, 1);
        right.increment(k, 1);
    }
    for word in ["a", "b", "c", "d", "e", "f"] {
        let k = key(&[word]);
        assert_eq!(single.max_count(&k), left.max_count(&k) + right.max_count(&k));
    }
}

#[test]
fn an_empty_key_has_lanes_too() {
    let mut table = NgramCounter::with_seeds(1 << 10, seeds(2), Width::W8, 0).unwrap();
    let empty: VecDeque<String> = VecDeque::new();
    assert_eq!(table.increment(&empty, 2), 2);
    assert_eq!(table.max_count(&empty), 2);
    table.decrement(&empty, 1);
    assert_eq!(table.max_count(&empty), 1);
    assert_eq!(table.increment(&key(&[""]), 1), 1);
}
