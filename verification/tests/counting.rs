use xx_bloom::xxh_helper::random_secret;
use xx_bloom::{
    BloomBuildHasher, BloomFingerprint, CountingBloomFilter, RandomXxh3State,
    SecretBasedXxh3Builder, ASMS,
};

/// A filter over a randomly seeded configuration.
fn seeded_counting(
    num_entries: usize,
    bits_per_entry: usize,
    num_hashes: u32,
) -> CountingBloomFilter<RandomXxh3State> {
    let mut seed = random_secret().unwrap();
    CountingBloomFilter::with_size_and_hasher(
        num_entries,
        bits_per_entry,
        num_hashes,
        RandomXxh3State::advance(&mut seed),
    )
}

/// A filter over a fixed configuration.
fn fixed_counting(
    num_entries: usize,
    bits_per_entry: usize,
    num_hashes: u32,
) -> CountingBloomFilter<SecretBasedXxh3Builder> {
    CountingBloomFilter::with_size_and_hasher(
        num_entries,
        bits_per_entry,
        num_hashes,
        SecretBasedXxh3Builder::with_secret([0xc3; 192]),
    )
}

// 959 counters and 7 probes: the size for 100 items at a false-positive rate
// of 0.01. The first insertion of a key finds a counter at zero and so
// reports the key as new.
#[test]
fn counting_simple() {
    let mut cbf: CountingBloomFilter = seeded_counting(959, 4, 7);
    assert_eq!(cbf.insert(&1), true);
    assert!(cbf.contains(&1));
    assert!(!cbf.contains(&2));
}

#[test]
fn remove() {
    let mut cbf: CountingBloomFilter =
        seeded_counting(959, CountingBloomFilter::bits_for_max(10), 7);
    assert_eq!(cbf.insert_get_count(&1), 0);
    cbf.insert(&2);
    assert!(cbf.contains(&1));
    assert!(cbf.contains(&2));
    assert_eq!(cbf.remove(&2), 1);
    assert_eq!(cbf.remove(&3), 0);
    assert!(cbf.contains(&1));
    assert!(!cbf.contains(&2));
}

#[test]
fn estimate_count() {
    let mut cbf: CountingBloomFilter = seeded_counting(959, 4, 7);
    cbf.insert(&1);
    cbf.insert(&2);
    assert_eq!(cbf.estimate_count(&1), 1);
    assert_eq!(cbf.estimate_count(&2), 1);
    assert_eq!(cbf.insert_get_count(&1), 1);
    assert_eq!(cbf.estimate_count(&1), 2);
}

#[test]
fn bits_for_max_is_the_width_of_the_value() {
    assert_eq!(CountingBloomFilter::bits_for_max(0), 0);
    assert_eq!(CountingBloomFilter::bits_for_max(1), 1);
    assert_eq!(CountingBloomFilter::bits_for_max(2), 2);
    assert_eq!(CountingBloomFilter::bits_for_max(3), 2);
    assert_eq!(CountingBloomFilter::bits_for_max(4), 3);
    assert_eq!(CountingBloomFilter::bits_for_max(7), 3);
    assert_eq!(CountingBloomFilter::bits_for_max(8), 4);
    assert_eq!(CountingBloomFilter::bits_for_max(10), 4);
    assert_eq!(CountingBloomFilter::bits_for_max(15), 4);
    assert_eq!(CountingBloomFilter::bits_for_max(16), 5);
    assert_eq!(CountingBloomFilter::bits_for_max(255), 8);
    assert_eq!(CountingBloomFilter::bits_for_max(256), 9);
    assert_eq!(CountingBloomFilter::bits_for_max(u32::MAX), 32);
}

#[test]
fn insert_tells_whether_the_key_was_new_and_the_count_tells_how_often() {
    let mut f = fixed_counting(1009, 4, 5);
    assert!(f.insert_slice(b"alpha"));
    assert!(!f.insert_slice(b"alpha"));
    assert_eq!(f.estimate_count_slice(b"alpha"), 2);
    assert_eq!(f.insert_get_count_slice(b"alpha"), 2);
    assert_eq!(f.estimate_count_slice(b"alpha"), 3);
    assert_eq!(f.estimate_count_slice(b"beta"), 0);
    assert!(!f.contains_slice(b"beta"));
}

#[test]
fn counting_round_trip() {
    let mut f = fixed_counting(1009, 4, 5);
    f.insert_slice(b"x");
    f.insert_slice(b"x");
    f.insert_slice(b"x");
    assert_eq!(f.estimate_count_slice(b"x"), 3);
    assert_eq!(f.remove_slice(b"x"), 3);
    assert_eq!(f.remove_slice(b"x"), 2);
    assert_eq!(f.remove_slice(b"x"), 1);
    assert!(!f.contains_slice(b"x"));
    assert_eq!(f.remove_slice(b"x"), 0);
    assert_eq!(f.estimate_count_slice(b"x"), 0);
}

#[test]
fn counters_stop_at_the_largest_value_of_their_width() {
    // Two bits: a counter stops at 3.
    let mut f = fixed_counting(1009, 2, 5);
    for _ in 0..10 {
        f.insert_slice(b"x");
    }
    assert_eq!(f.estimate_count_slice(b"x"), 3);
    assert_eq!(f.insert_get_count_slice(b"x"), 3);
    assert_eq!(f.estimate_count_slice(b"x"), 3);
    assert!(f.contains_slice(b"x"));
    // A neighbour is not touched by the stopped counters.
    assert_eq!(f.estimate_count_slice(b"y"), 0);
}

#[test]
fn counters_of_full_width_count_on() {
    let mut f = fixed_counting(101, 32, 3);
    for _ in 0..1000 {
        f.insert_slice(b"x");
    }
    assert_eq!(f.estimate_count_slice(b"x"), 1000);
}

#[test]
fn counters_of_no_width_never_count() {
    let mut f = fixed_counting(101, 0, 3);
    assert!(f.insert_slice(b"x"));
    assert!(f.insert_slice(b"x"));
    assert_eq!(f.estimate_count_slice(b"x"), 0);
    assert!(!f.contains_slice(b"x"));
    assert_eq!(f.remove_slice(b"x"), 0);
}

#[test]
fn probes_that_share_a_slot_count_twice() {
    // Lanes 3 and 3 + 64: both probes fall on slot 3 of 64.
    let mut f = fixed_counting(64, 4, 2);
    let fp = BloomFingerprint::new(3, 67);
    assert!(f.insert_fingerprint(fp));
    assert_eq!(f.estimate_count_fingerprint(fp), 2);
    // Another key whose first probe falls on slot 3 and whose second does
    // not sees the smaller of 2 and 0.
    assert_eq!(f.estimate_count_fingerprint(BloomFingerprint::new(3, 5)), 0);
    assert!(f.can_remove_fingerprint(fp));
    // The first probe finds 2, the second finds 1.
    assert_eq!(f.remove_fingerprint(fp), 1);
    assert_eq!(f.estimate_count_fingerprint(fp), 0);
    assert!(!f.contains_fingerprint(fp));
}

#[test]
fn removal_is_refused_beforehand_where_a_counter_would_run_out() {
    // One bit: the counter of slot 3 stops at 1, but both probes fall on it.
    let mut f = fixed_counting(64, 1, 2);
    let fp = BloomFingerprint::new(3, 67);
    assert!(f.insert_fingerprint(fp));
    assert!(f.contains_fingerprint(fp));
    assert!(!f.can_remove_fingerprint(fp));
    // A key that the filter does not report can always be handed over.
    let absent = BloomFingerprint::new(10, 11);
    assert!(f.can_remove_fingerprint(absent));
    assert_eq!(f.remove_fingerprint(absent), 0);
    assert!(f.contains_fingerprint(fp));
}

#[test]
fn no_probes_at_all() {
    let mut f = fixed_counting(64, 4, 0);
    let fp = BloomFingerprint::new(3, 5);
    assert!(f.contains_fingerprint(fp));
    assert_eq!(f.estimate_count_fingerprint(fp), u32::MAX);
    assert!(!f.insert_fingerprint(fp));
    assert_eq!(f.insert_get_count_fingerprint(fp), u32::MAX);
    assert_eq!(f.remove_fingerprint(fp), u32::MAX);
}

#[test]
fn counting_clear_sets_every_counter_to_zero() {
    let mut f = fixed_counting(499, 5, 4);
    f.insert_slice(b"one");
    f.insert_slice(b"two");
    f.insert_slice(b"two");
    f.clear();
    assert_eq!(f.estimate_count_slice(b"one"), 0);
    assert_eq!(f.estimate_count_slice(b"two"), 0);
    assert!(f.insert_slice(b"two"));
    assert_eq!(f.estimate_count_slice(b"two"), 1);
}

#[test]
fn counting_no_false_negatives_on_concrete_keys() {
    let mut f = fixed_counting(4099, 3, 4);
    for i in 0..300u32 {
        f.insert_slice(&i.to_le_bytes());
    }
    for i in 0..300u32 {
        assert!(f.contains_slice(&i.to_le_bytes()));
        assert!(f.estimate_count_slice(&i.to_le_bytes()) >= 1);
    }
}

#[test]
fn counting_fingerprint_computed_once_serves_the_filter() {
    let hasher = SecretBasedXxh3Builder::with_secret([1; 192]);
    let mut f = CountingBloomFilter::with_size_and_hasher(997, 4, 6, hasher);
    f.insert_slice(b"key");
    f.insert_slice(b"key");
    let fp = hasher.hash_one_128(b"key");
    assert!(f.contains_fingerprint(fp));
    assert_eq!(f.estimate_count_fingerprint(fp), 2);
    assert_eq!(f.estimate_count_fingerprint(fp), f.estimate_count_slice(b"key"));
    assert_eq!(f.insert_get_count_fingerprint(fp), 2);
    assert_eq!(f.remove_fingerprint(fp), 3);
    assert_eq!(f.estimate_count_slice(b"key"), 2);
}

#[test]
fn checked_removal_removes_where_it_can_and_refuses_where_it_cannot() {
    let mut f = fixed_counting(1009, 4, 5);
    f.insert_slice(b"x");
    f.insert_slice(b"x");
    assert_eq!(f.try_remove_slice(b"x"), Some(2));
    assert_eq!(f.try_remove_slice(b"x"), Some(1));
    assert_eq!(f.try_remove_slice(b"x"), Some(0));
    assert_eq!(f.try_remove_slice(b"never inserted"), Some(0));
    f.insert(&77u16);
    assert_eq!(f.try_remove(&77u16), Some(1));
    assert_eq!(f.try_remove(&77u16), Some(0));
    assert!(!f.contains(&77u16));

    // One bit per counter, both probes on slot 3: the counter holds 1, the
    // removal would need 2.
    let mut narrow = fixed_counting(64, 1, 2);
    let fp = BloomFingerprint::new(3, 67);
    narrow.insert_fingerprint(fp);
    assert_eq!(narrow.try_remove_fingerprint(fp), None);
    assert!(narrow.contains_fingerprint(fp));
    assert_eq!(narrow.estimate_count_fingerprint(fp), 1);
    // With probes on different slots the same filter removes.
    let apart = BloomFingerprint::new(5, 9);
    narrow.insert_fingerprint(apart);
    assert_eq!(narrow.try_remove_fingerprint(apart), Some(1));
    assert!(!narrow.contains_fingerprint(apart));
}

#[test]
fn an_estimate_is_never_below_the_number_of_insertions() {
    let mut f = fixed_counting(211, 5, 4);
    for round in 1..=20u32 {
        for key in 0..30u32 {
            f.insert_slice(&key.to_be_bytes());
        }
        for key in 0..30u32 {
            assert!(f.estimate_count_slice(&key.to_be_bytes()) >= round);
        }
    }
}
