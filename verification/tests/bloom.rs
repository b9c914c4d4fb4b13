use std::collections::HashSet;

use rand::Rng;
use xx_bloom::bloom::clamp_num_hashes;
use xx_bloom::xxh_helper::random_secret;
use xx_bloom::{
    BloomBuildHasher, BloomFilter, BloomFingerprint, Intersectable, RandomXxh3State,
    SecretBasedXxh3Builder, Unionable, ASMS,
};

/// A filter over a randomly seeded configuration.
fn seeded(num_bits: usize, num_hashes: u32) -> BloomFilter<RandomXxh3State> {
    let mut seed = random_secret().unwrap();
    BloomFilter::with_size_and_hasher(num_bits, num_hashes, RandomXxh3State::advance(&mut seed))
}

/// A filter over a fixed configuration.
fn fixed(num_bits: usize, num_hashes: u32) -> BloomFilter<SecretBasedXxh3Builder> {
    BloomFilter::with_size_and_hasher(
        num_bits,
        num_hashes,
        SecretBasedXxh3Builder::with_secret([0x5a; 192]),
    )
}

#[test]
fn bloom_simple() {
    let bits = bits_for_rate(0.01, 100);
    let mut b: BloomFilter = seeded(bits, hashes_for_bits(bits, 100));
    b.insert(&1);
    assert!(b.contains(&1));
    assert!(!b.contains(&2));
    b.clear();
    assert!(!b.contains(&1));
}

#[test]
fn intersect() {
    let bits = bits_for_rate(0.01, 20);
    let mut b1 = seeded(bits, hashes_for_bits(bits, 20));
    b1.insert(&1);
    b1.insert(&2);
    let mut b2 = BloomFilter::combinable_with(&b1);
    b2.insert(&1);

    b1.intersect(&b2);

    assert!(b1.contains(&1));
    assert!(!b1.contains(&2));
}

#[test]
fn union() {
    let bits = bits_for_rate(0.01, 20);
    let mut b1 = seeded(bits, hashes_for_bits(bits, 20));
    b1.insert(&1);
    let mut b2 = BloomFilter::combinable_with(&b1);
    b2.insert(&2);

    b1.union(&b2);

    assert!(b1.contains(&1));
    assert!(b1.contains(&2));
}

/// The number of bits for `num_items` items at the given false-positive
/// rate: `num_items * ln(1 / rate) / ln(2)^2`, rounded to the nearest integer.
fn bits_for_rate(rate: f32, num_items: u32) -> usize {
    let ln22 = core::f32::consts::LN_2 * core::f32::consts::LN_2;
    (num_items as f32 * ((1.0 / rate).ln() / ln22)).round() as usize
}

/// The number of probes for `num_items` items in `num_bits` bits:
/// `num_bits / num_items * ln(2)`, rounded to the nearest integer and kept
/// within the bounds of the filter.
fn hashes_for_bits(num_bits: usize, num_items: u32) -> u32 {
    clamp_num_hashes((num_bits as f32 / num_items as f32 * core::f32::consts::LN_2).round() as u32)
}

#[test]
fn fpr_test() {
    let cnt = 500000;
    let rate = 0.01 as f32;

    let bits = bits_for_rate(rate, cnt);
    assert_eq!(bits, 4792529);
    let hashes = hashes_for_bits(bits, cnt);
    assert_eq!(hashes, 7);

    let mut b: BloomFilter = seeded(bits, hashes);
    let mut set: HashSet<i32> = HashSet::new();
    let mut rng = rand::thread_rng();

    let mut i = 0;

    while i < cnt {
        let v = rng.gen::<i32>();
        set.insert(v);
        b.insert(&v);
        i += 1;
    }

    i = 0;
    let mut false_positives = 0;
    while i < cnt {
        let v = rng.gen::<i32>();
        match (b.contains(&v), set.contains(&v)) {
            (true, false) => {
                false_positives += 1;
            }
            (false, true) => {
                assert!(false);
            } // should never happen
            _ => {}
        }
        i += 1;
    }

    // make sure we're not too far off
    let actual_rate = false_positives as f32 / cnt as f32;
    assert!(actual_rate > (rate - 0.001));
    assert!(actual_rate < (rate + 0.001));
}

#[test]
fn sizes_for_a_rate_of_one_in_a_hundred() {
    assert_eq!(bits_for_rate(0.01, 100), 959);
    assert_eq!(hashes_for_bits(959, 100), 7);
    assert_eq!(bits_for_rate(0.01, 20), 192);
    assert_eq!(hashes_for_bits(192, 20), 7);
    // Few bits for many items: the ideal is below two probes.
    assert_eq!(hashes_for_bits(100, 1000), 2);
    // Many bits for few items: the ideal is above two hundred probes.
    assert_eq!(hashes_for_bits(1_000_000, 10), 200);
}

#[test]
fn clamp_keeps_the_ideal_within_two_and_two_hundred() {
    assert_eq!(clamp_num_hashes(0), 2);
    assert_eq!(clamp_num_hashes(1), 2);
    assert_eq!(clamp_num_hashes(2), 2);
    assert_eq!(clamp_num_hashes(7), 7);
    assert_eq!(clamp_num_hashes(200), 200);
    assert_eq!(clamp_num_hashes(201), 200);
    assert_eq!(clamp_num_hashes(u32::MAX), 200);
}

#[test]
fn new_filter_reports_its_size_and_is_empty() {
    let f = fixed(1000, 5);
    assert_eq!(f.num_bits(), 1000);
    assert_eq!(f.num_hashes(), 5);
    for h1 in 0..50u64 {
        assert!(!f.contains_fingerprint(BloomFingerprint::new(h1, h1 + 17)));
    }
}

#[test]
fn insert_sets_exactly_the_slots_of_the_fingerprint() {
    // 3 probes in 64 slots from lanes 3 and 5: slots 3, 5 and (3 + 2) * 5 = 25.
    let mut f = fixed(64, 3);
    let fp = BloomFingerprint::new(3, 5);
    assert!(f.insert_fingerprint(fp));
    assert!(f.contains_fingerprint(fp));
    // A key whose slots are 3, 25 and (3 + 2) * 25 = 125 mod 64 = 61.
    assert!(!f.contains_fingerprint(BloomFingerprint::new(3, 25)));
    // A single probe looks at the first lane only.
    let mut single = fixed(64, 1);
    assert!(single.insert_fingerprint(BloomFingerprint::new(3, 5)));
    assert!(single.contains_fingerprint(BloomFingerprint::new(3, 40)));
    assert!(single.contains_fingerprint(BloomFingerprint::new(67, 40)));
    assert!(!single.contains_fingerprint(BloomFingerprint::new(5, 3)));
}

#[test]
fn insert_tells_whether_the_key_was_new() {
    let mut f = fixed(4096, 7);
    assert!(f.insert_slice(b"alpha"));
    assert!(!f.insert_slice(b"alpha"));
    assert!(f.insert(&17u64));
    assert!(!f.insert(&17u64));
    let fp = BloomFingerprint::new(11, 13);
    assert!(f.insert_fingerprint(fp));
    assert!(!f.insert_fingerprint(fp));
}

#[test]
fn no_false_negatives_on_concrete_keys() {
    let mut f = fixed(2048, 4);
    for i in 0..200u32 {
        f.insert_slice(&i.to_le_bytes());
    }
    for i in 0..200u32 {
        assert!(f.contains_slice(&i.to_le_bytes()));
    }
}

#[test]
fn clear_forgets_every_key_and_keeps_the_size() {
    let mut f = fixed(512, 3);
    f.insert_slice(b"one");
    f.insert_slice(b"two");
    f.clear();
    assert!(!f.contains_slice(b"one"));
    assert!(!f.contains_slice(b"two"));
    assert_eq!(f.num_bits(), 512);
    assert_eq!(f.num_hashes(), 3);
    assert!(f.insert_slice(b"one"));
}

#[test]
fn union_holds_what_either_filter_held() {
    let mut a = fixed(1024, 5);
    a.insert_slice(b"x");
    let mut b = BloomFilter::combinable_with(&a);
    assert_eq!(b.num_bits(), 1024);
    assert_eq!(b.num_hashes(), 5);
    assert!(!b.contains_slice(b"x"));
    b.insert_slice(b"y");

    assert!(a.union(&b));
    assert!(a.contains_slice(b"x"));
    assert!(a.contains_slice(b"y"));
    // A second union changes nothing.
    assert!(!a.union(&b));
}

#[test]
fn intersect_holds_what_both_filters_held() {
    let mut a = fixed(1024, 5);
    a.insert_slice(b"x");
    a.insert_slice(b"both");
    let mut b = BloomFilter::combinable_with(&a);
    b.insert_slice(b"y");
    b.insert_slice(b"both");

    assert!(a.intersect(&b));
    assert!(!a.contains_slice(b"x"));
    assert!(!a.contains_slice(b"y"));
    assert!(a.contains_slice(b"both"));
    // A second intersection changes nothing.
    assert!(!a.intersect(&b));
}

#[test]
fn fingerprint_computed_once_serves_every_filter_of_the_configuration() {
    let hasher = SecretBasedXxh3Builder::with_secret([9; 192]);
    let mut small = BloomFilter::with_size_and_hasher(97, 3, hasher);
    let mut large = BloomFilter::with_size_and_hasher(10007, 9, hasher);
    small.insert_slice(b"key");
    large.insert_slice(b"key");
    let fp = hasher.hash_one_128(b"key");
    assert!(small.contains_fingerprint(fp));
    assert!(large.contains_fingerprint(fp));
    let other = hasher.hash_one_128(b"another key");
    assert_eq!(small.contains_slice(b"another key"), small.contains_fingerprint(other));
    assert_eq!(large.contains_slice(b"another key"), large.contains_fingerprint(other));
    assert!(!large.contains_fingerprint(other));
}
