use std::hash::{Hash, Hasher};

use xx_bloom::xxh_helper::{random_secret, DEFAULT_SECRET_SIZE};
use xx_bloom::{
    BloomBuildHasher, BloomFingerprint, BloomHasher, HashIter, RandomXxh3State,
    SecretBasedXxh3Builder, XXH3_SECRET_SIZE,
};

/// Everything the cursor still hands out.
fn drain(mut it: HashIter) -> Vec<u64> {
    let mut out = Vec::new();
    while let Some(h) = it.next() {
        out.push(h);
    }
    out
}

#[test]
fn cursor_hands_out_the_lanes_and_then_the_products() {
    let fp = BloomFingerprint::new(3, 5);
    assert_eq!(
        drain(HashIter::from_fingerprint(fp, 6)),
        vec![3, 5, (3 + 2) * 5, (3 + 3) * 5, (3 + 4) * 5, (3 + 5) * 5]
    );
}

#[test]
fn cursor_hands_out_exactly_as_many_values_as_asked_for() {
    let fp = BloomFingerprint::new(0xdead_beef, 0x1234_5678_9abc_def0);
    for count in [0u32, 1, 2, 3, 7, 200, 1000] {
        let values = drain(HashIter::from_fingerprint(fp, count));
        assert_eq!(values.len(), count as usize);
        for v in values {
            assert!(v % 977 < 977);
        }
    }
    let mut it = HashIter::from_fingerprint(fp, 1);
    assert_eq!(it.next(), Some(0xdead_beef));
    assert_eq!(it.next(), None);
    assert_eq!(it.next(), None);
}

#[test]
fn cursor_arithmetic_wraps_at_64_bits() {
    let fp = BloomFingerprint::new(u64::MAX, 3);
    // (u64::MAX + 2) wraps to 1, and 1 * 3 = 3; (u64::MAX + 3) wraps to 2.
    assert_eq!(drain(HashIter::from_fingerprint(fp, 4)), vec![u64::MAX, 3, 3, 6]);
    let fp = BloomFingerprint::new(1, 1 << 63);
    // (1 + 2) * 2^63 wraps to 2^63; (1 + 3) * 2^63 wraps to 0.
    assert_eq!(drain(HashIter::from_fingerprint(fp, 4)), vec![1, 1 << 63, 1 << 63, 0]);
}

#[test]
fn a_cursor_knows_its_fingerprint() {
    let hasher = SecretBasedXxh3Builder::with_secret([8u8; 192]);
    let it = HashIter::from_slice(b"key", 4, &hasher);
    assert_eq!(
        drain(HashIter::from_fingerprint(it.digest(), 4)),
        drain(HashIter::from_fingerprint(hasher.hash_one_128(b"key"), 4))
    );
    assert_eq!(drain(HashIter::from_fingerprint(it.digest(), 4)), drain(it));
}

#[test]
fn a_copy_of_a_cursor_starts_where_the_cursor_stood() {
    let fp = BloomFingerprint::new(7, 11);
    let mut it = HashIter::from_fingerprint(fp, 3);
    assert_eq!(it.next(), Some(7));
    let copy = it;
    assert_eq!(drain(it), vec![11, 99]);
    assert_eq!(drain(copy), vec![11, 99]);
}

#[test]
fn a_128_bit_digest_splits_into_high_and_low_lanes() {
    let fp = BloomFingerprint::new_128(0x0123_4567_89ab_cdef_fedc_ba98_7654_3210);
    assert_eq!(
        drain(HashIter::from_fingerprint(fp, 2)),
        vec![0x0123_4567_89ab_cdef, 0xfedc_ba98_7654_3210]
    );
    let fp = BloomFingerprint::new_128(u128::MAX);
    assert_eq!(drain(HashIter::from_fingerprint(fp, 2)), vec![u64::MAX, u64::MAX]);
    let fp = BloomFingerprint::new_128(5);
    assert_eq!(drain(HashIter::from_fingerprint(fp, 2)), vec![0, 5]);
}

#[test]
fn a_byte_string_is_digested_by_xxh3_under_the_secret() {
    let secret = [0x42u8; 192];
    let hasher = SecretBasedXxh3Builder::with_secret(secret);
    for key in [&b""[..], &b"a"[..], &b"a longer key, above sixteen bytes"[..], &[7u8; 300][..]] {
        let h = xxhash_rust::xxh3::xxh3_128_with_secret(key, &secret);
        let expected = vec![(h >> 64) as u64, h as u64];
        assert_eq!(drain(HashIter::from_slice(key, 2, &hasher)), expected);
        assert_eq!(drain(HashIter::from_fingerprint(hasher.hash_one_128(key), 2)), expected);
    }
    // Another secret, another digest.
    let mut mixed = [0u8; 192];
    for (i, byte) in mixed.iter_mut().enumerate() {
        *byte = (i * 37 + 11) as u8;
    }
    let other = SecretBasedXxh3Builder::with_secret(mixed);
    let h = xxhash_rust::xxh3::xxh3_128_with_secret(b"a", &mixed);
    assert_eq!(drain(HashIter::from_slice(b"a", 2, &other)), vec![(h >> 64) as u64, h as u64]);
    assert_ne!(
        drain(HashIter::from_slice(b"a", 2, &hasher)),
        drain(HashIter::from_slice(b"a", 2, &other))
    );
}

#[test]
fn a_streaming_hasher_digests_what_was_written_to_it() {
    let secret = [0x42u8; 192];
    let hasher = SecretBasedXxh3Builder::with_secret(secret);
    let mut stream = hasher.build_hasher();
    stream.write(b"split ");
    stream.write(b"in two");
    let h = xxhash_rust::xxh3::xxh3_128_with_secret(b"split in two", &secret);
    assert_eq!(
        drain(HashIter::from_fingerprint(stream.finish_128(), 2)),
        vec![(h >> 64) as u64, h as u64]
    );
    let again = hasher.build();
    let empty = xxhash_rust::xxh3::xxh3_128_with_secret(b"", &secret);
    assert_eq!(
        drain(HashIter::from_fingerprint(again.finish_128(), 2)),
        vec![(empty >> 64) as u64, empty as u64]
    );
}

#[test]
fn a_long_stream_in_pieces_digests_as_the_bytes_in_one_piece() {
    let mut secret = [0u8; 192];
    for (i, byte) in secret.iter_mut().enumerate() {
        *byte = (i * 29 + 5) as u8;
    }
    let hasher = SecretBasedXxh3Builder::with_secret(secret);
    let mut input = Vec::new();
    for i in 0..5000u32 {
        input.push((i * 7 + 3) as u8);
    }
    for total in [1usize, 16, 17, 128, 129, 240, 241, 256, 257, 1000, 5000] {
        for piece in [1usize, 7, 64, 255, 256, 257, 1024] {
            let mut stream = hasher.build_hasher();
            for chunk in input[..total].chunks(piece) {
                stream.write(chunk);
            }
            let h = xxhash_rust::xxh3::xxh3_128_with_secret(&input[..total], &secret);
            assert_eq!(
                drain(HashIter::from_fingerprint(stream.finish_128(), 2)),
                vec![(h >> 64) as u64, h as u64],
                "{} bytes in pieces of {}",
                total,
                piece
            );
            assert_eq!(
                drain(HashIter::from_fingerprint(stream.finish_128(), 2)),
                drain(HashIter::from_fingerprint(hasher.hash_one_128(&input[..total]), 2))
            );
        }
    }
}

#[test]
fn a_fresh_hasher_digests_the_empty_string_under_its_secret() {
    let mut secret = [0u8; 192];
    for (i, byte) in secret.iter_mut().enumerate() {
        *byte = (i * 13 + 1) as u8;
    }
    let empty = xxhash_rust::xxh3::xxh3_128_with_secret(b"", &secret);
    let expected = vec![(empty >> 64) as u64, empty as u64];
    let chosen = SecretBasedXxh3Builder::with_secret(secret);
    assert_eq!(drain(HashIter::from_fingerprint(chosen.build().finish_128(), 2)), expected);
    assert_eq!(drain(HashIter::from_fingerprint(chosen.build_hasher().finish_128(), 2)), expected);
    assert_eq!(drain(HashIter::from_fingerprint(chosen.hash_one_128(b""), 2)), expected);

    let mut seed = secret;
    let state = RandomXxh3State::advance(&mut seed);
    let empty = xxhash_rust::xxh3::xxh3_128_with_secret(b"", &seed);
    let expected = vec![(empty >> 64) as u64, empty as u64];
    assert_eq!(drain(HashIter::from_fingerprint(state.build().finish_128(), 2)), expected);
    assert_eq!(drain(HashIter::from_fingerprint(state.build_hasher().finish_128(), 2)), expected);
    // Another secret, another hasher.
    let mut unlike = [0u8; 192];
    for (i, byte) in unlike.iter_mut().enumerate() {
        *byte = (i * 31 + 17) as u8;
    }
    let other = SecretBasedXxh3Builder::with_secret(unlike);
    assert_ne!(
        drain(HashIter::from_fingerprint(other.build().finish_128(), 2)),
        drain(HashIter::from_fingerprint(chosen.build().finish_128(), 2))
    );
}

#[test]
fn a_cursor_over_an_item_carries_what_the_fed_hasher_hands_out() {
    let mut secret = [0u8; 192];
    for (i, byte) in secret.iter_mut().enumerate() {
        *byte = (i * 41 + 9) as u8;
    }
    let hasher = SecretBasedXxh3Builder::with_secret(secret);
    let item = (17u32, "seventeen", [1u8, 7]);
    let mut stream = hasher.build_hasher();
    item.hash(&mut stream);
    let by_hand = stream.finish_128();
    assert_eq!(
        drain(HashIter::from(&item, 5, &hasher)),
        drain(HashIter::from_fingerprint(by_hand, 5))
    );
    // An item that is not written to the hasher is another digest.
    let unfed = hasher.build_hasher().finish_128();
    assert_ne!(
        drain(HashIter::from(&item, 2, &hasher)),
        drain(HashIter::from_fingerprint(unfed, 2))
    );
}

#[test]
fn a_hashable_item_is_digested_alike_every_time() {
    let hasher = SecretBasedXxh3Builder::with_secret([3u8; 192]);
    let first = drain(HashIter::from(&12345u32, 5, &hasher));
    let second = drain(HashIter::from(&12345u32, 5, &hasher));
    let other = drain(HashIter::from(&12346u32, 5, &hasher));
    assert_eq!(first.len(), 5);
    assert_eq!(first, second);
    assert_ne!(first, other);
    assert_eq!(
        drain(HashIter::from("text", 3, &hasher)),
        drain(HashIter::from("text", 3, &hasher))
    );
}

#[test]
fn the_secret_is_192_bytes() {
    assert_eq!(DEFAULT_SECRET_SIZE, 192);
    assert_eq!(XXH3_SECRET_SIZE, 192);
    assert_eq!(random_secret().unwrap().len(), 192);
}

#[test]
fn a_random_seed_differs_from_draw_to_draw() {
    let a = random_secret().unwrap();
    let b = random_secret().unwrap();
    assert_ne!(a, b);
    assert_ne!(a, [0u8; 192]);
}

#[test]
fn advancing_a_seed_counts_in_its_first_eight_bytes() {
    let mut seed = [0u8; 192];
    for (i, byte) in seed.iter_mut().enumerate() {
        *byte = i as u8;
    }
    let start = seed;
    let first = RandomXxh3State::advance(&mut seed);
    assert_eq!(first.secret(), &seed[..]);
    assert_eq!(seed[8..], start[8..]);
    let before = u64::from_ne_bytes(start[..8].try_into().unwrap());
    let after = u64::from_ne_bytes(seed[..8].try_into().unwrap());
    assert_eq!(after, before.wrapping_add(1));

    let second = RandomXxh3State::advance(&mut seed);
    assert_ne!(first.secret(), second.secret());
    let later = u64::from_ne_bytes(seed[..8].try_into().unwrap());
    assert_eq!(later, before.wrapping_add(2));
}

#[test]
fn advancing_a_seed_wraps_its_counter() {
    let mut seed = [0xffu8; 192];
    let state = RandomXxh3State::advance(&mut seed);
    assert_eq!(seed[..8], [0u8; 8]);
    assert_eq!(seed[8..], [0xffu8; 184]);
    assert_eq!(state.secret(), &seed[..]);
}

#[test]
fn a_state_from_a_seed_digests_by_xxh3_under_its_secret() {
    let mut seed = [0x17u8; 192];
    let state = RandomXxh3State::advance(&mut seed);
    let h = xxhash_rust::xxh3::xxh3_128_with_secret(b"key", &seed);
    assert_eq!(
        drain(HashIter::from_fingerprint(state.hash_one_128(b"key"), 2)),
        vec![(h >> 64) as u64, h as u64]
    );
    let stream = state.build_hasher();
    let empty = xxhash_rust::xxh3::xxh3_128_with_secret(b"", &seed);
    assert_eq!(
        drain(HashIter::from_fingerprint(stream.finish_128(), 2)),
        vec![(empty >> 64) as u64, empty as u64]
    );
    let built = state.build();
    assert_eq!(
        drain(HashIter::from_fingerprint(built.finish_128(), 2)),
        vec![(empty >> 64) as u64, empty as u64]
    );
}
