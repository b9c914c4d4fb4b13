use xx_bloom::ValueVec;

/// The pattern of values stored at index `i` by the tests below.
fn pattern(i: usize, max: u32) -> u32 {
    ((i as u64).wrapping_mul(2654435761) >> 7) as u32 & max
}

#[test]
fn new_vector_is_all_zero() {
    let v = ValueVec::new(5, 100);
    assert_eq!(v.len(), 100);
    assert_eq!(v.bits_per_val(), 5);
    for i in 0..100 {
        assert_eq!(v.get(i), 0);
    }
}

#[test]
fn max_value_is_two_to_the_width_less_one() {
    assert_eq!(ValueVec::new(0, 4).max_value(), 0);
    assert_eq!(ValueVec::new(1, 4).max_value(), 1);
    assert_eq!(ValueVec::new(4, 4).max_value(), 15);
    assert_eq!(ValueVec::new(7, 4).max_value(), 127);
    assert_eq!(ValueVec::new(31, 4).max_value(), 0x7fff_ffff);
    assert_eq!(ValueVec::new(32, 4).max_value(), u32::MAX);
}

#[test]
fn every_width_holds_its_values_across_word_boundaries() {
    for bits in 0..=32usize {
        let count = 200;
        let mut v = ValueVec::new(bits, count);
        let max = v.max_value();
        for i in 0..count {
            v.set(i, pattern(i, max));
        }
        for i in 0..count {
            assert_eq!(v.get(i), pattern(i, max), "width {} index {}", bits, i);
        }
    }
}

#[test]
fn set_leaves_the_neighbours_alone() {
    for bits in 1..=32usize {
        let count = 70;
        let mut v = ValueVec::new(bits, count);
        let max = v.max_value();
        for i in 0..count {
            v.set(i, max);
        }
        for i in 0..count {
            v.set(i, 0);
            for j in 0..count {
                let expected = if j == i { 0 } else { max };
                assert_eq!(v.get(j), expected, "width {} cleared {} read {}", bits, i, j);
            }
            v.set(i, max);
        }
    }
}

#[test]
fn a_value_that_straddles_two_words() {
    // Width 7: value 9 covers bits 63 to 69, one bit in the first word and
    // six in the second.
    let mut v = ValueVec::new(7, 20);
    v.set(9, 0b101_0101);
    v.set(8, 0b111_1111);
    v.set(10, 0b100_0001);
    assert_eq!(v.get(9), 0b101_0101);
    assert_eq!(v.get(8), 0b111_1111);
    assert_eq!(v.get(10), 0b100_0001);
    v.set(9, 0);
    assert_eq!(v.get(9), 0);
    assert_eq!(v.get(8), 0b111_1111);
    assert_eq!(v.get(10), 0b100_0001);
}

#[test]
fn clear_zeroes_every_value() {
    let mut v = ValueVec::new(13, 50);
    for i in 0..50 {
        v.set(i, pattern(i, v.max_value()));
    }
    v.clear();
    assert_eq!(v.len(), 50);
    for i in 0..50 {
        assert_eq!(v.get(i), 0);
    }
}

#[test]
fn an_empty_vector_and_a_vector_of_no_width() {
    let empty = ValueVec::new(8, 0);
    assert_eq!(empty.len(), 0);
    let mut flat = ValueVec::new(0, 10);
    assert_eq!(flat.len(), 10);
    flat.set(9, 0);
    assert_eq!(flat.get(9), 0);
    flat.clear();
    assert_eq!(flat.get(0), 0);
}
