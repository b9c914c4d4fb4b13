//! A vector of fixed-width unsigned values packed back to back into 64-bit
//! words. A value may start in one word and end in the next.

use vstd::arithmetic::power2::pow2;
use vstd::prelude::*;

verus! {

/// The word with its lowest `bits` bits set.
spec fn low_mask(bits: u64) -> u64 {
    ((1u64 << bits) - 1) as u64
}

/// Bit `q` of a word.
spec fn bit_of(w: u64, q: u64) -> bool {
    (w >> q) & 1 == 1
}

/// Bit `p` of a word array read as one long bit string, lowest bit of the
/// first word first.
spec fn bit_at(words: Seq<u64>, p: int) -> bool {
    bit_of(words[p / 64], (p % 64) as u64)
}

/// The `bits`-wide value whose lowest bit is bit `start` of the array.
spec fn read_bits(words: Seq<u64>, start: int, bits: u64) -> u64 {
    let w = start / 64;
    let off = (start % 64) as u64;
    if off + bits <= 64 {
        (words[w] >> off) & low_mask(bits)
    } else {
        ((words[w] >> off) | (words[w + 1] << ((64 - off) as u64))) & low_mask(bits)
    }
}

proof fn lemma_read_one_word(w: u64, off: u64, bits: u64, k: u64)
    by (bit_vector)
    requires
        off < 64,
        bits <= 32,
        off + bits <= 64,
        k < bits,
    ensures
        bit_of((w >> off) & low_mask(bits), k) == bit_of(w, (off + k) as u64),
{
}

proof fn lemma_read_two_words(w0: u64, w1: u64, off: u64, bits: u64, k: u64)
    by (bit_vector)
    requires
        off < 64,
        bits <= 32,
        off + bits > 64,
        k < bits,
    ensures
        bit_of(((w0 >> off) | (w1 << ((64 - off) as u64))) & low_mask(bits), k) == (if off + k
            < 64 {
            bit_of(w0, (off + k) as u64)
        } else {
            bit_of(w1, (off + k - 64) as u64)
        }),
{
}

proof fn lemma_masked_is_small(x: u64, bits: u64)
    by (bit_vector)
    requires
        bits <= 32,
    ensures
        (x & low_mask(bits)) >> bits == 0,
        x & low_mask(bits) <= low_mask(bits),
        low_mask(bits) <= 0xffff_ffff,
{
}

proof fn lemma_write_low_word(w: u64, v: u64, off: u64, bits: u64, q: u64)
    by (bit_vector)
    requires
        off < 64,
        bits <= 32,
        v >> bits == 0,
        q < 64,
    ensures
        bit_of((w & !(low_mask(bits) << off)) | (v << off), q) == (if off <= q && q < off + bits {
            bit_of(v, (q - off) as u64)
        } else {
            bit_of(w, q)
        }),
{
}

proof fn lemma_write_high_word(w: u64, v: u64, off: u64, bits: u64, q: u64)
    by (bit_vector)
    requires
        off < 64,
        bits <= 32,
        off + bits > 64,
        v >> bits == 0,
        q < 64,
    ensures
        bit_of(
            (w & !(low_mask(bits) >> ((64 - off) as u64))) | (v >> ((64 - off) as u64)),
            q,
        ) == (if q + 64 < off + bits {
            bit_of(v, (q + 64 - off) as u64)
        } else {
            bit_of(w, q)
        }),
{
}

proof fn lemma_mask_keeps_low_bits(x: u64, bits: u64, k: u64)
    by (bit_vector)
    requires
        bits <= 32,
        k < bits,
    ensures
        bit_of(x & low_mask(bits), k) == bit_of(x, k),
{
}

proof fn lemma_top_bit_decides(x: u64, y: u64, bits: u64)
    by (bit_vector)
    requires
        0 < bits <= 32,
        x >> bits == 0,
        y >> bits == 0,
        x & low_mask((bits - 1) as u64) == y & low_mask((bits - 1) as u64),
        bit_of(x, (bits - 1) as u64) == bit_of(y, (bits - 1) as u64),
    ensures
        x == y,
{
}

proof fn lemma_zero_width(x: u64)
    by (bit_vector)
    requires
        x >> 0 == 0,
    ensures
        x == 0,
{
}

/// Two values below `2^bits` that agree on each of their lowest `bits` bits
/// are the same value.
proof fn lemma_same_bits_same_value(x: u64, y: u64, bits: u64)
    requires
        bits <= 32,
        x >> bits == 0,
        y >> bits == 0,
        forall|k: u64| k < bits ==> bit_of(x, k) == bit_of(y, k),
    ensures
        x == y,
    decreases bits,
{
    if bits == 0 {
        lemma_zero_width(x);
        lemma_zero_width(y);
    } else {
        let below = (bits - 1) as u64;
        let x1 = x & low_mask(below);
        let y1 = y & low_mask(below);
        lemma_masked_is_small(x, below);
        lemma_masked_is_small(y, below);
        assert forall|k: u64| k < below implies bit_of(x1, k) == bit_of(y1, k) by {
            lemma_mask_keeps_low_bits(x, below, k);
            lemma_mask_keeps_low_bits(y, below, k);
        }
        lemma_same_bits_same_value(x1, y1, below);
        assert(bit_of(x, below) == bit_of(y, below));
        lemma_top_bit_decides(x, y, bits);
    }
}

/// The array after the `bits`-wide value `v` has been stored with its lowest
/// bit at bit `start`.
spec fn write_bits(words: Seq<u64>, start: int, bits: u64, v: u64) -> Seq<u64> {
    let w = start / 64;
    let off = (start % 64) as u64;
    let low = words.update(w, (words[w] & !(low_mask(bits) << off)) | (v << off));
    if off + bits <= 64 {
        low
    } else {
        low.update(
            w + 1,
            (words[w + 1] & !(low_mask(bits) >> ((64 - off) as u64))) | (v >> ((64 - off) as u64)),
        )
    }
}

/// Bit `k` of a value read from the array is bit `start + k` of the array.
proof fn lemma_read_bits_bit(words: Seq<u64>, start: int, bits: u64, k: u64)
    requires
        0 <= start,
        bits <= 32,
        k < bits,
    ensures
        bit_of(read_bits(words, start, bits), k) == bit_at(words, start + k),
{
    let w = start / 64;
    let off = (start % 64) as u64;
    if off + bits <= 64 {
        lemma_read_one_word(words[w], off, bits, k);
    } else {
        lemma_read_two_words(words[w], words[w + 1], off, bits, k);
    }
}

/// A value read from the array depends on nothing but the bits it covers.
proof fn lemma_read_depends_on_bits(a: Seq<u64>, b: Seq<u64>, start: int, bits: u64)
    requires
        0 <= start,
        bits <= 32,
        forall|p: int| start <= p < start + bits ==> #[trigger] bit_at(a, p) == bit_at(b, p),
    ensures
        read_bits(a, start, bits) == read_bits(b, start, bits),
{
    let x = read_bits(a, start, bits);
    let y = read_bits(b, start, bits);
    let w = start / 64;
    let off = (start % 64) as u64;
    if off + bits <= 64 {
        lemma_masked_is_small(a[w] >> off, bits);
        lemma_masked_is_small(b[w] >> off, bits);
    } else {
        lemma_masked_is_small((a[w] >> off) | (a[w + 1] << ((64 - off) as u64)), bits);
        lemma_masked_is_small((b[w] >> off) | (b[w + 1] << ((64 - off) as u64)), bits);
    }
    assert forall|k: u64| k < bits implies bit_of(x, k) == bit_of(y, k) by {
        lemma_read_bits_bit(a, start, bits, k);
        lemma_read_bits_bit(b, start, bits, k);
        assert(bit_at(a, start + k) == bit_at(b, start + k));
    }
    lemma_same_bits_same_value(x, y, bits);
}

/// Storing a value changes the bits it covers, which become the bits of the
/// value, and no others.
proof fn lemma_write_bits_bit(words: Seq<u64>, start: int, bits: u64, v: u64, p: int)
    requires
        0 <= start,
        0 < bits <= 32,
        start + bits <= 64 * words.len(),
        v >> bits == 0,
        0 <= p < 64 * words.len(),
    ensures
        write_bits(words, start, bits, v).len() == words.len(),
        bit_at(write_bits(words, start, bits, v), p) == (if start <= p < start + bits {
            bit_of(v, (p - start) as u64)
        } else {
            bit_at(words, p)
        }),
{
    let w = start / 64;
    let off = (start % 64) as u64;
    let q = (p % 64) as u64;
    if p / 64 == w {
        lemma_write_low_word(words[w], v, off, bits, q);
    } else if p / 64 == w + 1 && off + bits > 64 {
        lemma_write_high_word(words[w + 1], v, off, bits, q);
    }
}

/// A value stored is the value read back from the same place.
proof fn lemma_write_then_read(words: Seq<u64>, start: int, bits: u64, v: u64)
    requires
        0 <= start,
        0 < bits <= 32,
        start + bits <= 64 * words.len(),
        v >> bits == 0,
    ensures
        read_bits(write_bits(words, start, bits, v), start, bits) == v,
{
    let after = write_bits(words, start, bits, v);
    let x = read_bits(after, start, bits);
    let w = start / 64;
    let off = (start % 64) as u64;
    if off + bits <= 64 {
        lemma_masked_is_small(after[w] >> off, bits);
    } else {
        lemma_masked_is_small((after[w] >> off) | (after[w + 1] << ((64 - off) as u64)), bits);
    }
    assert forall|k: u64| k < bits implies bit_of(x, k) == bit_of(v, k) by {
        lemma_read_bits_bit(after, start, bits, k);
        lemma_write_bits_bit(words, start, bits, v, start + k);
    }
    lemma_same_bits_same_value(x, v, bits);
}

/// A value stored leaves every value that does not overlap it as it was.
proof fn lemma_write_then_read_elsewhere(
    words: Seq<u64>,
    start: int,
    bits: u64,
    v: u64,
    other: int,
)
    requires
        0 <= start,
        0 < bits <= 32,
        start + bits <= 64 * words.len(),
        v >> bits == 0,
        0 <= other,
        other + bits <= 64 * words.len(),
        other + bits <= start || start + bits <= other,
    ensures
        read_bits(write_bits(words, start, bits, v), other, bits) == read_bits(words, other, bits),
{
    let after = write_bits(words, start, bits, v);
    assert forall|p: int| other <= p < other + bits implies #[trigger] bit_at(after, p) == bit_at(
        words,
        p,
    ) by {
        lemma_write_bits_bit(words, start, bits, v, p);
    }
    lemma_read_depends_on_bits(after, words, other, bits);
}


proof fn lemma_zero_reads_zero(off: u64, bits: u64)
    by (bit_vector)
    requires
        off < 64,
        bits <= 32,
    ensures
        (0u64 >> off) & low_mask(bits) == 0,
        ((0u64 >> off) | (0u64 << ((64 - off) as u64))) & low_mask(bits) == 0,
{
}

proof fn lemma_no_width_reads_zero(x: u64)
    by (bit_vector)
    ensures
        x & low_mask(0) == 0,
{
}

/// A value of no width is zero.
proof fn lemma_no_width_entry(words: Seq<u64>, start: int)
    ensures
        read_bits(words, start, 0) == 0,
{
    lemma_no_width_reads_zero(words[start / 64] >> ((start % 64) as u64));
}

/// Reading from words that are all zero gives zero.
proof fn lemma_zero_words_read_zero(words: Seq<u64>, start: int, bits: u64)
    requires
        0 <= start,
        bits <= 32,
        start + bits <= 64 * words.len(),
        forall|w: int| 0 <= w < words.len() ==> words[w] == 0u64,
    ensures
        read_bits(words, start, bits) == 0,
{
    let w = start / 64;
    let off = (start % 64) as u64;
    if bits == 0 {
        lemma_no_width_entry(words, start);
    } else {
        lemma_zero_reads_zero(off, bits);
    }
}


proof fn lemma_low_mask_is_pow2(bits: u64)
    requires
        bits <= 32,
    ensures
        low_mask(bits) == pow2(bits as nat) - 1,
        pow2(bits as nat) <= 0x1_0000_0000,
{
    vstd::arithmetic::power2::lemma2_to64();
    if bits < 32 {
        vstd::arithmetic::power2::lemma_pow2_strictly_increases(bits as nat, 32);
    }
    vstd::bits::lemma_u64_shl_is_mul(1, bits);
}

proof fn lemma_small_fits(v: u64, bits: u64)
    by (bit_vector)
    requires
        bits <= 32,
        v <= low_mask(bits),
    ensures
        v >> bits == 0,
{
}

proof fn lemma_entry_inside(i: int, bits: int, count: int)
    by (nonlinear_arith)
    requires
        0 <= i < count,
        0 <= bits,
    ensures
        0 <= i * bits,
        i * bits + bits <= count * bits,
{
}

proof fn lemma_entries_apart(i: int, j: int, bits: int)
    by (nonlinear_arith)
    requires
        0 <= i,
        0 <= j,
        i != j,
        0 <= bits,
    ensures
        j * bits + bits <= i * bits || i * bits + bits <= j * bits,
{
}

proof fn lemma_shift_one(bits: u64)
    by (bit_vector)
    requires
        bits <= 32,
    ensures
        1u64 << bits >= 1,
{
}

/// A fixed number of unsigned values, each `bits_per_val` bits wide, packed
/// without gaps into as few 64-bit words as hold them.
pub struct ValueVec {
    words: Vec<u64>,
    bits_per_val: usize,
    count: usize,
}

impl View for ValueVec {
    type V = Seq<u32>;

    /// The values held, by index.
    closed spec fn view(&self) -> Seq<u32> {
        Seq::new(
            self.count as nat,
            |i: int| read_bits(self.words@, i * self.bits_per_val, self.bits_per_val as u64) as u32,
        )
    }
}

impl ValueVec {
    /// The width is at most 32 bits and the storage is exactly as many words
    /// as the values need.
    pub closed spec fn wf(&self) -> bool {
        &&& self.bits_per_val <= 32
        &&& self.count * self.bits_per_val <= usize::MAX
        &&& self.words@.len() == (self.count * self.bits_per_val + 63) / 64
    }

    /// The width of one value, in bits.
    pub closed spec fn spec_bits_per_val(&self) -> nat {
        self.bits_per_val as nat
    }

    /// The largest value one entry can hold: `2^bits_per_val - 1`.
    pub open spec fn spec_max_value(&self) -> nat {
        (pow2(self.spec_bits_per_val()) - 1) as nat
    }

    /// Every value held is at most the largest value of the width.
    pub proof fn lemma_values_bounded(&self)
        requires
            self.wf(),
        ensures
            self.spec_bits_per_val() <= 32,
            self.spec_max_value() <= u32::MAX,
            self@.len() <= usize::MAX,
            forall|i: int| 0 <= i < self@.len() ==> #[trigger] self@[i] <= self.spec_max_value(),
    {
        let bits = self.bits_per_val as u64;
        lemma_low_mask_is_pow2(bits);
        assert forall|i: int| 0 <= i < self@.len() implies #[trigger] self@[i]
            <= self.spec_max_value() by {
            let start = i * self.bits_per_val;
            let w = start / 64;
            let off = (start % 64) as u64;
            if off + bits <= 64 {
                lemma_masked_is_small(self.words@[w] >> off, bits);
            } else {
                lemma_masked_is_small(
                    (self.words@[w] >> off) | (self.words@[w + 1] << ((64 - off) as u64)),
                    bits,
                );
            }
        }
    }

    /// A vector of `count` values of `bits_per_val` bits each, all zero.
    pub fn new(bits_per_val: usize, count: usize) -> (v: Self)
        requires
            bits_per_val <= 32,
            bits_per_val * count <= usize::MAX,
        ensures
            v.wf(),
            v.spec_bits_per_val() == bits_per_val,
            v@ == Seq::new(count as nat, |i: int| 0u32),
    {
        assert(count * bits_per_val == bits_per_val * count) by (nonlinear_arith);
        let total: usize = count * bits_per_val;
        let n: usize = if total % 64 == 0 {
            total / 64
        } else {
            total / 64 + 1
        };
        let mut words: Vec<u64> = Vec::new();
        let mut filled: usize = 0;
        while filled < n
            invariant
                filled <= n,
                words@.len() == filled,
                forall|w: int| 0 <= w < filled ==> words@[w] == 0u64,
            decreases n - filled,
        {
            words.push(0);
            filled += 1;
        }
        let v = Self { words, bits_per_val, count };
        proof {
            assert forall|i: int| 0 <= i < count implies #[trigger] v@[i] == 0u32 by {
                lemma_entry_inside(i, bits_per_val as int, count as int);
                lemma_zero_words_read_zero(v.words@, i * bits_per_val, bits_per_val as u64);
            }
            assert(v@ =~= Seq::new(count as nat, |i: int| 0u32));
        }
        v
    }

    /// The number of values held.
    pub fn len(&self) -> (n: usize)
        ensures
            n == self@.len(),
    {
        self.count
    }

    /// The width of one value, in bits.
    pub fn bits_per_val(&self) -> (bits: usize)
        ensures
            bits == self.spec_bits_per_val(),
    {
        self.bits_per_val
    }

    /// The largest value one entry can hold.
    pub fn max_value(&self) -> (m: u32)
        requires
            self.wf(),
        ensures
            m == self.spec_max_value(),
    {
        let bits: u64 = self.bits_per_val as u64;
        proof {
            lemma_low_mask_is_pow2(bits);
            lemma_shift_one(bits);
        }
        let mask: u64 = (1u64 << bits) - 1;
        mask as u32
    }

    /// The value at index `i`.
    pub fn get(&self, i: usize) -> (val: u32)
        requires
            self.wf(),
            i < self@.len(),
        ensures
            val == self@[i as int],
    {
        let bits: u64 = self.bits_per_val as u64;
        if bits == 0 {
            proof {
                lemma_no_width_entry(self.words@, i * self.bits_per_val);
            }
            return 0;
        }
        proof {
            lemma_entry_inside(i as int, self.bits_per_val as int, self.count as int);
            lemma_shift_one(bits);
        }
        let start: usize = i * self.bits_per_val;
        let w: usize = start / 64;
        let off: u64 = (start % 64) as u64;
        let mask: u64 = (1u64 << bits) - 1;
        let low: u64 = self.words[w] >> off;
        let raw: u64 = if off + bits <= 64 {
            low
        } else {
            low | (self.words[w + 1] << (64 - off))
        };
        proof {
            lemma_masked_is_small(raw, bits);
        }
        (raw & mask) as u32
    }

    /// Stores `val` at index `i` and leaves every other value as it was.
    pub fn set(&mut self, i: usize, val: u32)
        requires
            old(self).wf(),
            i < old(self)@.len(),
            val <= old(self).spec_max_value(),
        ensures
            final(self).wf(),
            final(self).spec_bits_per_val() == old(self).spec_bits_per_val(),
            final(self)@ == old(self)@.update(i as int, val),
    {
        let bits: u64 = self.bits_per_val as u64;
        proof {
            lemma_low_mask_is_pow2(bits);
        }
        if bits == 0 {
            proof {
                lemma_no_width_entry(self.words@, i * self.bits_per_val);
                assert(low_mask(0) == 0) by (bit_vector);
                assert(self@[i as int] == val);
                assert(self@ =~= old(self)@.update(i as int, val));
            }
            return ;
        }
        let v: u64 = val as u64;
        proof {
            lemma_entry_inside(i as int, self.bits_per_val as int, self.count as int);
            lemma_shift_one(bits);
            lemma_small_fits(v, bits);
        }
        let start: usize = i * self.bits_per_val;
        let w: usize = start / 64;
        let off: u64 = (start % 64) as u64;
        let mask: u64 = (1u64 << bits) - 1;
        let low: u64 = (self.words[w] & !(mask << off)) | (v << off);
        if off + bits <= 64 {
            self.words.set(w, low);
        } else {
            let high: u64 = (self.words[w + 1] & !(mask >> (64 - off))) | (v >> (64 - off));
            self.words.set(w, low);
            self.words.set(w + 1, high);
        }
        proof {
            let before = old(self).words@;
            assert(self.words@ =~= write_bits(before, start as int, bits, v));
            let after = old(self)@.update(i as int, val);
            assert forall|j: int| 0 <= j < self.count implies #[trigger] self@[j] == after[j] by {
                if j == i {
                    lemma_write_then_read(before, start as int, bits, v);
                } else {
                    lemma_entry_inside(j, self.bits_per_val as int, self.count as int);
                    lemma_entries_apart(i as int, j, self.bits_per_val as int);
                    lemma_write_then_read_elsewhere(
                        before,
                        start as int,
                        bits,
                        v,
                        j * self.bits_per_val,
                    );
                }
            }
            assert(self@ =~= old(self)@.update(i as int, val));
        }
    }

    /// Sets every value to zero.
    pub fn clear(&mut self)
        requires
            old(self).wf(),
        ensures
            final(self).wf(),
            final(self).spec_bits_per_val() == old(self).spec_bits_per_val(),
            final(self)@ == Seq::new(old(self)@.len(), |i: int| 0u32),
    {
        let n: usize = self.words.len();
        let mut done: usize = 0;
        while done < n
            invariant
                done <= n,
                self.words@.len() == n,
                self.bits_per_val == old(self).bits_per_val,
                self.count == old(self).count,
                forall|w: int| 0 <= w < done ==> self.words@[w] == 0u64,
            decreases n - done,
        {
            self.words.set(done, 0);
            done += 1;
        }
        proof {
            assert forall|i: int| 0 <= i < self.count implies #[trigger] self@[i] == 0u32 by {
                lemma_entry_inside(i, self.bits_per_val as int, self.count as int);
                lemma_zero_words_read_zero(
                    self.words@,
                    i * self.bits_per_val,
                    self.bits_per_val as u64,
                );
            }
            assert(self@ =~= Seq::new(old(self)@.len(), |i: int| 0u32));
        }
    }
}

} // verus!
