//! The standard Bloom filter: one bit per slot.

use bit_vec::BitVec;
use std::hash::Hash;
use vstd::prelude::*;

use crate::bits::{bits_and, bits_clear, bits_get, bits_len, bits_new, bits_or, bits_set};
use crate::hashing::HashIter;
use crate::xxh_helper::RandomXxh3State;
use crate::{BloomBuildHasher, BloomFingerprint, Configured, Intersectable, Unionable, ASMS};

verus! {

/// Whether every one of the given slots is set.
pub open spec fn all_set(bits: Seq<bool>, slots: Seq<int>) -> bool {
    forall|t: int| 0 <= t < slots.len() ==> bits[#[trigger] slots[t]]
}

/// The bits after each of the given slots has been set.
pub open spec fn with_set(bits: Seq<bool>, slots: Seq<int>) -> Seq<bool> {
    Seq::new(bits.len(), |p: int| bits[p] || slots.contains(p))
}

/// The bitwise disjunction of two bit strings of one length.
pub open spec fn either(a: Seq<bool>, b: Seq<bool>) -> Seq<bool> {
    Seq::new(a.len(), |p: int| a[p] || b[p])
}

/// The bitwise conjunction of two bit strings of one length.
pub open spec fn both(a: Seq<bool>, b: Seq<bool>) -> Seq<bool> {
    Seq::new(a.len(), |p: int| a[p] && b[p])
}

/// Whether a filter with these bits and `k` probes per key reports the key
/// with this fingerprint as present: all of its slots are set.
pub open spec fn reports(bits: Seq<bool>, k: nat, fp: BloomFingerprint) -> bool {
    all_set(bits, crate::hashing::slots(fp, k, bits.len()))
}

/// The fewest probes a filter sized by the sizing rule makes for a key.
pub const MIN_NUM_HASHES: u32 = 2;

/// The most probes a filter sized by the sizing rule makes for a key.
pub const MAX_NUM_HASHES: u32 = 200;

/// The number of probes to use where `ideal` is the ideal number, rounded to
/// the nearest integer: `ideal` itself, but no fewer than two, which double
/// hashing needs, and no more than two hundred, which bounds the cost of an
/// operation.
pub fn clamp_num_hashes(ideal: u32) -> (k: u32)
    ensures
        k == if ideal < MIN_NUM_HASHES {
            MIN_NUM_HASHES
        } else if ideal > MAX_NUM_HASHES {
            MAX_NUM_HASHES
        } else {
            ideal
        },
{
    if ideal < MIN_NUM_HASHES {
        MIN_NUM_HASHES
    } else if ideal > MAX_NUM_HASHES {
        MAX_NUM_HASHES
    } else {
        ideal
    }
}

/// A standard Bloom filter. A key that was inserted is always reported as
/// present; a key that was not is reported as present only now and then.
pub struct BloomFilter<H = RandomXxh3State> where H: BloomBuildHasher {
    bits: BitVec,
    num_hashes: u32,
    hash_builder: H,
}

impl<H: BloomBuildHasher> View for BloomFilter<H> {
    type V = Seq<bool>;

    /// The bits of the filter, by slot.
    closed spec fn view(&self) -> Seq<bool> {
        crate::bits::bit_vec_contents(self.bits)
    }
}

impl<H: BloomBuildHasher> BloomFilter<H> {
    /// The number of slots probed for each key.
    pub closed spec fn spec_num_hashes(&self) -> nat {
        self.num_hashes as nat
    }

    /// The hash configuration.
    pub closed spec fn hasher(&self) -> H {
        self.hash_builder
    }

    /// The slots the key with this fingerprint is kept in.
    pub open spec fn slots_of(&self, fp: BloomFingerprint) -> Seq<int> {
        crate::hashing::slots(fp, self.spec_num_hashes(), self@.len())
    }

    /// A filter of `num_bits` slots, none set, that probes `num_hashes` slots
    /// for each key and hashes with `hash_builder`.
    pub fn with_size_and_hasher(num_bits: usize, num_hashes: u32, hash_builder: H) -> (f:
        BloomFilter<H>)
        ensures
            f@ == Seq::new(num_bits as nat, |i: int| false),
            f.spec_num_hashes() == num_hashes,
            f.hasher() == hash_builder,
    {
        BloomFilter { bits: bits_new(num_bits), num_hashes, hash_builder }
    }

    /// An empty filter with the size, the number of probes and the hash
    /// configuration of `other`, so that the two can be united and
    /// intersected.
    pub fn combinable_with(other: &BloomFilter<H>) -> (f: Self)
        ensures
            f@ == Seq::new(other@.len(), |i: int| false),
            f.spec_num_hashes() == other.spec_num_hashes(),
            cloned(other.hasher(), f.hasher()),
    {
        BloomFilter {
            bits: bits_new(bits_len(&other.bits)),
            num_hashes: other.num_hashes,
            hash_builder: other.hash_builder.clone(),
        }
    }

    /// The number of slots.
    pub fn num_bits(&self) -> (n: usize)
        ensures
            n == self@.len(),
    {
        bits_len(&self.bits)
    }

    /// The number of slots probed for each key.
    pub fn num_hashes(&self) -> (k: u32)
        ensures
            k == self.spec_num_hashes(),
    {
        self.num_hashes
    }

    /// Sets the slots the cursor names; tells whether one of them was unset.
    fn insert_hash_iter(&mut self, h_iter: HashIter) -> (fresh: bool)
        requires
            old(self)@.len() > 0,
            h_iter.position() == 0,
        ensures
            final(self)@ == with_set(
                old(self)@,
                crate::hashing::slots(h_iter.fingerprint(), h_iter.count(), old(self)@.len()),
            ),
            fresh == !all_set(
                old(self)@,
                crate::hashing::slots(h_iter.fingerprint(), h_iter.count(), old(self)@.len()),
            ),
            final(self).spec_num_hashes() == old(self).spec_num_hashes(),
            final(self).hasher() == old(self).hasher(),
    {
        let ghost fp = h_iter.fingerprint();
        let ghost k = h_iter.count();
        let ghost before = self@;
        let ghost m = before.len();
        let mut it = h_iter;
        let mut contained = true;
        let len: u64 = bits_len(&self.bits) as u64;
        assert(with_set(before, crate::hashing::slots(fp, 0, m)) =~= before);
        loop
            invariant
                0 < m <= usize::MAX,
                m == len,
                before.len() == m,
                before == old(self)@,
                fp == h_iter.fingerprint(),
                k == h_iter.count(),
                it.fingerprint() == fp,
                it.count() == k,
                it.position() <= k,
                self@ == with_set(before, crate::hashing::slots(fp, it.position(), m)),
                contained == all_set(before, crate::hashing::slots(fp, it.position(), m)),
                self.num_hashes == old(self).num_hashes,
                self.hash_builder == old(self).hash_builder,
            ensures
                it.position() == k,
            decreases k - it.position(),
        {
            let ghost j = it.position();
            match it.next() {
                None => {
                    break ;
                },
                Some(h) => {
                    let idx: usize = (h % len) as usize;
                    proof {
                        lemma_with_set_step(before, fp, m, j);
                    }
                    let was_set = match bits_get(&self.bits, idx) {
                        Some(b) => b,
                        None => vstd::pervasive::unreached(),
                    };
                    assert(was_set == (before[idx as int] || crate::hashing::slots(
                        fp,
                        j,
                        m,
                    ).contains(idx as int)));
                    if !was_set {
                        contained = false;
                    }
                    proof {
                        if crate::hashing::slots(fp, j, m).contains(idx as int) && contained {
                            let t = choose|t: int|
                                0 <= t < j && crate::hashing::slots(fp, j, m)[t] == idx;
                            assert(before[crate::hashing::slots(fp, j, m)[t]]);
                        }
                    }
                    bits_set(&mut self.bits, idx, true);
                },
            }
        }
        !contained
    }

    /// Whether every slot the cursor names is set.
    fn contains_hash_iter(&self, h_iter: HashIter) -> (present: bool)
        requires
            self@.len() > 0,
            h_iter.position() == 0,
        ensures
            present == all_set(
                self@,
                crate::hashing::slots(h_iter.fingerprint(), h_iter.count(), self@.len()),
            ),
    {
        let ghost fp = h_iter.fingerprint();
        let ghost k = h_iter.count();
        let ghost m = self@.len();
        let mut it = h_iter;
        let len: u64 = bits_len(&self.bits) as u64;
        loop
            invariant
                0 < m <= usize::MAX,
                m == len,
                self@.len() == m,
                fp == h_iter.fingerprint(),
                k == h_iter.count(),
                it.fingerprint() == fp,
                it.count() == k,
                it.position() <= k,
                all_set(self@, crate::hashing::slots(fp, it.position(), m)),
            ensures
                it.position() == k,
            decreases k - it.position(),
        {
            let ghost j = it.position();
            match it.next() {
                None => {
                    break ;
                },
                Some(h) => {
                    let idx: usize = (h % len) as usize;
                    proof {
                        lemma_with_set_step(self@, fp, m, j);
                    }
                    let is_set = match bits_get(&self.bits, idx) {
                        Some(b) => b,
                        None => vstd::pervasive::unreached(),
                    };
                    if !is_set {
                        proof {
                            let all = crate::hashing::slots(fp, k, m);
                            assert(all[j as int] == idx);
                            assert(!self@[all[j as int]]);
                        }
                        return false;
                    }
                },
            }
        }
        true
    }
}

impl<H: BloomBuildHasher> Configured for BloomFilter<H> {
    type Config = H;

    open spec fn configuration(&self) -> H {
        self.hasher()
    }
}

impl<H: BloomBuildHasher> ASMS for BloomFilter<H> {
    /// The filter has at least one slot.
    open spec fn wf(&self) -> bool {
        self@.len() > 0
    }

    open spec fn holds(&self, fp: BloomFingerprint) -> bool {
        reports(self@, self.spec_num_hashes(), fp)
    }

    /// Sets the slots of a digest of the item.
    fn insert<T: Hash>(&mut self, item: &T) -> (fresh: bool)
        ensures
            exists|fp: BloomFingerprint|
                {
                    &&& #[trigger] crate::item_digests_in(old(self), item, fp)
                    &&& final(self)@ == with_set(old(self)@, old(self).slots_of(fp))
                    &&& fresh == !old(self).holds(fp)
                    &&& final(self).holds(fp)
                },
            final(self).spec_num_hashes() == old(self).spec_num_hashes(),
            final(self).hasher() == old(self).hasher(),
    {
        let it = HashIter::from(item, self.num_hashes, &self.hash_builder);
        proof {
            lemma_insert_then_contains(
                self@,
                self.spec_num_hashes(),
                it.fingerprint(),
                it.fingerprint(),
            );
        }
        let fresh = self.insert_hash_iter(it);
        assert(crate::item_digests_in(old(self), item, it.fingerprint()));
        fresh
    }

    /// Sets the slots of a digest of the byte string.
    fn insert_slice(&mut self, item: &[u8]) -> (fresh: bool)
        ensures
            exists|fp: BloomFingerprint|
                {
                    &&& #[trigger] crate::digests_in(old(self), item@, fp)
                    &&& final(self)@ == with_set(old(self)@, old(self).slots_of(fp))
                    &&& fresh == !old(self).holds(fp)
                    &&& final(self).holds(fp)
                },
            final(self).spec_num_hashes() == old(self).spec_num_hashes(),
            final(self).hasher() == old(self).hasher(),
    {
        let it = HashIter::from_slice(item, self.num_hashes, &self.hash_builder);
        proof {
            lemma_insert_then_contains(
                self@,
                self.spec_num_hashes(),
                it.fingerprint(),
                it.fingerprint(),
            );
        }
        let fresh = self.insert_hash_iter(it);
        assert(crate::digests_in(old(self), item@, it.fingerprint()));
        fresh
    }

    /// Sets the slots of the fingerprint.
    fn insert_fingerprint(&mut self, fingerprint: BloomFingerprint) -> (fresh: bool)
        ensures
            final(self)@ == with_set(old(self)@, old(self).slots_of(fingerprint)),
            final(self).holds(fingerprint),
            final(self).spec_num_hashes() == old(self).spec_num_hashes(),
            final(self).hasher() == old(self).hasher(),
    {
        proof {
            lemma_insert_then_contains(self@, self.spec_num_hashes(), fingerprint, fingerprint);
        }
        self.insert_hash_iter(HashIter::from_fingerprint(fingerprint, self.num_hashes))
    }

    fn contains<T: Hash>(&self, item: &T) -> (present: bool) {
        let it = HashIter::from(item, self.num_hashes, &self.hash_builder);
        let present = self.contains_hash_iter(it);
        assert(crate::item_digests_in(self, item, it.fingerprint()));
        present
    }

    fn contains_slice(&self, item: &[u8]) -> (present: bool) {
        let it = HashIter::from_slice(item, self.num_hashes, &self.hash_builder);
        let present = self.contains_hash_iter(it);
        assert(crate::digests_in(self, item@, it.fingerprint()));
        present
    }

    fn contains_fingerprint(&self, fingerprint: BloomFingerprint) -> (present: bool) {
        self.contains_hash_iter(HashIter::from_fingerprint(fingerprint, self.num_hashes))
    }

    /// Unsets every slot.
    fn clear(&mut self)
        ensures
            final(self)@ == Seq::new(old(self)@.len(), |i: int| false),
            final(self).spec_num_hashes() == old(self).spec_num_hashes(),
            final(self).hasher() == old(self).hasher(),
    {
        bits_clear(&mut self.bits);
    }
}

impl<H: BloomBuildHasher> Intersectable for BloomFilter<H> {
    open spec fn can_intersect(&self, other: &Self) -> bool {
        self@.len() == other@.len()
    }

    /// Keeps the slots that are set in both filters.
    fn intersect(&mut self, other: &Self) -> (changed: bool)
        ensures
            final(self)@ == both(old(self)@, other@),
            changed == (final(self)@ != old(self)@),
            final(self).spec_num_hashes() == old(self).spec_num_hashes(),
            final(self).hasher() == old(self).hasher(),
    {
        bits_and(&mut self.bits, &other.bits)
    }
}

impl<H: BloomBuildHasher> Unionable for BloomFilter<H> {
    open spec fn can_unite(&self, other: &Self) -> bool {
        self@.len() == other@.len()
    }

    /// Sets the slots that are set in either filter.
    fn union(&mut self, other: &Self) -> (changed: bool)
        ensures
            final(self)@ == either(old(self)@, other@),
            changed == (final(self)@ != old(self)@),
            final(self).spec_num_hashes() == old(self).spec_num_hashes(),
            final(self).hasher() == old(self).hasher(),
    {
        bits_or(&mut self.bits, &other.bits)
    }
}

/// One more slot set is one more slot in the set of slots set.
proof fn lemma_with_set_step(bits: Seq<bool>, fp: BloomFingerprint, modulus: nat, j: nat)
    requires
        modulus == bits.len(),
        modulus > 0,
    ensures
        with_set(bits, crate::hashing::slots(fp, j + 1, modulus)) == with_set(
            bits,
            crate::hashing::slots(fp, j, modulus),
        ).update(crate::hashing::slot(fp, modulus, j), true),
        all_set(bits, crate::hashing::slots(fp, j + 1, modulus)) == (all_set(
            bits,
            crate::hashing::slots(fp, j, modulus),
        ) && bits[crate::hashing::slot(fp, modulus, j)]),
{
    let shorter = crate::hashing::slots(fp, j, modulus);
    let longer = crate::hashing::slots(fp, j + 1, modulus);
    let s = crate::hashing::slot(fp, modulus, j);
    assert(longer[j as int] == s);
    assert forall|p: int| 0 <= p < bits.len() implies (bits[p] || longer.contains(p)) == (
    with_set(bits, shorter).update(s, true)[p]) by {
        if longer.contains(p) {
            let t = choose|t: int| 0 <= t < longer.len() && longer[t] == p;
            if t < j {
                assert(shorter[t] == p);
            }
        }
        if shorter.contains(p) {
            let t = choose|t: int| 0 <= t < shorter.len() && shorter[t] == p;
            assert(longer[t] == p);
        }
    }
    assert(with_set(bits, longer) =~= with_set(bits, shorter).update(s, true));
    if all_set(bits, shorter) && bits[s] {
        assert forall|t: int| 0 <= t < longer.len() implies bits[#[trigger] longer[t]] by {
            if t < j {
                assert(shorter[t] == longer[t]);
            }
        }
    }
    if all_set(bits, longer) {
        assert forall|t: int| 0 <= t < shorter.len() implies bits[#[trigger] shorter[t]] by {
            assert(shorter[t] == longer[t]);
        }
    }
}

/// Setting the slots of a key makes the filter report the key, and takes no
/// key away that the filter reported before.
pub proof fn lemma_insert_then_contains(
    bits: Seq<bool>,
    k: nat,
    fp: BloomFingerprint,
    other: BloomFingerprint,
)
    requires
        bits.len() > 0,
    ensures
        reports(with_set(bits, crate::hashing::slots(fp, k, bits.len())), k, fp),
        reports(bits, k, other) ==> reports(
            with_set(bits, crate::hashing::slots(fp, k, bits.len())),
            k,
            other,
        ),
{
    let s = crate::hashing::slots(fp, k, bits.len());
    let after = with_set(bits, s);
    assert forall|t: int| 0 <= t < s.len() implies after[#[trigger] s[t]] by {
        assert(s.contains(s[t]));
    }
    let o = crate::hashing::slots(other, k, bits.len());
    if reports(bits, k, other) {
        assert forall|t: int| 0 <= t < o.len() implies after[#[trigger] o[t]] by {
            assert(bits[o[t]]);
        }
    }
}

/// A key is reported by the union of two filters if either reported it, and
/// by their intersection exactly if both did.
pub proof fn lemma_combined_reports(a: Seq<bool>, b: Seq<bool>, k: nat, fp: BloomFingerprint)
    requires
        a.len() == b.len(),
        a.len() > 0,
    ensures
        reports(a, k, fp) || reports(b, k, fp) ==> reports(either(a, b), k, fp),
        reports(both(a, b), k, fp) <==> reports(a, k, fp) && reports(b, k, fp),
{
    let s = crate::hashing::slots(fp, k, a.len());
    assert(crate::hashing::slots(fp, k, b.len()) == s);
    assert(crate::hashing::slots(fp, k, either(a, b).len()) == s);
    assert(crate::hashing::slots(fp, k, both(a, b).len()) == s);
    if reports(a, k, fp) {
        assert forall|t: int| 0 <= t < s.len() implies either(a, b)[#[trigger] s[t]] by {
            assert(a[s[t]]);
        }
    }
    if reports(b, k, fp) {
        assert forall|t: int| 0 <= t < s.len() implies either(a, b)[#[trigger] s[t]] by {
            assert(b[s[t]]);
        }
    }
    if reports(a, k, fp) && reports(b, k, fp) {
        assert forall|t: int| 0 <= t < s.len() implies both(a, b)[#[trigger] s[t]] by {
            assert(a[s[t]] && b[s[t]]);
        }
    }
    if reports(both(a, b), k, fp) {
        assert forall|t: int| 0 <= t < s.len() implies a[#[trigger] s[t]] && b[s[t]] by {
            assert(both(a, b)[s[t]]);
        }
    }
}

/// No false negatives: a byte string that was inserted is reported as
/// present by every later query, whatever else was inserted in between,
/// wherever the hash configuration gives the byte string one digest only.
pub proof fn lemma_no_false_negatives<H: BloomBuildHasher>(
    before: &BloomFilter<H>,
    inserted: &BloomFilter<H>,
    later: &BloomFilter<H>,
    bytes: Seq<u8>,
    present: bool,
)
    requires
        before.wf(),
        crate::deterministic(before.hasher()),
        exists|fp: BloomFingerprint|
            #[trigger] crate::digests_in(before, bytes, fp) && inserted@ == with_set(
                before@,
                before.slots_of(fp),
            ),
        inserted.spec_num_hashes() == before.spec_num_hashes(),
        later.spec_num_hashes() == before.spec_num_hashes(),
        later.hasher() == before.hasher(),
        later@.len() == inserted@.len(),
        forall|p: int| 0 <= p < inserted@.len() && inserted@[p] ==> later@[p],
        exists|fp: BloomFingerprint|
            #[trigger] crate::digests_in(later, bytes, fp) && present == later.holds(fp),
    ensures
        present,
{
    let a = choose|fp: BloomFingerprint|
        #[trigger] crate::digests_in(before, bytes, fp) && inserted@ == with_set(
            before@,
            before.slots_of(fp),
        );
    let b = choose|fp: BloomFingerprint|
        #[trigger] crate::digests_in(later, bytes, fp) && present == later.holds(fp);
    assert(crate::digests_to(before.hasher(), bytes, a) && crate::digests_to(
        before.hasher(),
        bytes,
        b,
    ));
    lemma_insert_then_contains(before@, before.spec_num_hashes(), a, a);
    let s = later.slots_of(b);
    assert forall|t: int| 0 <= t < s.len() implies later@[#[trigger] s[t]] by {
        assert(inserted@[before.slots_of(a)[t]]);
    }
}

/// No false negatives: a hashable item that was inserted is reported as
/// present by every later query, whatever else was inserted in between,
/// wherever the hash configuration gives the item one digest only.
pub proof fn lemma_no_false_negatives_item<T: Hash, H: BloomBuildHasher>(
    before: &BloomFilter<H>,
    inserted: &BloomFilter<H>,
    later: &BloomFilter<H>,
    item: &T,
    present: bool,
)
    requires
        before.wf(),
        crate::deterministic_on(before.hasher(), item),
        exists|fp: BloomFingerprint|
            #[trigger] crate::item_digests_in(before, item, fp) && inserted@ == with_set(
                before@,
                before.slots_of(fp),
            ),
        inserted.spec_num_hashes() == before.spec_num_hashes(),
        later.spec_num_hashes() == before.spec_num_hashes(),
        later.hasher() == before.hasher(),
        later@.len() == inserted@.len(),
        forall|p: int| 0 <= p < inserted@.len() && inserted@[p] ==> later@[p],
        exists|fp: BloomFingerprint|
            #[trigger] crate::item_digests_in(later, item, fp) && present == later.holds(fp),
    ensures
        present,
{
    let a = choose|fp: BloomFingerprint|
        #[trigger] crate::item_digests_in(before, item, fp) && inserted@ == with_set(
            before@,
            before.slots_of(fp),
        );
    let b = choose|fp: BloomFingerprint|
        #[trigger] crate::item_digests_in(later, item, fp) && present == later.holds(fp);
    assert(crate::hashing::item_digests_to(before.hasher(), item, a)
        && crate::hashing::item_digests_to(before.hasher(), item, b));
    lemma_insert_then_contains(before@, before.spec_num_hashes(), a, a);
    let s = later.slots_of(b);
    assert forall|t: int| 0 <= t < s.len() implies later@[#[trigger] s[t]] by {
        assert(inserted@[before.slots_of(a)[t]]);
    }
}

} // verus!
