//! The counting Bloom filter: a saturating counter per slot, so that keys can
//! be removed and their number of insertions estimated.

use std::hash::Hash;
use vstd::arithmetic::power2::pow2;
use vstd::prelude::*;

use crate::hashing::HashIter;
use crate::valuevec::ValueVec;
use crate::xxh_helper::RandomXxh3State;
use crate::{BloomBuildHasher, BloomFingerprint, Configured, ASMS};

verus! {

/// How many of the first `j` probes of a key fall on slot `p`.
pub open spec fn hits(fp: BloomFingerprint, modulus: nat, j: nat, p: int) -> nat
    decreases j,
{
    if j == 0 {
        0
    } else {
        hits(fp, modulus, (j - 1) as nat, p) + if crate::hashing::slot(
            fp,
            modulus,
            (j - 1) as nat,
        ) == p {
            1nat
        } else {
            0nat
        }
    }
}

/// The smallest of the values, or `u32::MAX` where there is none.
pub open spec fn least(values: Seq<int>) -> int
    decreases values.len(),
{
    if values.len() == 0 {
        u32::MAX as int
    } else {
        let rest = least(values.drop_last());
        if values.last() < rest {
            values.last()
        } else {
            rest
        }
    }
}

/// The counters that the `k` probes of a key meet, in the order of the
/// probes.
pub open spec fn probed(counters: Seq<u32>, k: nat, fp: BloomFingerprint) -> Seq<int> {
    Seq::new(k, |t: int| counters[crate::hashing::slot(fp, counters.len(), t as nat)] as int)
}

/// The estimated number of insertions of a key: the smallest counter among
/// those that its probes meet.
pub open spec fn estimate(counters: Seq<u32>, k: nat, fp: BloomFingerprint) -> int {
    least(probed(counters, k, fp))
}

/// Whether a key is reported as present: none of the counters that its
/// probes meet is zero.
pub open spec fn counted(counters: Seq<u32>, k: nat, fp: BloomFingerprint) -> bool {
    forall|t: int| 0 <= t < k ==> #[trigger] probed(counters, k, fp)[t] > 0
}

/// The counters after a key has been inserted: each goes up by one for every
/// probe that falls on it, and stops at `max`.
pub open spec fn bumped(counters: Seq<u32>, k: nat, fp: BloomFingerprint, max: nat) -> Seq<u32> {
    Seq::new(
        counters.len(),
        |p: int|
            if counters[p] + hits(fp, counters.len(), k, p) < max {
                (counters[p] + hits(fp, counters.len(), k, p)) as u32
            } else {
                max as u32
            },
    )
}

/// Whether a key can be removed: each counter is at least the number of
/// probes that fall on it, so that no counter is asked to go below zero.
pub open spec fn removable(counters: Seq<u32>, k: nat, fp: BloomFingerprint) -> bool {
    forall|p: int|
        0 <= p < counters.len() ==> #[trigger] hits(fp, counters.len(), k, p) <= counters[p]
}

/// The counters after a key has been removed: each goes down by one for
/// every probe that falls on it.
pub open spec fn lowered(counters: Seq<u32>, k: nat, fp: BloomFingerprint) -> Seq<u32> {
    Seq::new(counters.len(), |p: int| (counters[p] - hits(fp, counters.len(), k, p)) as u32)
}

/// What the `k` probes of a removal find, in the order of the probes: each
/// counter as it stands when its probe arrives, lowered already by the
/// earlier probes that fell on the same slot.
pub open spec fn met_on_removal(counters: Seq<u32>, k: nat, fp: BloomFingerprint) -> Seq<int> {
    Seq::new(
        k,
        |t: int|
            counters[crate::hashing::slot(fp, counters.len(), t as nat)] - hits(
                fp,
                counters.len(),
                t as nat,
                crate::hashing::slot(fp, counters.len(), t as nat),
            ),
    )
}

/// Whether the `k` probes of a key fall on `k` different slots.
pub open spec fn probes_apart(fp: BloomFingerprint, k: nat, modulus: nat) -> bool {
    forall|t: nat|
        t < k ==> hits(fp, modulus, k, #[trigger] crate::hashing::slot(fp, modulus, t)) == 1
}

/// The counters after a key has been inserted `n` times in a row.
pub open spec fn inserted_times(
    counters: Seq<u32>,
    k: nat,
    fp: BloomFingerprint,
    max: nat,
    n: nat,
) -> Seq<u32>
    decreases n,
{
    if n == 0 {
        counters
    } else {
        bumped(inserted_times(counters, k, fp, max, (n - 1) as nat), k, fp, max)
    }
}

/// The counters after a key has been removed `n` times in a row.
pub open spec fn removed_times(counters: Seq<u32>, k: nat, fp: BloomFingerprint, n: nat) -> Seq<
    u32,
>
    decreases n,
{
    if n == 0 {
        counters
    } else {
        lowered(removed_times(counters, k, fp, (n - 1) as nat), k, fp)
    }
}

/// A counting Bloom filter with counters of a fixed width. A counter that
/// has reached the largest value of its width stays there.
pub struct CountingBloomFilter<H = RandomXxh3State> {
    counters: ValueVec,
    num_entries: u64,
    num_hashes: u32,
    hash_builder: H,
}

impl<H> View for CountingBloomFilter<H> {
    type V = Seq<u32>;

    /// The counters of the filter, by slot.
    closed spec fn view(&self) -> Seq<u32> {
        self.counters@
    }
}

impl<H> CountingBloomFilter<H> {
    /// The number of slots probed for each key.
    pub closed spec fn spec_num_hashes(&self) -> nat {
        self.num_hashes as nat
    }

    /// The width of a counter, in bits.
    pub closed spec fn spec_bits_per_entry(&self) -> nat {
        self.counters.spec_bits_per_val()
    }

    /// The value at which a counter stops: `2^bits_per_entry - 1`.
    pub open spec fn spec_max_count(&self) -> nat {
        (pow2(self.spec_bits_per_entry()) - 1) as nat
    }

    /// The hash configuration.
    pub closed spec fn hasher(&self) -> H {
        self.hash_builder
    }

    /// The counter store is well formed and has as many counters as the
    /// filter has slots.
    pub closed spec fn inv(&self) -> bool {
        &&& self.counters.wf()
        &&& self.num_entries == self.counters@.len()
    }

    /// Whether the filter is in a state in which the key with this
    /// fingerprint can be handed to a removal: either the filter does not
    /// report the key, and the removal changes nothing, or every counter is
    /// at least the number of the key's probes that fall on it.
    pub open spec fn admits_removal(&self, fp: BloomFingerprint) -> bool {
        counted(self@, self.spec_num_hashes(), fp) ==> removable(self@, self.spec_num_hashes(), fp)
    }

    /// What a removal of the key with this fingerprint returns and leaves
    /// behind. If the filter does not report the key, nothing changes and the
    /// result is 0. Otherwise each counter goes down by one for every probe
    /// that falls on it, and the result is the smallest counter that the
    /// probes found.
    pub open spec fn removal_gives(
        &self,
        fp: BloomFingerprint,
        prior: u32,
        after: Seq<u32>,
    ) -> bool {
        if counted(self@, self.spec_num_hashes(), fp) {
            &&& after == lowered(self@, self.spec_num_hashes(), fp)
            &&& prior == least(met_on_removal(self@, self.spec_num_hashes(), fp))
        } else {
            &&& after == self@
            &&& prior == 0
        }
    }

    /// What a checked removal of the key with this fingerprint returns and
    /// leaves behind: where the filter stands so that the key can be handed
    /// to a removal, what the removal gives; elsewhere `None`, with the
    /// counters as they were.
    pub open spec fn checked_removal_gives(
        &self,
        fp: BloomFingerprint,
        prior: Option<u32>,
        after: Seq<u32>,
    ) -> bool {
        match prior {
            Some(p) => self.admits_removal(fp) && self.removal_gives(fp, p, after),
            None => !self.admits_removal(fp) && after == self@,
        }
    }

    /// No counter is above the value at which counters stop, and that value
    /// fits in 32 bits.
    pub proof fn lemma_counters_bounded(&self)
        requires
            self.inv(),
        ensures
            self.spec_bits_per_entry() <= 32,
            self.spec_max_count() <= u32::MAX,
            self@.len() <= usize::MAX,
            forall|p: int| 0 <= p < self@.len() ==> #[trigger] self@[p] <= self.spec_max_count(),
    {
        self.counters.lemma_values_bounded();
    }
}

impl CountingBloomFilter<RandomXxh3State> {
    /// The number of bits needed to hold every value up to and including
    /// `max`: the least `bits` with `max < 2^bits`.
    pub fn bits_for_max(max: u32) -> (bits: usize)
        ensures
            bits <= 32,
            max < pow2(bits as nat),
            bits > 0 ==> pow2((bits - 1) as nat) <= max,
    {
        let mut bits_per_val: usize = 0;
        let mut cur: u32 = max;
        proof {
            vstd::arithmetic::power2::lemma2_to64();
        }
        // `cur` is `max` with its lowest `bits_per_val` bits shifted out.
        while cur > 0
            invariant
                bits_per_val <= 32,
                cur == max as int / pow2(bits_per_val as nat) as int,
                bits_per_val > 0 ==> pow2((bits_per_val - 1) as nat) <= max,
            decreases cur,
        {
            proof {
                let b = bits_per_val as nat;
                vstd::arithmetic::power2::lemma_pow2_pos(b);
                vstd::arithmetic::power2::lemma2_to64();
                if pow2(b) > max {
                    vstd::arithmetic::div_mod::lemma_basic_div(max as int, pow2(b) as int);
                }
                vstd::arithmetic::power2::lemma_pow2_unfold(b + 1);
                vstd::arithmetic::div_mod::lemma_div_denominator(max as int, pow2(b) as int, 2);
                assert(cur >> 1 == cur / 2) by (bit_vector);
            }
            bits_per_val += 1;
            cur = cur >> 1;
        }
        proof {
            let b = bits_per_val as nat;
            vstd::arithmetic::power2::lemma_pow2_pos(b);
            if pow2(b) <= max {
                vstd::arithmetic::div_mod::lemma_div_non_zero(max as int, pow2(b) as int);
            }
        }
        bits_per_val
    }
}

impl<H: BloomBuildHasher> CountingBloomFilter<H> {
    /// A filter of `num_entries` counters of `bits_per_entry` bits each, all
    /// zero, that probes `num_hashes` slots for each key and hashes with
    /// `hash_builder`.
    pub fn with_size_and_hasher(
        num_entries: usize,
        bits_per_entry: usize,
        num_hashes: u32,
        hash_builder: H,
    ) -> (f: CountingBloomFilter<H>)
        requires
            bits_per_entry <= 32,
            bits_per_entry * num_entries <= usize::MAX,
        ensures
            f.inv(),
            f@ == Seq::new(num_entries as nat, |i: int| 0u32),
            f.spec_bits_per_entry() == bits_per_entry,
            f.spec_num_hashes() == num_hashes,
            f.hasher() == hash_builder,
    {
        CountingBloomFilter {
            counters: ValueVec::new(bits_per_entry, num_entries),
            num_entries: num_entries as u64,
            num_hashes,
            hash_builder,
        }
    }

    /// Inserts the item and returns its estimated count as it was before.
    pub fn insert_get_count<T: Hash>(&mut self, item: &T) -> (prior: u32)
        requires
            old(self).wf(),
        ensures
            final(self).wf(),
            exists|fp: BloomFingerprint|
                {
                    &&& #[trigger] crate::item_digests_in(old(self), item, fp)
                    &&& final(self)@ == bumped(
                        old(self)@,
                        old(self).spec_num_hashes(),
                        fp,
                        old(self).spec_max_count(),
                    )
                    &&& prior == estimate(old(self)@, old(self).spec_num_hashes(), fp)
                },
            final(self).spec_bits_per_entry() == old(self).spec_bits_per_entry(),
            final(self).spec_num_hashes() == old(self).spec_num_hashes(),
            final(self).hasher() == old(self).hasher(),
    {
        let it = HashIter::from(item, self.num_hashes, &self.hash_builder);
        let prior = self.insert_get_count_hash_iter(it);
        assert(crate::item_digests_in(old(self), item, it.fingerprint()));
        prior
    }

    /// Inserts the byte string and returns its estimated count as it was
    /// before.
    pub fn insert_get_count_slice(&mut self, item: &[u8]) -> (prior: u32)
        requires
            old(self).wf(),
        ensures
            final(self).wf(),
            exists|fp: BloomFingerprint|
                {
                    &&& #[trigger] crate::digests_in(old(self), item@, fp)
                    &&& final(self)@ == bumped(
                        old(self)@,
                        old(self).spec_num_hashes(),
                        fp,
                        old(self).spec_max_count(),
                    )
                    &&& prior == estimate(old(self)@, old(self).spec_num_hashes(), fp)
                },
            final(self).spec_bits_per_entry() == old(self).spec_bits_per_entry(),
            final(self).spec_num_hashes() == old(self).spec_num_hashes(),
            final(self).hasher() == old(self).hasher(),
    {
        let it = HashIter::from_slice(item, self.num_hashes, &self.hash_builder);
        let prior = self.insert_get_count_hash_iter(it);
        assert(crate::digests_in(old(self), item@, it.fingerprint()));
        prior
    }

    /// Inserts the key with this fingerprint and returns its estimated count
    /// as it was before.
    pub fn insert_get_count_fingerprint(&mut self, fp: BloomFingerprint) -> (prior: u32)
        requires
            old(self).wf(),
        ensures
            final(self).wf(),
            final(self)@ == bumped(
                old(self)@,
                old(self).spec_num_hashes(),
                fp,
                old(self).spec_max_count(),
            ),
            prior == estimate(old(self)@, old(self).spec_num_hashes(), fp),
            final(self).spec_bits_per_entry() == old(self).spec_bits_per_entry(),
            final(self).spec_num_hashes() == old(self).spec_num_hashes(),
            final(self).hasher() == old(self).hasher(),
    {
        self.insert_get_count_hash_iter(HashIter::from_fingerprint(fp, self.num_hashes))
    }

    /// An upper bound of how often the item has been inserted: the smallest
    /// counter among those that its probes meet.
    pub fn estimate_count<T: Hash>(&self, item: &T) -> (count: u32)
        requires
            self.wf(),
        ensures
            exists|fp: BloomFingerprint|
                #[trigger] crate::item_digests_in(self, item, fp) && count == estimate(
                    self@,
                    self.spec_num_hashes(),
                    fp,
                ),
    {
        let it = HashIter::from(item, self.num_hashes, &self.hash_builder);
        let count = self.estimate_count_hash_iter(it);
        assert(crate::item_digests_in(self, item, it.fingerprint()));
        count
    }

    /// An upper bound of how often the byte string has been inserted.
    pub fn estimate_count_slice(&self, item: &[u8]) -> (count: u32)
        requires
            self.wf(),
        ensures
            exists|fp: BloomFingerprint|
                #[trigger] crate::digests_in(self, item@, fp) && count == estimate(
                    self@,
                    self.spec_num_hashes(),
                    fp,
                ),
    {
        let it = HashIter::from_slice(item, self.num_hashes, &self.hash_builder);
        let count = self.estimate_count_hash_iter(it);
        assert(crate::digests_in(self, item@, it.fingerprint()));
        count
    }

    /// An upper bound of how often the key with this fingerprint has been
    /// inserted.
    pub fn estimate_count_fingerprint(&self, fp: BloomFingerprint) -> (count: u32)
        requires
            self.wf(),
        ensures
            count == estimate(self@, self.spec_num_hashes(), fp),
    {
        self.estimate_count_hash_iter(HashIter::from_fingerprint(fp, self.num_hashes))
    }

    /// Removes the item once and returns an upper bound of how often it had
    /// been inserted, or changes nothing and returns 0 if the filter does not
    /// report the item.
    pub fn remove<T: Hash>(&mut self, item: &T) -> (prior: u32)
        requires
            old(self).wf(),
            forall|fp: BloomFingerprint|
                #[trigger] crate::item_digests_in(old(self), item, fp) ==> old(
                    self,
                ).admits_removal(fp),
        ensures
            final(self).wf(),
            exists|fp: BloomFingerprint|
                #[trigger] crate::item_digests_in(old(self), item, fp) && old(self).removal_gives(
                    fp,
                    prior,
                    final(self)@,
                ),
            final(self).spec_bits_per_entry() == old(self).spec_bits_per_entry(),
            final(self).spec_num_hashes() == old(self).spec_num_hashes(),
            final(self).hasher() == old(self).hasher(),
    {
        let it = HashIter::from(item, self.num_hashes, &self.hash_builder);
        assert(crate::item_digests_in(self, item, it.fingerprint()));
        let prior = self.remove_hash_iter(it);
        assert(old(self).removal_gives(it.fingerprint(), prior, self@));
        prior
    }

    /// Removes the byte string once and returns an upper bound of how often
    /// it had been inserted, or changes nothing and returns 0 if the filter
    /// does not report it.
    pub fn remove_slice(&mut self, item: &[u8]) -> (prior: u32)
        requires
            old(self).wf(),
            forall|fp: BloomFingerprint|
                #[trigger] crate::digests_in(old(self), item@, fp) ==> old(self).admits_removal(fp),
        ensures
            final(self).wf(),
            exists|fp: BloomFingerprint|
                #[trigger] crate::digests_in(old(self), item@, fp) && old(self).removal_gives(
                    fp,
                    prior,
                    final(self)@,
                ),
            final(self).spec_bits_per_entry() == old(self).spec_bits_per_entry(),
            final(self).spec_num_hashes() == old(self).spec_num_hashes(),
            final(self).hasher() == old(self).hasher(),
    {
        let it = HashIter::from_slice(item, self.num_hashes, &self.hash_builder);
        assert(crate::digests_in(self, item@, it.fingerprint()));
        let prior = self.remove_hash_iter(it);
        assert(old(self).removal_gives(it.fingerprint(), prior, self@));
        prior
    }

    /// Removes the key with this fingerprint once and returns an upper bound
    /// of how often it had been inserted, or changes nothing and returns 0 if
    /// the filter does not report it.
    pub fn remove_fingerprint(&mut self, fingerprint: BloomFingerprint) -> (prior: u32)
        requires
            old(self).wf(),
            old(self).admits_removal(fingerprint),
        ensures
            final(self).wf(),
            old(self).removal_gives(fingerprint, prior, final(self)@),
            final(self).spec_bits_per_entry() == old(self).spec_bits_per_entry(),
            final(self).spec_num_hashes() == old(self).spec_num_hashes(),
            final(self).hasher() == old(self).hasher(),
    {
        self.remove_hash_iter(HashIter::from_fingerprint(fingerprint, self.num_hashes))
    }

    /// Whether the key with this fingerprint can be handed to a removal as
    /// the filter stands.
    pub fn can_remove_fingerprint(&self, fingerprint: BloomFingerprint) -> (ok: bool)
        requires
            self.wf(),
        ensures
            ok == self.admits_removal(fingerprint),
    {
        let ghost m = self@.len();
        let ghost k = self.spec_num_hashes();
        let ghost fp = fingerprint;
        let mut it = HashIter::from_fingerprint(fingerprint, self.num_hashes);
        if !self.contains_hash_iter(it) {
            return true;
        }
        proof {
            self.lemma_counters_bounded();
        }
        loop
            invariant
                0 < m <= usize::MAX,
                self.wf(),
                self@.len() == m,
                self.num_entries == m,
                k == self.spec_num_hashes(),
                fp == fingerprint,
                counted(self@, k, fp),
                it.fingerprint() == fp,
                it.count() == k,
                it.position() <= k,
                forall|t: nat|
                    t < it.position() ==> hits(fp, m, k, #[trigger] crate::hashing::slot(fp, m, t))
                        <= self@[crate::hashing::slot(fp, m, t)],
            ensures
                it.position() == k,
            decreases k - it.position(),
        {
            let ghost j = it.position();
            match it.next() {
                None => {
                    break ;
                },
                Some(h) => {
                    let idx: usize = (h % self.num_entries) as usize;
                    let needed = self.count_hits(fingerprint, idx);
                    if self.counters.get(idx) < needed {
                        assert(crate::hashing::slot(fp, m, j) == idx);
                        assert(!(hits(fp, m, k, idx as int) <= self@[idx as int]));
                        return false;
                    }
                    assert forall|t: nat| t < j + 1 implies hits(
                        fp,
                        m,
                        k,
                        #[trigger] crate::hashing::slot(fp, m, t),
                    ) <= self@[crate::hashing::slot(fp, m, t)] by {
                        if t == j {
                            assert(crate::hashing::slot(fp, m, t) == idx);
                        }
                    }
                },
            }
        }
        proof {
            assert forall|p: int| 0 <= p < m implies #[trigger] hits(fp, m, k, p) <= self@[p] by {
                lemma_hits(fp, m, k, k, p);
                if hits(fp, m, k, p) > 0 {
                    let t = choose|t: nat| t < k && #[trigger] crate::hashing::slot(fp, m, t) == p;
                    assert(hits(fp, m, k, crate::hashing::slot(fp, m, t)) <= self@[p]);
                }
            }
        }
        true
    }

    /// Removes the item as `remove` does, unless a counter would be asked to
    /// go below zero; then nothing changes and the result is `None`.
    pub fn try_remove<T: Hash>(&mut self, item: &T) -> (prior: Option<u32>)
        requires
            old(self).wf(),
        ensures
            final(self).wf(),
            exists|fp: BloomFingerprint|
                #[trigger] crate::item_digests_in(old(self), item, fp) && old(
                    self,
                ).checked_removal_gives(fp, prior, final(self)@),
            final(self).spec_bits_per_entry() == old(self).spec_bits_per_entry(),
            final(self).spec_num_hashes() == old(self).spec_num_hashes(),
            final(self).hasher() == old(self).hasher(),
    {
        let it = HashIter::from(item, self.num_hashes, &self.hash_builder);
        assert(crate::item_digests_in(self, item, it.fingerprint()));
        let prior = self.try_remove_fingerprint(it.digest());
        assert(old(self).checked_removal_gives(it.fingerprint(), prior, self@));
        prior
    }

    /// Removes the byte string as `remove_slice` does, unless a counter
    /// would be asked to go below zero; then nothing changes and the result
    /// is `None`.
    pub fn try_remove_slice(&mut self, item: &[u8]) -> (prior: Option<u32>)
        requires
            old(self).wf(),
        ensures
            final(self).wf(),
            exists|fp: BloomFingerprint|
                #[trigger] crate::digests_in(old(self), item@, fp) && old(
                    self,
                ).checked_removal_gives(fp, prior, final(self)@),
            final(self).spec_bits_per_entry() == old(self).spec_bits_per_entry(),
            final(self).spec_num_hashes() == old(self).spec_num_hashes(),
            final(self).hasher() == old(self).hasher(),
    {
        let it = HashIter::from_slice(item, self.num_hashes, &self.hash_builder);
        assert(crate::digests_in(self, item@, it.fingerprint()));
        let prior = self.try_remove_fingerprint(it.digest());
        assert(old(self).checked_removal_gives(it.fingerprint(), prior, self@));
        prior
    }

    /// Removes the key with this fingerprint as `remove_fingerprint` does,
    /// unless a counter would be asked to go below zero; then nothing
    /// changes and the result is `None`.
    pub fn try_remove_fingerprint(&mut self, fingerprint: BloomFingerprint) -> (prior: Option<u32>)
        requires
            old(self).wf(),
        ensures
            final(self).wf(),
            old(self).checked_removal_gives(fingerprint, prior, final(self)@),
            final(self).spec_bits_per_entry() == old(self).spec_bits_per_entry(),
            final(self).spec_num_hashes() == old(self).spec_num_hashes(),
            final(self).hasher() == old(self).hasher(),
    {
        if self.can_remove_fingerprint(fingerprint) {
            Some(self.remove_fingerprint(fingerprint))
        } else {
            None
        }
    }

    /// Raises the counters the cursor names, each by one unless it has
    /// stopped; returns the smallest of them as they were.
    fn insert_get_count_hash_iter(&mut self, h_iter: HashIter) -> (prior: u32)
        requires
            old(self).inv(),
            old(self)@.len() > 0,
            h_iter.position() == 0,
        ensures
            final(self).inv(),
            final(self)@ == bumped(
                old(self)@,
                h_iter.count(),
                h_iter.fingerprint(),
                old(self).spec_max_count(),
            ),
            prior == estimate(old(self)@, h_iter.count(), h_iter.fingerprint()),
            final(self).spec_bits_per_entry() == old(self).spec_bits_per_entry(),
            final(self).spec_num_hashes() == old(self).spec_num_hashes(),
            final(self).hasher() == old(self).hasher(),
    {
        let ghost fp = h_iter.fingerprint();
        let ghost k = h_iter.count();
        let ghost before = self@;
        let ghost m = before.len();
        let ghost max = self.spec_max_count();
        let mut it = h_iter;
        let mut min: u32 = u32::MAX;
        proof {
            self.lemma_counters_bounded();
            lemma_bumped_step(before, 0, fp, max);
            assert(probed(before, 0, fp) =~= Seq::<int>::empty());
        }
        loop
            invariant
                0 < m <= usize::MAX,
                before == old(self)@,
                before.len() == m,
                max == old(self).spec_max_count(),
                max <= u32::MAX,
                forall|p: int| 0 <= p < m ==> #[trigger] before[p] <= max,
                fp == h_iter.fingerprint(),
                k == h_iter.count(),
                it.fingerprint() == fp,
                it.count() == k,
                it.position() <= k,
                self.inv(),
                self.num_entries == m,
                self.spec_bits_per_entry() == old(self).spec_bits_per_entry(),
                self@ == bumped(before, it.position(), fp, max),
                min == estimate(before, it.position(), fp),
                self.num_hashes == old(self).num_hashes,
                self.hash_builder == old(self).hash_builder,
            ensures
                it.position() == k,
            decreases k - it.position(),
        {
            let ghost j = it.position();
            match it.next() {
                None => {
                    break ;
                },
                Some(h) => {
                    let idx: usize = (h % self.num_entries) as usize;
                    proof {
                        lemma_bumped_step(before, j, fp, max);
                        lemma_estimate_step(before, j, fp, max);
                    }
                    let cur = self.counters.get(idx);
                    if cur < min {
                        min = cur;
                    }
                    if cur < self.counters.max_value() {
                        self.counters.set(idx, cur + 1);
                    }
                },
            }
        }
        min
    }

    /// Raises the counters the cursor names; tells whether one of them was
    /// zero.
    fn insert_hash_iter(&mut self, h_iter: HashIter) -> (fresh: bool)
        requires
            old(self).inv(),
            old(self)@.len() > 0,
            h_iter.position() == 0,
        ensures
            final(self).inv(),
            final(self)@ == bumped(
                old(self)@,
                h_iter.count(),
                h_iter.fingerprint(),
                old(self).spec_max_count(),
            ),
            fresh == (estimate(old(self)@, h_iter.count(), h_iter.fingerprint()) == 0),
            final(self).spec_bits_per_entry() == old(self).spec_bits_per_entry(),
            final(self).spec_num_hashes() == old(self).spec_num_hashes(),
            final(self).hasher() == old(self).hasher(),
    {
        self.insert_get_count_hash_iter(h_iter) == 0
    }

    /// The smallest of the counters the cursor names.
    fn estimate_count_hash_iter(&self, h_iter: HashIter) -> (count: u32)
        requires
            self.inv(),
            self@.len() > 0,
            h_iter.position() == 0,
        ensures
            count == estimate(self@, h_iter.count(), h_iter.fingerprint()),
    {
        let ghost fp = h_iter.fingerprint();
        let ghost k = h_iter.count();
        let ghost m = self@.len();
        let ghost max = self.spec_max_count();
        let mut it = h_iter;
        let mut min: u32 = u32::MAX;
        proof {
            self.lemma_counters_bounded();
            assert(probed(self@, 0, fp) =~= Seq::<int>::empty());
        }
        loop
            invariant
                0 < m <= usize::MAX,
                self@.len() == m,
                max == self.spec_max_count(),
                max <= u32::MAX,
                forall|p: int| 0 <= p < m ==> #[trigger] self@[p] <= max,
                fp == h_iter.fingerprint(),
                k == h_iter.count(),
                it.fingerprint() == fp,
                it.count() == k,
                it.position() <= k,
                self.inv(),
                self.num_entries == m,
                min == estimate(self@, it.position(), fp),
            ensures
                it.position() == k,
            decreases k - it.position(),
        {
            let ghost j = it.position();
            match it.next() {
                None => {
                    break ;
                },
                Some(h) => {
                    let idx: usize = (h % self.num_entries) as usize;
                    proof {
                        lemma_estimate_step(self@, j, fp, max);
                    }
                    let cur = self.counters.get(idx);
                    if cur < min {
                        min = cur;
                    }
                },
            }
        }
        min
    }

    /// Whether none of the counters the cursor names is zero.
    fn contains_hash_iter(&self, h_iter: HashIter) -> (present: bool)
        requires
            self.inv(),
            self@.len() > 0,
            h_iter.position() == 0,
        ensures
            present == counted(self@, h_iter.count(), h_iter.fingerprint()),
    {
        let ghost fp = h_iter.fingerprint();
        let ghost k = h_iter.count();
        let ghost m = self@.len();
        let mut it = h_iter;
        proof {
            self.lemma_counters_bounded();
        }
        loop
            invariant
                0 < m <= usize::MAX,
                self@.len() == m,
                fp == h_iter.fingerprint(),
                k == h_iter.count(),
                it.fingerprint() == fp,
                it.count() == k,
                it.position() <= k,
                self.inv(),
                self.num_entries == m,
                forall|t: int| 0 <= t < it.position() ==> #[trigger] probed(self@, k, fp)[t] > 0,
            ensures
                it.position() == k,
            decreases k - it.position(),
        {
            let ghost j = it.position();
            match it.next() {
                None => {
                    break ;
                },
                Some(h) => {
                    let idx: usize = (h % self.num_entries) as usize;
                    let cur = self.counters.get(idx);
                    assert(probed(self@, k, fp)[j as int] == cur);
                    if cur == 0 {
                        return false;
                    }
                },
            }
        }
        true
    }

    /// Lowers the counters the cursor names by one each, if none of them is
    /// zero; returns the smallest of them as the probes found them.
    fn remove_hash_iter(&mut self, h_iter: HashIter) -> (prior: u32)
        requires
            old(self).inv(),
            old(self)@.len() > 0,
            h_iter.position() == 0,
            counted(old(self)@, h_iter.count(), h_iter.fingerprint()) ==> removable(
                old(self)@,
                h_iter.count(),
                h_iter.fingerprint(),
            ),
        ensures
            final(self).inv(),
            !counted(old(self)@, h_iter.count(), h_iter.fingerprint()) ==> prior == 0
                && final(self)@ == old(self)@,
            counted(old(self)@, h_iter.count(), h_iter.fingerprint()) ==> prior == least(
                met_on_removal(old(self)@, h_iter.count(), h_iter.fingerprint()),
            ) && final(self)@ == lowered(old(self)@, h_iter.count(), h_iter.fingerprint()),
            final(self).spec_bits_per_entry() == old(self).spec_bits_per_entry(),
            final(self).spec_num_hashes() == old(self).spec_num_hashes(),
            final(self).hasher() == old(self).hasher(),
    {
        if !self.contains_hash_iter(h_iter) {
            return 0;
        }
        let ghost fp = h_iter.fingerprint();
        let ghost k = h_iter.count();
        let ghost before = self@;
        let ghost m = before.len();
        let ghost max = self.spec_max_count();
        let mut it = h_iter;
        let mut min: u32 = u32::MAX;
        proof {
            self.lemma_counters_bounded();
            if k > 0 {
                lemma_lowered_step(before, 0, k, fp);
            } else {
                assert(lowered(before, 0, fp) =~= before);
            }
            assert(met_on_removal(before, 0, fp) =~= Seq::<int>::empty());
        }
        loop
            invariant
                0 < m <= usize::MAX,
                before == old(self)@,
                before.len() == m,
                max == old(self).spec_max_count(),
                max <= u32::MAX,
                forall|p: int| 0 <= p < m ==> #[trigger] before[p] <= max,
                removable(before, k, fp),
                fp == h_iter.fingerprint(),
                k == h_iter.count(),
                it.fingerprint() == fp,
                it.count() == k,
                it.position() <= k,
                self.inv(),
                self.num_entries == m,
                self.spec_bits_per_entry() == old(self).spec_bits_per_entry(),
                self@ == lowered(before, it.position(), fp),
                min == least(met_on_removal(before, it.position(), fp)),
                self.num_hashes == old(self).num_hashes,
                self.hash_builder == old(self).hash_builder,
            ensures
                it.position() == k,
            decreases k - it.position(),
        {
            let ghost j = it.position();
            match it.next() {
                None => {
                    break ;
                },
                Some(h) => {
                    let idx: usize = (h % self.num_entries) as usize;
                    proof {
                        lemma_lowered_step(before, j, k, fp);
                    }
                    let cur = self.counters.get(idx);
                    if cur < min {
                        min = cur;
                    }
                    assert(cur <= before[idx as int]);
                    self.counters.set(idx, cur - 1);
                },
            }
        }
        min
    }

    /// How many of the key's probes fall on the slot.
    fn count_hits(&self, fingerprint: BloomFingerprint, slot: usize) -> (n: u32)
        requires
            self.wf(),
        ensures
            n == hits(fingerprint, self@.len(), self.spec_num_hashes(), slot as int),
    {
        let ghost m = self@.len();
        let ghost k = self.spec_num_hashes();
        let mut it = HashIter::from_fingerprint(fingerprint, self.num_hashes);
        let mut n: u32 = 0;
        proof {
            self.lemma_counters_bounded();
        }
        loop
            invariant
                0 < m <= usize::MAX,
                self.inv(),
                self@.len() == m,
                self.num_entries == m,
                k == self.spec_num_hashes(),
                it.fingerprint() == fingerprint,
                it.count() == k,
                it.position() <= k,
                k <= u32::MAX,
                n == hits(fingerprint, m, it.position(), slot as int),
                n <= it.position(),
            ensures
                it.position() == k,
            decreases k - it.position(),
        {
            match it.next() {
                None => {
                    break ;
                },
                Some(h) => {
                    let idx: usize = (h % self.num_entries) as usize;
                    if idx == slot {
                        n += 1;
                    }
                },
            }
        }
        n
    }
}

impl<H: BloomBuildHasher> Configured for CountingBloomFilter<H> {
    type Config = H;

    open spec fn configuration(&self) -> H {
        self.hasher()
    }
}

impl<H: BloomBuildHasher> ASMS for CountingBloomFilter<H> {
    /// The counter store is consistent and has at least one counter.
    open spec fn wf(&self) -> bool {
        self.inv() && self@.len() > 0
    }

    open spec fn holds(&self, fp: BloomFingerprint) -> bool {
        counted(self@, self.spec_num_hashes(), fp)
    }

    /// Raises the counters of a digest of the item.
    fn insert<T: Hash>(&mut self, item: &T) -> (fresh: bool)
        ensures
            exists|fp: BloomFingerprint|
                {
                    &&& #[trigger] crate::item_digests_in(old(self), item, fp)
                    &&& final(self)@ == bumped(
                        old(self)@,
                        old(self).spec_num_hashes(),
                        fp,
                        old(self).spec_max_count(),
                    )
                    &&& fresh == !old(self).holds(fp)
                },
            final(self).spec_bits_per_entry() == old(self).spec_bits_per_entry(),
            final(self).spec_num_hashes() == old(self).spec_num_hashes(),
            final(self).hasher() == old(self).hasher(),
    {
        let it = HashIter::from(item, self.num_hashes, &self.hash_builder);
        proof {
            lemma_estimate_zero_iff_absent(self@, self.spec_num_hashes(), it.fingerprint());
        }
        let fresh = self.insert_hash_iter(it);
        assert(crate::item_digests_in(old(self), item, it.fingerprint()));
        fresh
    }

    /// Raises the counters of a digest of the byte string.
    fn insert_slice(&mut self, item: &[u8]) -> (fresh: bool)
        ensures
            exists|fp: BloomFingerprint|
                {
                    &&& #[trigger] crate::digests_in(old(self), item@, fp)
                    &&& final(self)@ == bumped(
                        old(self)@,
                        old(self).spec_num_hashes(),
                        fp,
                        old(self).spec_max_count(),
                    )
                    &&& fresh == !old(self).holds(fp)
                },
            final(self).spec_bits_per_entry() == old(self).spec_bits_per_entry(),
            final(self).spec_num_hashes() == old(self).spec_num_hashes(),
            final(self).hasher() == old(self).hasher(),
    {
        let it = HashIter::from_slice(item, self.num_hashes, &self.hash_builder);
        proof {
            lemma_estimate_zero_iff_absent(self@, self.spec_num_hashes(), it.fingerprint());
        }
        let fresh = self.insert_hash_iter(it);
        assert(crate::digests_in(old(self), item@, it.fingerprint()));
        fresh
    }

    /// Raises the counters of the fingerprint.
    fn insert_fingerprint(&mut self, fingerprint: BloomFingerprint) -> (fresh: bool)
        ensures
            final(self)@ == bumped(
                old(self)@,
                old(self).spec_num_hashes(),
                fingerprint,
                old(self).spec_max_count(),
            ),
            final(self).spec_bits_per_entry() == old(self).spec_bits_per_entry(),
            final(self).spec_num_hashes() == old(self).spec_num_hashes(),
            final(self).hasher() == old(self).hasher(),
    {
        proof {
            lemma_estimate_zero_iff_absent(self@, self.spec_num_hashes(), fingerprint);
        }
        self.insert_hash_iter(HashIter::from_fingerprint(fingerprint, self.num_hashes))
    }

    fn contains<T: Hash>(&self, item: &T) -> (present: bool) {
        let it = HashIter::from(item, self.num_hashes, &self.hash_builder);
        let present = self.contains_hash_iter(it);
        assert(crate::item_digests_in(self, item, it.fingerprint()));
        present
    }

    fn contains_slice(&self, item: &[u8]) -> (present: bool) {
        let it = HashIter::from_slice(item, self.num_hashes, &self.hash_builder);
        let present = self.contains_hash_iter(it);
        assert(crate::digests_in(self, item@, it.fingerprint()));
        present
    }

    fn contains_fingerprint(&self, fingerprint: BloomFingerprint) -> (present: bool) {
        self.contains_hash_iter(HashIter::from_fingerprint(fingerprint, self.num_hashes))
    }

    /// Sets every counter to zero.
    fn clear(&mut self)
        ensures
            final(self)@ == Seq::new(old(self)@.len(), |i: int| 0u32),
            final(self).spec_bits_per_entry() == old(self).spec_bits_per_entry(),
            final(self).spec_num_hashes() == old(self).spec_num_hashes(),
            final(self).hasher() == old(self).hasher(),
    {
        self.counters.clear();
    }
}

/// A step of an insertion: the counters after one more probe.
proof fn lemma_bumped_step(counters: Seq<u32>, j: nat, fp: BloomFingerprint, max: nat)
    requires
        counters.len() > 0,
        max <= u32::MAX,
        forall|p: int| 0 <= p < counters.len() ==> #[trigger] counters[p] <= max,
    ensures
        ({
            let s = crate::hashing::slot(fp, counters.len(), j);
            let now = bumped(counters, j, fp, max);
            bumped(counters, j + 1, fp, max) == if now[s] < max {
                now.update(s, (now[s] + 1) as u32)
            } else {
                now
            }
        }),
        bumped(counters, 0, fp, max) == counters,
{
    let s = crate::hashing::slot(fp, counters.len(), j);
    let now = bumped(counters, j, fp, max);
    let next = if now[s] < max {
        now.update(s, (now[s] + 1) as u32)
    } else {
        now
    };
    assert(bumped(counters, j + 1, fp, max) =~= next);
    assert(bumped(counters, 0, fp, max) =~= counters);
}

/// A step of an estimate: the smallest counter among one more probe, whether
/// the probes read the counters as they were or as the insertion under way
/// has left them.
proof fn lemma_estimate_step(counters: Seq<u32>, j: nat, fp: BloomFingerprint, max: nat)
    requires
        counters.len() > 0,
        max <= u32::MAX,
        forall|p: int| 0 <= p < counters.len() ==> #[trigger] counters[p] <= max,
    ensures
        ({
            let s = crate::hashing::slot(fp, counters.len(), j);
            let low = estimate(counters, j, fp);
            let seen = bumped(counters, j, fp, max)[s] as int;
            &&& estimate(counters, j + 1, fp) == if counters[s] < low {
                counters[s] as int
            } else {
                low
            }
            &&& estimate(counters, j + 1, fp) == if seen < low {
                seen
            } else {
                low
            }
        }),
{
    let m = counters.len();
    let s = crate::hashing::slot(fp, m, j);
    let shorter = probed(counters, j, fp);
    let longer = probed(counters, j + 1, fp);
    assert(longer.drop_last() =~= shorter);
    assert(longer.last() == counters[s]);
    lemma_hits(fp, m, j, j, s);
    if hits(fp, m, j, s) > 0 {
        let t = choose|t: nat| t < j && #[trigger] crate::hashing::slot(fp, m, t) == s;
        lemma_least(shorter);
        assert(shorter[t as int] == counters[s]);
    }
}

/// A step of a removal: the counters after one more probe, and what that
/// probe found.
proof fn lemma_lowered_step(counters: Seq<u32>, j: nat, k: nat, fp: BloomFingerprint)
    requires
        counters.len() > 0,
        j < k,
        removable(counters, k, fp),
    ensures
        ({
            let s = crate::hashing::slot(fp, counters.len(), j);
            let now = lowered(counters, j, fp);
            &&& now[s] > 0
            &&& lowered(counters, j + 1, fp) == now.update(s, (now[s] - 1) as u32)
            &&& least(met_on_removal(counters, j + 1, fp)) == if now[s] < least(
                met_on_removal(counters, j, fp),
            ) {
                now[s] as int
            } else {
                least(met_on_removal(counters, j, fp))
            }
        }),
        lowered(counters, 0, fp) == counters,
{
    let m = counters.len();
    let s = crate::hashing::slot(fp, m, j);
    let now = lowered(counters, j, fp);
    lemma_hits(fp, m, j + 1, k, s);
    assert(hits(fp, m, k, s) <= counters[s]);
    assert forall|p: int| 0 <= p < m implies #[trigger] lowered(counters, j + 1, fp)[p]
        == now.update(s, (now[s] - 1) as u32)[p] by {
        lemma_hits(fp, m, j + 1, k, p);
        assert(hits(fp, m, k, p) <= counters[p]);
    }
    assert(lowered(counters, j + 1, fp) =~= now.update(s, (now[s] - 1) as u32));
    assert(lowered(counters, 0, fp) =~= counters);
    assert(met_on_removal(counters, j + 1, fp).drop_last() =~= met_on_removal(counters, j, fp));
    assert(met_on_removal(counters, j + 1, fp).last() == now[s]);
}

/// The smallest value is no larger than any of the values, and is one of
/// them where there is one.
pub proof fn lemma_least(values: Seq<int>)
    requires
        forall|t: int| 0 <= t < values.len() ==> #[trigger] values[t] <= u32::MAX,
    ensures
        forall|t: int| 0 <= t < values.len() ==> least(values) <= #[trigger] values[t],
        values.len() > 0 ==> exists|t: int| 0 <= t < values.len() && values[t] == least(values),
        values.len() == 0 ==> least(values) == u32::MAX,
    decreases values.len(),
{
    if values.len() > 0 {
        let front = values.drop_last();
        assert forall|t: int| 0 <= t < front.len() implies #[trigger] front[t] <= u32::MAX by {
            assert(front[t] == values[t]);
        }
        lemma_least(front);
        assert forall|t: int| 0 <= t < values.len() implies least(values)
            <= #[trigger] values[t] by {
            if t < front.len() {
                assert(front[t] == values[t]);
            }
        }
        if values.last() < least(front) || front.len() == 0 {
            assert(values[values.len() - 1] <= u32::MAX);
            assert(values[values.len() - 1] == least(values));
        } else {
            let t = choose|t: int| 0 <= t < front.len() && front[t] == least(front);
            assert(values[t] == least(values));
        }
    }
}

/// A slot that some of the first `j` probes fall on is the slot of one of
/// them, and later probes only add to the count.
pub proof fn lemma_hits(fp: BloomFingerprint, modulus: nat, j: nat, k: nat, p: int)
    requires
        j <= k,
    ensures
        hits(fp, modulus, j, p) <= hits(fp, modulus, k, p),
        hits(fp, modulus, k, p) <= k,
        hits(fp, modulus, j, p) > 0 ==> exists|t: nat|
            t < j && #[trigger] crate::hashing::slot(fp, modulus, t) == p,
    decreases k,
{
    if j < k {
        lemma_hits(fp, modulus, j, (k - 1) as nat, p);
    } else if j > 0 {
        lemma_hits(fp, modulus, (j - 1) as nat, (j - 1) as nat, p);
        if hits(fp, modulus, j, p) > 0 {
            if crate::hashing::slot(fp, modulus, (j - 1) as nat) == p {
                assert(crate::hashing::slot(fp, modulus, (j - 1) as nat) == p);
            } else {
                let t = choose|t: nat|
                    t < j - 1 && #[trigger] crate::hashing::slot(fp, modulus, t) == p;
                assert(t < j && crate::hashing::slot(fp, modulus, t) == p);
            }
        }
    }
}

/// A key is reported as present exactly when its estimated count is not zero.
pub proof fn lemma_estimate_zero_iff_absent(counters: Seq<u32>, k: nat, fp: BloomFingerprint)
    ensures
        (estimate(counters, k, fp) == 0) == !counted(counters, k, fp),
        0 <= estimate(counters, k, fp) <= u32::MAX,
{
    let met = probed(counters, k, fp);
    lemma_least(met);
    if k > 0 {
        let t = choose|t: int| 0 <= t < met.len() && met[t] == least(met);
        if least(met) == 0 {
            assert(!(probed(counters, k, fp)[t] > 0));
        }
    }
    if !counted(counters, k, fp) {
        let t = choose|t: int| 0 <= t < k && !(#[trigger] probed(counters, k, fp)[t] > 0);
        assert(least(met) <= met[t]);
    }
}

/// Inserting a key makes the filter report the key, unless the counters are
/// of no width, and takes no key away that the filter reported before. No
/// counter goes above `max`, so no estimate does.
pub proof fn lemma_insert_then_counted(
    counters: Seq<u32>,
    k: nat,
    fp: BloomFingerprint,
    other: BloomFingerprint,
    max: nat,
)
    requires
        counters.len() > 0,
        0 < max <= u32::MAX,
        forall|p: int| 0 <= p < counters.len() ==> #[trigger] counters[p] <= max,
    ensures
        counted(bumped(counters, k, fp, max), k, fp),
        counted(counters, k, other) ==> counted(bumped(counters, k, fp, max), k, other),
        forall|p: int|
            0 <= p < counters.len() ==> counters[p] <= #[trigger] bumped(counters, k, fp, max)[p]
                <= max,
        k > 0 ==> estimate(bumped(counters, k, fp, max), k, other) <= max,
{
    let m = counters.len();
    let after = bumped(counters, k, fp, max);
    assert forall|t: int| 0 <= t < k implies #[trigger] probed(after, k, fp)[t] > 0 by {
        let s = crate::hashing::slot(fp, m, t as nat);
        lemma_hits(fp, m, (t + 1) as nat, k, s);
    }
    if counted(counters, k, other) {
        assert forall|t: int| 0 <= t < k implies #[trigger] probed(after, k, other)[t] > 0 by {
            assert(probed(counters, k, other)[t] > 0);
        }
    }
    if k > 0 {
        lemma_least(probed(after, k, other));
        assert(probed(after, k, other)[0] <= max);
    }
}

/// A key that was inserted can be removed again if no counter can stop
/// before it has counted every probe of one key, and the removal puts every
/// counter that did not stop back to what it was.
pub proof fn lemma_insert_then_remove(counters: Seq<u32>, k: nat, fp: BloomFingerprint, max: nat)
    requires
        counters.len() > 0,
        max <= u32::MAX,
        forall|p: int| 0 <= p < counters.len() ==> #[trigger] counters[p] <= max,
    ensures
        k <= max ==> removable(bumped(counters, k, fp, max), k, fp),
        forall|p: int|
            0 <= p < counters.len() && counters[p] + hits(fp, counters.len(), k, p) <= max
                ==> #[trigger] lowered(bumped(counters, k, fp, max), k, fp)[p] == counters[p],
{
    let m = counters.len();
    assert forall|p: int| 0 <= p < m implies hits(fp, m, k, p) <= k by {
        lemma_hits(fp, m, k, k, p);
    }
}

/// An insertion lowers no estimate, and raises the estimate of the key
/// inserted by one at least, until a counter stops: an estimate is never
/// below the number of times the key was inserted, unless that number is
/// above the value at which counters stop.
pub proof fn lemma_insert_raises_estimate(
    counters: Seq<u32>,
    k: nat,
    fp: BloomFingerprint,
    other: BloomFingerprint,
    max: nat,
)
    requires
        counters.len() > 0,
        max <= u32::MAX,
        forall|p: int| 0 <= p < counters.len() ==> #[trigger] counters[p] <= max,
    ensures
        estimate(bumped(counters, k, fp, max), k, other) >= estimate(counters, k, other),
        k > 0 && estimate(counters, k, fp) < max ==> estimate(bumped(counters, k, fp, max), k, fp)
            > estimate(counters, k, fp),
        k > 0 && estimate(counters, k, fp) >= max ==> estimate(
            bumped(counters, k, fp, max),
            k,
            fp,
        ) == max,
{
    let m = counters.len();
    let after = bumped(counters, k, fp, max);
    lemma_least(probed(counters, k, other));
    lemma_least(probed(after, k, other));
    lemma_least(probed(counters, k, fp));
    lemma_least(probed(after, k, fp));
    if k > 0 {
        let t = choose|t: int|
            0 <= t < k && probed(after, k, other)[t] == least(probed(after, k, other));
        assert(probed(counters, k, other)[t] <= probed(after, k, other)[t]);
        let u = choose|u: int| 0 <= u < k && probed(after, k, fp)[u] == least(probed(after, k, fp));
        let s = crate::hashing::slot(fp, m, u as nat);
        lemma_hits(fp, m, (u + 1) as nat, k, s);
        assert(probed(counters, k, fp)[u] == counters[s]);
    }
}

/// The smallest of values that were each raised by one, but not above `max`,
/// is the smallest of the values raised so.
proof fn lemma_least_raised(was: Seq<int>, now: Seq<int>, max: int)
    requires
        was.len() == now.len(),
        was.len() > 0,
        0 <= max <= u32::MAX,
        forall|t: int| 0 <= t < was.len() ==> #[trigger] was[t] <= max,
        forall|t: int|
            0 <= t < was.len() ==> #[trigger] now[t] == if was[t] < max {
                was[t] + 1
            } else {
                max
            },
    ensures
        least(now) == if least(was) < max {
            least(was) + 1
        } else {
            max
        },
{
    lemma_least(was);
    lemma_least(now);
    let low = choose|t: int| 0 <= t < was.len() && was[t] == least(was);
    let top = choose|t: int| 0 <= t < now.len() && now[t] == least(now);
    assert(least(now) <= now[low]);
    assert(least(was) <= was[top]);
}

/// The smallest of values that were each lowered by one is the smallest of
/// the values, lowered by one.
proof fn lemma_least_lowered(was: Seq<int>, now: Seq<int>)
    requires
        was.len() == now.len(),
        was.len() > 0,
        forall|t: int| 0 <= t < was.len() ==> #[trigger] was[t] <= u32::MAX,
        forall|t: int| 0 <= t < was.len() ==> #[trigger] now[t] == was[t] - 1,
    ensures
        least(now) == least(was) - 1,
{
    lemma_least(was);
    lemma_least(now);
    let low = choose|t: int| 0 <= t < was.len() && was[t] == least(was);
    let bottom = choose|t: int| 0 <= t < now.len() && now[t] == least(now);
    assert(least(now) <= now[low]);
    assert(least(was) <= was[bottom]);
}

/// Where the probes of a key fall on different slots, none of them falls on
/// the slot of a later one.
proof fn lemma_probes_apart(fp: BloomFingerprint, k: nat, modulus: nat, t: nat)
    requires
        probes_apart(fp, k, modulus),
        t < k,
    ensures
        hits(fp, modulus, k, crate::hashing::slot(fp, modulus, t)) == 1,
        hits(fp, modulus, t, crate::hashing::slot(fp, modulus, t)) == 0,
{
    lemma_hits(fp, modulus, t + 1, k, crate::hashing::slot(fp, modulus, t));
}

/// Where the probes of a key fall on different slots, an insertion raises
/// the estimate of the key by one, until a counter stops.
pub proof fn lemma_probes_apart_insert(counters: Seq<u32>, k: nat, fp: BloomFingerprint, max: nat)
    requires
        counters.len() > 0,
        max <= u32::MAX,
        forall|p: int| 0 <= p < counters.len() ==> #[trigger] counters[p] <= max,
        k > 0,
        probes_apart(fp, k, counters.len()),
    ensures
        estimate(bumped(counters, k, fp, max), k, fp) == if estimate(counters, k, fp) < max {
            estimate(counters, k, fp) + 1
        } else {
            max as int
        },
{
    let m = counters.len();
    let was = probed(counters, k, fp);
    let now = probed(bumped(counters, k, fp, max), k, fp);
    assert forall|t: int| 0 <= t < k implies #[trigger] now[t] == if was[t] < max {
        was[t] + 1
    } else {
        max as int
    } by {
        lemma_probes_apart(fp, k, m, t as nat);
    }
    lemma_least_raised(was, now, max as int);
}

/// Where the probes of a key fall on different slots, a removal can be made
/// whenever the filter reports the key; it returns the estimate of the key
/// and lowers that estimate by one.
pub proof fn lemma_probes_apart_remove(counters: Seq<u32>, k: nat, fp: BloomFingerprint)
    requires
        counters.len() > 0,
        k > 0,
        probes_apart(fp, k, counters.len()),
        counted(counters, k, fp),
    ensures
        removable(counters, k, fp),
        least(met_on_removal(counters, k, fp)) == estimate(counters, k, fp),
        estimate(lowered(counters, k, fp), k, fp) == estimate(counters, k, fp) - 1,
{
    let m = counters.len();
    let was = probed(counters, k, fp);
    let now = probed(lowered(counters, k, fp), k, fp);
    assert forall|p: int| 0 <= p < m implies #[trigger] hits(fp, m, k, p) <= counters[p] by {
        lemma_hits(fp, m, k, k, p);
        if hits(fp, m, k, p) > 0 {
            let t = choose|t: nat| t < k && #[trigger] crate::hashing::slot(fp, m, t) == p;
            lemma_probes_apart(fp, k, m, t);
            assert(was[t as int] > 0);
        }
    }
    assert forall|t: int| 0 <= t < k implies #[trigger] met_on_removal(counters, k, fp)[t]
        == was[t] by {
        lemma_probes_apart(fp, k, m, t as nat);
    }
    assert(met_on_removal(counters, k, fp) =~= was);
    assert forall|t: int| 0 <= t < k implies #[trigger] now[t] == was[t] - 1 by {
        lemma_probes_apart(fp, k, m, t as nat);
        assert(was[t] > 0);
    }
    lemma_least_lowered(was, now);
}

/// Where the probes of a key fall on different slots and no counter stops,
/// `n` insertions of the key raise its estimate by `n`.
pub proof fn lemma_inserted_times(
    counters: Seq<u32>,
    k: nat,
    fp: BloomFingerprint,
    max: nat,
    n: nat,
)
    requires
        counters.len() > 0,
        max <= u32::MAX,
        forall|p: int| 0 <= p < counters.len() ==> #[trigger] counters[p] <= max,
        k > 0,
        probes_apart(fp, k, counters.len()),
        estimate(counters, k, fp) + n <= max,
    ensures
        inserted_times(counters, k, fp, max, n).len() == counters.len(),
        forall|p: int|
            0 <= p < counters.len() ==> #[trigger] inserted_times(counters, k, fp, max, n)[p]
                <= max,
        estimate(inserted_times(counters, k, fp, max, n), k, fp) == estimate(counters, k, fp) + n,
    decreases n,
{
    if n > 0 {
        let before = inserted_times(counters, k, fp, max, (n - 1) as nat);
        lemma_inserted_times(counters, k, fp, max, (n - 1) as nat);
        lemma_probes_apart_insert(before, k, fp, max);
    }
}

/// Where the probes of a key fall on different slots, the key can be removed
/// as often as its estimate says: each removal returns the estimate as it
/// then stands and lowers it by one, and once the estimate is zero the
/// filter does not report the key any more.
pub proof fn lemma_removed_times(counters: Seq<u32>, k: nat, fp: BloomFingerprint, n: nat)
    requires
        counters.len() > 0,
        k > 0,
        probes_apart(fp, k, counters.len()),
        n <= estimate(counters, k, fp),
    ensures
        removed_times(counters, k, fp, n).len() == counters.len(),
        estimate(removed_times(counters, k, fp, n), k, fp) == estimate(counters, k, fp) - n,
        n < estimate(counters, k, fp) ==> {
            &&& counted(removed_times(counters, k, fp, n), k, fp)
            &&& removable(removed_times(counters, k, fp, n), k, fp)
            &&& least(met_on_removal(removed_times(counters, k, fp, n), k, fp)) == estimate(
                counters,
                k,
                fp,
            ) - n
        },
        n == estimate(counters, k, fp) ==> !counted(removed_times(counters, k, fp, n), k, fp),
    decreases n,
{
    if n > 0 {
        let before = removed_times(counters, k, fp, (n - 1) as nat);
        lemma_removed_times(counters, k, fp, (n - 1) as nat);
        lemma_probes_apart_remove(before, k, fp);
    }
    let now = removed_times(counters, k, fp, n);
    lemma_estimate_zero_iff_absent(now, k, fp);
    if n < estimate(counters, k, fp) {
        lemma_probes_apart_remove(now, k, fp);
    }
}

/// No false negatives: a byte string that was inserted is reported as
/// present by every later query, as long as no counter that the insertion
/// left above zero has gone back to zero since. This holds wherever the
/// hash configuration gives the byte string one digest only and the counters
/// are at least one bit wide.
pub proof fn lemma_no_false_negatives<H: BloomBuildHasher>(
    before: &CountingBloomFilter<H>,
    inserted: &CountingBloomFilter<H>,
    later: &CountingBloomFilter<H>,
    bytes: Seq<u8>,
    present: bool,
)
    requires
        before.wf(),
        before.spec_bits_per_entry() > 0,
        crate::deterministic(before.hasher()),
        exists|fp: BloomFingerprint|
            #[trigger] crate::digests_in(before, bytes, fp) && inserted@ == bumped(
                before@,
                before.spec_num_hashes(),
                fp,
                before.spec_max_count(),
            ),
        later.spec_num_hashes() == before.spec_num_hashes(),
        later.hasher() == before.hasher(),
        later@.len() == inserted@.len(),
        forall|p: int| 0 <= p < inserted@.len() && inserted@[p] > 0 ==> later@[p] > 0,
        exists|fp: BloomFingerprint|
            #[trigger] crate::digests_in(later, bytes, fp) && present == later.holds(fp),
    ensures
        present,
{
    let k = before.spec_num_hashes();
    let max = before.spec_max_count();
    let a = choose|fp: BloomFingerprint|
        #[trigger] crate::digests_in(before, bytes, fp) && inserted@ == bumped(before@, k, fp, max);
    let b = choose|fp: BloomFingerprint|
        #[trigger] crate::digests_in(later, bytes, fp) && present == later.holds(fp);
    assert(crate::digests_to(before.hasher(), bytes, a) && crate::digests_to(
        before.hasher(),
        bytes,
        b,
    ));
    before.lemma_counters_bounded();
    vstd::arithmetic::power2::lemma_pow2_strictly_increases(0, before.spec_bits_per_entry());
    vstd::arithmetic::power2::lemma2_to64();
    lemma_insert_then_counted(before@, k, a, a, max);
    assert forall|t: int| 0 <= t < k implies #[trigger] probed(later@, k, b)[t] > 0 by {
        assert(probed(inserted@, k, a)[t] > 0);
    }
}

/// No false negatives: a hashable item that was inserted is reported as
/// present by every later query, as long as no counter that the insertion
/// left above zero has gone back to zero since. This holds wherever the
/// hash configuration gives the item one digest only and the counters are at
/// least one bit wide.
pub proof fn lemma_no_false_negatives_item<T: Hash, H: BloomBuildHasher>(
    before: &CountingBloomFilter<H>,
    inserted: &CountingBloomFilter<H>,
    later: &CountingBloomFilter<H>,
    item: &T,
    present: bool,
)
    requires
        before.wf(),
        before.spec_bits_per_entry() > 0,
        crate::deterministic_on(before.hasher(), item),
        exists|fp: BloomFingerprint|
            #[trigger] crate::item_digests_in(before, item, fp) && inserted@ == bumped(
                before@,
                before.spec_num_hashes(),
                fp,
                before.spec_max_count(),
            ),
        later.spec_num_hashes() == before.spec_num_hashes(),
        later.hasher() == before.hasher(),
        later@.len() == inserted@.len(),
        forall|p: int| 0 <= p < inserted@.len() && inserted@[p] > 0 ==> later@[p] > 0,
        exists|fp: BloomFingerprint|
            #[trigger] crate::item_digests_in(later, item, fp) && present == later.holds(fp),
    ensures
        present,
{
    let k = before.spec_num_hashes();
    let max = before.spec_max_count();
    let a = choose|fp: BloomFingerprint|
        #[trigger] crate::item_digests_in(before, item, fp) && inserted@ == bumped(
            before@,
            k,
            fp,
            max,
        );
    let b = choose|fp: BloomFingerprint|
        #[trigger] crate::item_digests_in(later, item, fp) && present == later.holds(fp);
    assert(crate::hashing::item_digests_to(before.hasher(), item, a)
        && crate::hashing::item_digests_to(before.hasher(), item, b));
    before.lemma_counters_bounded();
    vstd::arithmetic::power2::lemma_pow2_strictly_increases(0, before.spec_bits_per_entry());
    vstd::arithmetic::power2::lemma2_to64();
    lemma_insert_then_counted(before@, k, a, a, max);
    assert forall|t: int| 0 <= t < k implies #[trigger] probed(later@, k, b)[t] > 0 by {
        assert(probed(inserted@, k, a)[t] > 0);
    }
}

} // verus!
