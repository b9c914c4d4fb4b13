//! Approximate set membership: a standard Bloom filter and a counting Bloom
//! filter that share one double-hashing scheme over a 128-bit key digest.
//!
//! A filter records that a key was seen and later tells whether a key may
//! have been seen. It never denies a key that was recorded; it may, at a rate
//! that its size decides, admit a key that was not.
//!
//! * [`BloomFingerprint`] holds the two 64-bit lanes of a key's digest, and
//!   [`HashIter`] derives from them as many slot indices as a filter asks
//!   for.
//! * [`BloomFilter`] keeps one bit per slot and supports union and
//!   intersection with a filter of the same size.
//! * [`CountingBloomFilter`] keeps a saturating counter per slot, packed into
//!   a [`ValueVec`], and so supports removal and an estimate of how often a
//!   key was inserted.
//! * [`BloomBuildHasher`] is what a hash configuration has to offer;
//!   [`SecretBasedXxh3Builder`] and [`RandomXxh3State`] are configurations
//!   over XXH3.
//!
//! Every function states what it returns and what it changes in its
//! contract, over the bits or the counters of the filter as a sequence. The
//! laws that relate several functions, such as the absence of false
//! negatives, are proof functions beside the types they speak of.

use std::hash::{Hash, Hasher};
use vstd::prelude::*;

pub mod bits;
pub mod bloom;
pub mod counting;
pub mod hashing;
pub mod valuevec;
pub mod xxh_helper;

pub use crate::bloom::BloomFilter;
pub use crate::counting::CountingBloomFilter;
pub use crate::hashing::HashIter;
pub use crate::valuevec::ValueVec;
pub use crate::xxh_helper::{RandomXxh3State, SecretBasedXxh3Builder};

verus! {

/// The length of the secret of an XXH3 hash configuration, in bytes.
pub const XXH3_SECRET_SIZE: usize = xxh_helper::DEFAULT_SECRET_SIZE;

/// The two 64-bit lanes of a key's 128-bit digest under one hash
/// configuration. A fingerprint computed once can be offered to every filter
/// that shares that configuration, so the key is hashed a single time.
#[derive(Copy, Clone)]
pub struct BloomFingerprint {
    pub(crate) h1: u64,
    pub(crate) h2: u64,
}

impl BloomFingerprint {
    /// The first lane.
    pub closed spec fn lane1(self) -> u64 {
        self.h1
    }

    /// The second lane.
    pub closed spec fn lane2(self) -> u64 {
        self.h2
    }

    /// The fingerprint with the given lanes.
    pub closed spec fn from_lanes(h1: u64, h2: u64) -> Self {
        Self { h1, h2 }
    }

    /// The fingerprint of a 128-bit digest: the high half is the first lane,
    /// the low half the second.
    pub open spec fn from_u128(h: u128) -> Self {
        Self::from_lanes(
            (h / 0x1_0000_0000_0000_0000) as u64,
            (h % 0x1_0000_0000_0000_0000) as u64,
        )
    }

    /// A fingerprint is its two lanes and nothing else.
    pub proof fn lemma_lanes(self)
        ensures
            self == Self::from_lanes(self.lane1(), self.lane2()),
            forall|h1: u64, h2: u64|
                #![trigger Self::from_lanes(h1, h2)]
                Self::from_lanes(h1, h2).lane1() == h1 && Self::from_lanes(h1, h2).lane2() == h2,
    {
    }

    pub fn new(h1: u64, h2: u64) -> (fp: Self)
        ensures
            fp == Self::from_lanes(h1, h2),
            fp.lane1() == h1,
            fp.lane2() == h2,
    {
        Self { h1, h2 }
    }

    /// Splits a 128-bit digest into its two lanes.
    pub fn new_128(h: u128) -> (fp: Self)
        ensures
            fp == Self::from_u128(h),
    {
        let hi: u64 = (h >> 64) as u64;
        let lo: u64 = (h & 0xffff_ffff_ffff_ffff) as u64;
        assert((h >> 64) == h / 0x1_0000_0000_0000_0000 && (h & 0xffff_ffff_ffff_ffff) == h
            % 0x1_0000_0000_0000_0000 && (h >> 64) <= 0xffff_ffff_ffff_ffff) by (bit_vector);
        Self::new(hi, lo)
    }
}

/// A streaming hasher that can hand out the whole 128-bit digest of what was
/// written to it.
pub trait BloomHasher: Hasher {
    fn finish_128(&self) -> BloomFingerprint;
}

/// A hash configuration: it builds streaming hashers and digests byte strings
/// in one step. A configuration is expected to give the same bytes the same
/// digest every time; [`deterministic`] says so of a configuration.
pub trait BloomBuildHasher: Clone {
    type Hasher: BloomHasher;

    fn build_hasher(&self) -> Self::Hasher;

    fn hash_one_128(&self, k: &[u8]) -> BloomFingerprint;
}

/// Whether `fp` is a digest that the configuration may give to the byte
/// string: a result that `hash_one_128` can return for it.
pub open spec fn digests_to<H: BloomBuildHasher>(
    h: H,
    bytes: Seq<u8>,
    fp: BloomFingerprint,
) -> bool {
    exists|k: &[u8]| k@ == bytes && #[trigger] call_ensures(H::hash_one_128, (&h, k), fp)
}

/// Whether the configuration gives every byte string one digest only.
pub open spec fn deterministic<H: BloomBuildHasher>(h: H) -> bool {
    forall|bytes: Seq<u8>, a: BloomFingerprint, b: BloomFingerprint|
        #![trigger digests_to(h, bytes, a), digests_to(h, bytes, b)]
        digests_to(h, bytes, a) && digests_to(h, bytes, b) ==> a == b
}

/// Whether `fp` is a digest that a streaming hasher of this kind can hand
/// out: a result that `finish_128` can return for some state of the hasher.
pub open spec fn finishes_to<S: BloomHasher>(fp: BloomFingerprint) -> bool {
    exists|s: S| #[trigger] call_ensures(S::finish_128, (&s,), fp)
}

/// Whether the configuration gives the hashable item one digest only. This
/// is so where the item's `Hash` implementation feeds a hasher the same
/// bytes every time and the configuration's hashers digest alike.
pub open spec fn deterministic_on<T: Hash, H: BloomBuildHasher>(h: H, item: T) -> bool {
    forall|a: BloomFingerprint, b: BloomFingerprint|
        #![trigger
            crate::hashing::item_digests_to(h, item, a),
            crate::hashing::item_digests_to(h, item, b),
        ]
        crate::hashing::item_digests_to(h, item, a) && crate::hashing::item_digests_to(h, item, b)
            ==> a == b
}

/// A structure that digests its keys with a hash configuration.
pub trait Configured {
    /// The kind of hash configuration the structure works with.
    type Config: BloomBuildHasher;

    /// The hash configuration that the structure digests its keys with.
    spec fn configuration(&self) -> Self::Config;
}

/// Whether the structure's hash configuration may give this digest to the
/// byte string.
pub open spec fn digests_in<F: Configured + ?Sized>(
    filter: &F,
    bytes: Seq<u8>,
    fp: BloomFingerprint,
) -> bool {
    digests_to(filter.configuration(), bytes, fp)
}

/// Whether the structure's hash configuration may give this digest to the
/// hashable item.
pub open spec fn item_digests_in<F: Configured + ?Sized, T: Hash>(
    filter: &F,
    item: T,
    fp: BloomFingerprint,
) -> bool {
    crate::hashing::item_digests_to(filter.configuration(), item, fp)
}

/// What every approximate-set-membership structure offers. A key is offered
/// as a hashable value, as a byte string or as a fingerprint computed
/// beforehand; the three differ only in how the fingerprint is obtained.
pub trait ASMS: Configured {
    /// Whether the structure has at least one slot and is consistent.
    spec fn wf(&self) -> bool;

    /// Whether the structure reports the key with this fingerprint as present.
    spec fn holds(&self, fp: BloomFingerprint) -> bool;

    /// Records the key. The result tells whether the key was new, that is
    /// whether it was not reported as present before.
    fn insert<T: Hash>(&mut self, item: &T) -> (fresh: bool)
        requires
            old(self).wf(),
        ensures
            final(self).wf(),
            exists|fp: BloomFingerprint|
                #[trigger] item_digests_in(old(self), item, fp) && fresh == !old(self).holds(fp),
    ;

    fn insert_slice(&mut self, item: &[u8]) -> (fresh: bool)
        requires
            old(self).wf(),
        ensures
            final(self).wf(),
            exists|fp: BloomFingerprint|
                #[trigger] digests_in(old(self), item@, fp) && fresh == !old(self).holds(fp),
    ;

    fn insert_fingerprint(&mut self, fingerprint: BloomFingerprint) -> (fresh: bool)
        requires
            old(self).wf(),
        ensures
            final(self).wf(),
            fresh == !old(self).holds(fingerprint),
    ;

    /// Whether the key is reported as present. A key that was recorded and
    /// not removed since is always reported; another key may be.
    fn contains<T: Hash>(&self, item: &T) -> (present: bool)
        requires
            self.wf(),
        ensures
            exists|fp: BloomFingerprint|
                #[trigger] item_digests_in(self, item, fp) && present == self.holds(fp),
    ;

    fn contains_slice(&self, item: &[u8]) -> (present: bool)
        requires
            self.wf(),
        ensures
            exists|fp: BloomFingerprint|
                #[trigger] digests_in(self, item@, fp) && present == self.holds(fp),
    ;

    fn contains_fingerprint(&self, fingerprint: BloomFingerprint) -> (present: bool)
        requires
            self.wf(),
        ensures
            present == self.holds(fingerprint),
    ;

    /// Forgets every key.
    fn clear(&mut self)
        requires
            old(self).wf(),
        ensures
            final(self).wf(),
    ;
}

/// Filters that can be narrowed to the keys recorded in both of two filters.
/// The two must have the same number of slots; that they also share one hash
/// configuration is for the caller to see to, and is not checked.
pub trait Intersectable {
    /// Whether the two filters have the same number of slots.
    spec fn can_intersect(&self, other: &Self) -> bool;

    /// Narrows `self` to what both filters hold; tells whether `self` changed.
    fn intersect(&mut self, other: &Self) -> (changed: bool)
        requires
            old(self).can_intersect(other),
    ;
}

/// Filters that can be widened to the keys recorded in either of two filters.
/// The two must have the same number of slots; that they also share one hash
/// configuration is for the caller to see to, and is not checked.
pub trait Unionable {
    /// Whether the two filters have the same number of slots.
    spec fn can_unite(&self, other: &Self) -> bool;

    /// Widens `self` to what either filter holds; tells whether `self` changed.
    fn union(&mut self, other: &Self) -> (changed: bool)
        requires
            old(self).can_unite(other),
    ;
}

/// Filters that can be both intersected and united.
pub trait Combineable: Intersectable + Unionable {

}

impl<T> Combineable for T where T: Intersectable + Unionable {

}

/// A structure answers alike for a key offered as a byte string and for the
/// key offered as a fingerprint computed beforehand, wherever the hash
/// configuration gives the byte string one digest only.
pub proof fn lemma_fingerprint_reuse<F: ASMS>(
    filter: &F,
    bytes: Seq<u8>,
    fingerprint: BloomFingerprint,
    by_bytes: bool,
    by_fingerprint: bool,
)
    requires
        deterministic(filter.configuration()),
        digests_in(filter, bytes, fingerprint),
        exists|fp: BloomFingerprint|
            #[trigger] digests_in(filter, bytes, fp) && by_bytes == filter.holds(fp),
        by_fingerprint == filter.holds(fingerprint),
    ensures
        by_bytes == by_fingerprint,
{
    let fp = choose|fp: BloomFingerprint|
        #[trigger] digests_in(filter, bytes, fp) && by_bytes == filter.holds(fp);
    assert(digests_to(filter.configuration(), bytes, fp) && digests_to(
        filter.configuration(),
        bytes,
        fingerprint,
    ));
}

/// A structure answers alike for a key offered as a hashable item and for
/// the key offered as a fingerprint computed beforehand, wherever the hash
/// configuration gives the item one digest only.
pub proof fn lemma_fingerprint_reuse_item<F: ASMS, T: Hash>(
    filter: &F,
    item: T,
    fingerprint: BloomFingerprint,
    by_item: bool,
    by_fingerprint: bool,
)
    requires
        deterministic_on(filter.configuration(), item),
        item_digests_in(filter, item, fingerprint),
        exists|fp: BloomFingerprint|
            #[trigger] item_digests_in(filter, item, fp) && by_item == filter.holds(fp),
        by_fingerprint == filter.holds(fingerprint),
    ensures
        by_item == by_fingerprint,
{
    let fp = choose|fp: BloomFingerprint|
        #[trigger] item_digests_in(filter, item, fp) && by_item == filter.holds(fp);
    assert(crate::hashing::item_digests_to(filter.configuration(), item, fp)
        && crate::hashing::item_digests_to(filter.configuration(), item, fingerprint));
}

} // verus!
