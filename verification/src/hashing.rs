//! Double hashing: a whole sequence of slot indices from the two lanes of one
//! fingerprint.

use std::hash::{Hash, Hasher};
use vstd::prelude::*;

use crate::{BloomBuildHasher, BloomFingerprint, BloomHasher};

verus! {

/// The `i`-th raw value drawn from a fingerprint: the first lane, the second
/// lane, and from then on `(lane1 + i) * lane2`, both operations wrapping at
/// 64 bits.
pub open spec fn raw_index(fp: BloomFingerprint, i: nat) -> u64 {
    if i == 0 {
        fp.lane1()
    } else if i == 1 {
        fp.lane2()
    } else {
        let sum = (fp.lane1() + i) % 0x1_0000_0000_0000_0000;
        ((sum * fp.lane2()) % 0x1_0000_0000_0000_0000) as u64
    }
}

/// The `i`-th slot of a store with `modulus` slots.
pub open spec fn slot(fp: BloomFingerprint, modulus: nat, i: nat) -> int {
    raw_index(fp, i) as int % modulus as int
}

/// The slots a fingerprint touches in a store with `modulus` slots when
/// `count` of them are asked for, in the order they are visited.
pub open spec fn slots(fp: BloomFingerprint, count: nat, modulus: nat) -> Seq<int> {
    Seq::new(count, |i: int| slot(fp, modulus, i as nat))
}

/// For every fingerprint and every requested count the slot sequence has
/// exactly that many entries, and each lies in `[0, modulus)`.
pub proof fn lemma_slots_in_range(fp: BloomFingerprint, count: nat, modulus: nat)
    requires
        modulus > 0,
    ensures
        slots(fp, count, modulus).len() == count,
        forall|i: int| 0 <= i < count ==> 0 <= #[trigger] slots(fp, count, modulus)[i] < modulus,
{
}

/// `Hash::hash`: feeds the item to the hasher and hands the hasher back. What
/// the hasher then holds depends on how the item's type implements `Hash`;
/// nothing is claimed of it.
#[verifier::external_body]
pub(crate) fn feed_item<T: Hash, S: Hasher>(item: &T, state: S) -> S {
    let mut state = state;
    item.hash(&mut state);
    state
}

/// Whether `fp` is a digest that the configuration may give to the hashable
/// item: the configuration builds a hasher, the item's `Hash` implementation
/// writes the item to it, and the hasher hands out `fp`.
pub closed spec fn item_digests_to<T: Hash, H: BloomBuildHasher>(
    h: H,
    item: T,
    fp: BloomFingerprint,
) -> bool {
    exists|fresh: H::Hasher, fed: H::Hasher|
        {
            &&& call_ensures(H::build_hasher, (&h,), fresh)
            &&& #[trigger] call_ensures(feed_item::<T, H::Hasher>, (&item, fresh), fed)
            &&& call_ensures(<H::Hasher as BloomHasher>::finish_128, (&fed,), fp)
        }
}

/// A digest of a hashable item under a configuration is a digest that a
/// hasher of the configuration can hand out.
pub proof fn lemma_item_digest_is_finished<T: Hash, H: BloomBuildHasher>(
    h: H,
    item: T,
    fp: BloomFingerprint,
)
    requires
        item_digests_to(h, item, fp),
    ensures
        crate::finishes_to::<H::Hasher>(fp),
{
    let fed = choose|fed: H::Hasher|
        call_ensures(<H::Hasher as BloomHasher>::finish_128, (&fed,), fp);
    assert(call_ensures(<H::Hasher as BloomHasher>::finish_128, (&fed,), fp));
}

/// A one-pass cursor over the raw values of a fingerprint. It hands out
/// `count` values and is then exhausted; to walk the sequence again, build a
/// new cursor from the same fingerprint.
#[derive(Copy, Clone)]
pub struct HashIter {
    fp: BloomFingerprint,
    i: u32,
    count: u32,
}

impl HashIter {
    #[verifier::type_invariant]
    spec fn in_bounds(self) -> bool {
        self.i <= self.count
    }

    /// The fingerprint the values are drawn from.
    pub closed spec fn fingerprint(self) -> BloomFingerprint {
        self.fp
    }

    /// How many values have been handed out so far.
    pub closed spec fn position(self) -> nat {
        self.i as nat
    }

    /// How many values the cursor hands out in all.
    pub closed spec fn count(self) -> nat {
        self.count as nat
    }

    /// A cursor over the digest of a hashable item. The digest is whatever
    /// the item's `Hash` implementation and the configuration's streaming
    /// hasher make of the item.
    pub fn from<T: Hash, H: BloomBuildHasher>(item: T, count: u32, build_hasher: &H) -> (it: Self)
        ensures
            item_digests_to(*build_hasher, item, it.fingerprint()),
            crate::finishes_to::<H::Hasher>(it.fingerprint()),
            it.position() == 0,
            it.count() == count,
    {
        let hasher = feed_item(&item, build_hasher.build_hasher());
        let fp = hasher.finish_128();
        proof {
            assert(call_ensures(<H::Hasher as BloomHasher>::finish_128, (&hasher,), fp));
        }
        Self { fp, i: 0, count }
    }

    /// A cursor over the digest the configuration gives to a byte string.
    pub fn from_slice<H: BloomBuildHasher>(item: &[u8], count: u32, build_hasher: &H) -> (it: Self)
        ensures
            crate::digests_to(*build_hasher, item@, it.fingerprint()),
            it.position() == 0,
            it.count() == count,
    {
        Self { fp: build_hasher.hash_one_128(item), i: 0, count }
    }

    pub fn from_fingerprint(fp: BloomFingerprint, count: u32) -> (it: Self)
        ensures
            it.fingerprint() == fp,
            it.position() == 0,
            it.count() == count,
    {
        Self { fp, i: 0, count }
    }

    /// The fingerprint the values are drawn from.
    pub fn digest(&self) -> (fp: BloomFingerprint)
        ensures
            fp == self.fingerprint(),
    {
        self.fp
    }

    /// Hands out the next raw value, or `None` once `count` values have been
    /// handed out.
    pub fn next(&mut self) -> (r: Option<u64>)
        ensures
            final(self).fingerprint() == old(self).fingerprint(),
            final(self).count() == old(self).count(),
            old(self).position() <= old(self).count(),
            old(self).position() == old(self).count() ==> r.is_none() && final(self).position()
                == old(self).position(),
            old(self).position() < old(self).count() ==> r == Some(
                raw_index(old(self).fingerprint(), old(self).position()),
            ) && final(self).position() == old(self).position() + 1,
    {
        proof {
            use_type_invariant(&*self);
        }
        if self.i == self.count {
            return None;
        }
        let r = if self.i == 0 {
            self.fp.h1
        } else if self.i == 1 {
            self.fp.h2
        } else {
            let p1 = self.fp.h1.wrapping_add(self.i as u64);
            p1.wrapping_mul(self.fp.h2)
        };
        self.i += 1;
        Some(r)
    }
}

} // verus!
