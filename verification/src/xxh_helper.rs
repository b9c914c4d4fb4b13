//! Hash configurations built on XXH3 with a 192-byte secret.

use vstd::prelude::*;
use xxhash_rust::xxh3::Xxh3;

use crate::{BloomBuildHasher, BloomFingerprint, BloomHasher};

verus! {

/// The length of an XXH3 secret, in bytes.
pub const DEFAULT_SECRET_SIZE: usize = 192;

/// `xxhash_rust::xxh3::Xxh3`, the streaming XXH3 hasher, carried as it is.
#[verifier::external_type_specification]
#[verifier::external_body]
pub struct ExXxh3(Xxh3);

/// `getrandom::Error`, the failure of the system's random source, carried as
/// it is.
#[verifier::external_type_specification]
#[verifier::external_body]
pub struct ExEntropyError(getrandom::Error);

/// The 128-bit XXH3 hash of a byte string under a secret.
pub uninterp spec fn xxh3_128_of(input: Seq<u8>, secret: Seq<u8>) -> u128;

/// `xxh3_128_with_secret`: the 128-bit XXH3 hash of `input` under `secret`, a
/// function of the two byte strings alone. The crate panics on a secret of
/// fewer than 136 bytes.
pub assume_specification[ xxhash_rust::xxh3::xxh3_128_with_secret ](
    input: &[u8],
    secret: &[u8],
) -> (h: u128)
    requires
        secret@.len() >= 136,
    ensures
        h == xxh3_128_of(input@, secret@),
;

/// The bytes written to a streaming hasher since it was made, in the order
/// they were written.
pub uninterp spec fn xxh3_written(hasher: Xxh3) -> Seq<u8>;

/// The secret that a streaming hasher was made with, where it was made with
/// no seed, or with the seed zero; `None` for a hasher made with another
/// seed.
pub uninterp spec fn xxh3_secret_of(hasher: Xxh3) -> Option<Seq<u8>>;

/// `Xxh3::with_secret`: a streaming hasher made with the given secret and no
/// seed, to which nothing has been written yet.
#[verifier::external_body]
fn xxh3_with_secret(secret: [u8; DEFAULT_SECRET_SIZE]) -> (hasher: Xxh3)
    ensures
        xxh3_written(hasher) == Seq::<u8>::empty(),
        xxh3_secret_of(hasher) == Some(secret@),
{
    Xxh3::with_secret(secret)
}

/// `Xxh3::digest128`: for a hasher made with a secret and no seed, the
/// 128-bit XXH3 hash, under that secret, of all that was written to it: what
/// `xxh3_128_with_secret` gives for the same bytes in one piece. Nothing is
/// claimed of a hasher made with a seed.
pub assume_specification[ Xxh3::digest128 ](hasher: &Xxh3) -> (h: u128)
    ensures
        xxh3_secret_of(*hasher) matches Some(secret) ==> h == xxh3_128_of(
            xxh3_written(*hasher),
            secret,
        ),
;

/// `getrandom::getrandom`: fills the buffer with bytes from the operating
/// system's random source, or says why it could not. Nothing is claimed of the
/// bytes.
#[verifier::external_body]
fn fill_random(buf: &mut [u8; DEFAULT_SECRET_SIZE]) -> Result<(), getrandom::Error> {
    getrandom::getrandom(buf)
}

/// `getrandom::Error::code`: the code of the failure, which is never zero.
#[verifier::external_body]
fn failure_code(e: getrandom::Error) -> (code: u32)
    ensures
        code != 0,
{
    e.code().get()
}

/// `u64::from_ne_bytes`: the integer that the eight bytes are in the byte
/// order of the machine. Nothing is claimed of it.
#[verifier::external_body]
fn u64_from_ne_bytes(bytes: [u8; 8]) -> u64 {
    u64::from_ne_bytes(bytes)
}

/// `u64::to_ne_bytes`: the eight bytes of the integer in the byte order of
/// the machine. Nothing is claimed of them.
#[verifier::external_body]
fn u64_to_ne_bytes(x: u64) -> [u8; 8] {
    x.to_ne_bytes()
}

/// The operating system could not supply random bytes.
#[derive(Copy, Clone, Debug)]
pub struct SeedError {
    /// The code under which the failure was reported; never zero.
    pub code: u32,
}

/// A fresh seed for default hash configurations: 192 bytes from the operating
/// system's random source. Whether the source delivers is for the system to
/// say; when it does not, the failure comes back with its code.
pub fn random_secret() -> (r: Result<[u8; DEFAULT_SECRET_SIZE], SeedError>)
    ensures
        r matches Err(e) ==> e.code != 0,
{
    let mut buf = [0u8; DEFAULT_SECRET_SIZE];
    match fill_random(&mut buf) {
        Ok(()) => Ok(buf),
        Err(e) => Err(SeedError { code: failure_code(e) }),
    }
}

impl BloomHasher for Xxh3 {
    /// For a hasher made with a secret and no seed, the fingerprint of the
    /// 128-bit XXH3 hash, under that secret, of all that was written to it.
    fn finish_128(&self) -> (fp: BloomFingerprint)
        ensures
            xxh3_secret_of(*self) matches Some(secret) ==> fp == BloomFingerprint::from_u128(
                xxh3_128_of(xxh3_written(*self), secret),
            ),
    {
        BloomFingerprint::new_128(self.digest128())
    }
}

/// An XXH3 configuration over a secret chosen by the caller.
#[derive(Copy, Clone)]
pub struct SecretBasedXxh3Builder {
    secret: [u8; DEFAULT_SECRET_SIZE],
}

impl SecretBasedXxh3Builder {
    /// The secret the configuration hashes under.
    pub closed spec fn spec_secret(&self) -> Seq<u8> {
        self.secret@
    }

    pub fn with_secret(secret: [u8; DEFAULT_SECRET_SIZE]) -> (b: Self)
        ensures
            b.spec_secret() == secret@,
    {
        Self { secret }
    }

    /// A streaming hasher over the secret, to which nothing has been written
    /// yet.
    pub fn build(&self) -> (hasher: Xxh3)
        ensures
            xxh3_written(hasher) == Seq::<u8>::empty(),
            xxh3_secret_of(hasher) == Some(self.spec_secret()),
    {
        xxh3_with_secret(self.secret)
    }
}

impl BloomBuildHasher for SecretBasedXxh3Builder {
    type Hasher = Xxh3;

    /// A streaming hasher over the secret, to which nothing has been written
    /// yet.
    fn build_hasher(&self) -> (hasher: Xxh3)
        ensures
            xxh3_written(hasher) == Seq::<u8>::empty(),
            xxh3_secret_of(hasher) == Some(self.spec_secret()),
    {
        self.build()
    }

    fn hash_one_128(&self, k: &[u8]) -> (fp: BloomFingerprint)
        ensures
            fp == BloomFingerprint::from_u128(xxh3_128_of(k@, self.spec_secret())),
    {
        let h = xxhash_rust::xxh3::xxh3_128_with_secret(k, self.secret.as_slice());
        BloomFingerprint::new_128(h)
    }
}

/// Whether `after` is the counter `before` advanced by one step: the eight
/// bytes that the machine's byte order gives to one more, wrapping at 64
/// bits, than the integer that the eight bytes `before` are in that order.
pub closed spec fn counter_advanced(before: Seq<u8>, after: Seq<u8>) -> bool {
    exists|head: [u8; 8], was: u64, bytes: [u8; 8]|
        {
            &&& head@ == before
            &&& #[trigger] call_ensures(u64_from_ne_bytes, (head,), was)
            &&& #[trigger] call_ensures(
                u64_to_ne_bytes,
                (vstd::wrapping::u64_specs::wrapping_add(was, 1),),
                bytes,
            )
            &&& bytes@ == after
        }
}

/// Writes the eight bytes of a counter over the first eight bytes of a seed.
fn store_counter(seed: &mut [u8; DEFAULT_SECRET_SIZE], bytes: [u8; 8])
    ensures
        final(seed)@ == bytes@ + old(seed)@.subrange(8, 192),
{
    let mut i: usize = 0;
    while i < 8
        invariant
            i <= 8,
            seed@.subrange(0, i as int) == bytes@.subrange(0, i as int),
            seed@.subrange(8, 192) == old(seed)@.subrange(8, 192),
        decreases 8 - i,
    {
        seed[i] = bytes[i];
        i += 1;
        assert(seed@.subrange(0, i as int) =~= bytes@.subrange(0, i as int));
        assert(seed@.subrange(8, 192) =~= old(seed)@.subrange(8, 192));
    }
    proof {
        let whole = bytes@ + old(seed)@.subrange(8, 192);
        assert forall|j: int| 0 <= j < 192 implies seed@[j] == whole[j] by {
            if j < 8 {
                assert(seed@.subrange(0, 8)[j] == bytes@.subrange(0, 8)[j]);
            } else {
                assert(seed@.subrange(8, 192)[j - 8] == old(seed)@.subrange(8, 192)[j - 8]);
            }
        }
        assert(seed@ =~= whole);
    }
}

/// An XXH3 configuration over a secret drawn from a seed that is advanced
/// each time a configuration is taken from it, so that no two configurations
/// taken from one seed share a secret.
#[derive(Copy, Clone)]
pub struct RandomXxh3State {
    secret: [u8; DEFAULT_SECRET_SIZE],
}

impl RandomXxh3State {
    /// The secret the configuration hashes under.
    pub closed spec fn spec_secret(&self) -> Seq<u8> {
        self.secret@
    }

    /// The next configuration from a seed. The seed's first eight bytes are
    /// a counter in the byte order of the machine; the counter goes up by
    /// one, wrapping, and the configuration's secret is the seed as it then
    /// stands. The other bytes of the seed stay as they are.
    pub fn advance(seed: &mut [u8; DEFAULT_SECRET_SIZE]) -> (state: Self)
        ensures
            state.spec_secret() == final(seed)@,
            counter_advanced(old(seed)@.subrange(0, 8), final(seed)@.subrange(0, 8)),
            final(seed)@.subrange(8, 192) == old(seed)@.subrange(8, 192),
    {
        let head: [u8; 8] = [
            seed[0],
            seed[1],
            seed[2],
            seed[3],
            seed[4],
            seed[5],
            seed[6],
            seed[7],
        ];
        let was = u64_from_ne_bytes(head);
        let bytes = u64_to_ne_bytes(was.wrapping_add(1));
        store_counter(seed, bytes);
        proof {
            assert(head@ =~= old(seed)@.subrange(0, 8));
            assert(seed@.subrange(0, 8) =~= bytes@);
            assert(seed@.subrange(8, 192) =~= old(seed)@.subrange(8, 192));
            assert(call_ensures(u64_from_ne_bytes, (head,), was));
            assert(call_ensures(
                u64_to_ne_bytes,
                (vstd::wrapping::u64_specs::wrapping_add(was, 1),),
                bytes,
            ));
        }
        Self { secret: *seed }
    }

    /// A streaming hasher over the secret, to which nothing has been written
    /// yet.
    pub fn build(self) -> (hasher: Xxh3)
        ensures
            xxh3_written(hasher) == Seq::<u8>::empty(),
            xxh3_secret_of(hasher) == Some(self.spec_secret()),
    {
        xxh3_with_secret(self.secret)
    }

    pub fn secret(&self) -> (s: &[u8])
        ensures
            s@ == self.spec_secret(),
    {
        self.secret.as_slice()
    }
}

impl BloomBuildHasher for RandomXxh3State {
    type Hasher = Xxh3;

    /// A streaming hasher over the secret, to which nothing has been written
    /// yet.
    fn build_hasher(&self) -> (hasher: Xxh3)
        ensures
            xxh3_written(hasher) == Seq::<u8>::empty(),
            xxh3_secret_of(hasher) == Some(self.spec_secret()),
    {
        xxh3_with_secret(self.secret)
    }

    fn hash_one_128(&self, k: &[u8]) -> (fp: BloomFingerprint)
        ensures
            fp == BloomFingerprint::from_u128(xxh3_128_of(k@, self.spec_secret())),
    {
        let h = xxhash_rust::xxh3::xxh3_128_with_secret(k, self.secret.as_slice());
        BloomFingerprint::new_128(h)
    }
}

/// A configuration over a chosen secret gives a byte string the fingerprint
/// of its 128-bit XXH3 hash under that secret, and no other.
pub proof fn lemma_secret_based_digest(
    h: SecretBasedXxh3Builder,
    bytes: Seq<u8>,
    fp: BloomFingerprint,
)
    requires
        crate::digests_to(h, bytes, fp),
    ensures
        fp == BloomFingerprint::from_u128(xxh3_128_of(bytes, h.spec_secret())),
{
}

/// A configuration over a chosen secret gives every byte string one digest
/// only.
pub proof fn lemma_secret_based_deterministic(h: SecretBasedXxh3Builder)
    ensures
        crate::deterministic(h),
{
    assert forall|b: Seq<u8>, x: BloomFingerprint, y: BloomFingerprint|
        #![trigger crate::digests_to(h, b, x), crate::digests_to(h, b, y)]
        crate::digests_to(h, b, x) && crate::digests_to(h, b, y) implies x == y by {
        lemma_secret_based_digest(h, b, x);
        lemma_secret_based_digest(h, b, y);
    }
}

/// A configuration drawn from a seed gives a byte string the fingerprint of
/// its 128-bit XXH3 hash under the configuration's secret, and no other.
pub proof fn lemma_random_state_digest(h: RandomXxh3State, bytes: Seq<u8>, fp: BloomFingerprint)
    requires
        crate::digests_to(h, bytes, fp),
    ensures
        fp == BloomFingerprint::from_u128(xxh3_128_of(bytes, h.spec_secret())),
{
}

/// A configuration drawn from a seed gives every byte string one digest
/// only.
pub proof fn lemma_random_state_deterministic(h: RandomXxh3State)
    ensures
        crate::deterministic(h),
{
    assert forall|b: Seq<u8>, x: BloomFingerprint, y: BloomFingerprint|
        #![trigger crate::digests_to(h, b, x), crate::digests_to(h, b, y)]
        crate::digests_to(h, b, x) && crate::digests_to(h, b, y) implies x == y by {
        lemma_random_state_digest(h, b, x);
        lemma_random_state_digest(h, b, y);
    }
}

} // verus!
