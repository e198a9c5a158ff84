use vstd::prelude::*;

verus! {

/// Hashing for the bloom filter: two independent 64-bit hashes of the
/// data, and a byte form of the hasher's own state.
pub trait Hasher: Sized {
    /// What serializing the hasher can fail with.
    type SerializeError;

    /// What rebuilding the hasher from bytes can fail with.
    type DeserializeError;

    /// The two hashes of `data`.
    spec fn spec_hash(&self, data: Seq<u8>) -> (u64, u64);

    /// The byte form of the hasher.
    spec fn encoding(&self) -> Seq<u8>;

    /// Whether the hasher can be written out in its byte form.
    spec fn serializable(&self) -> bool;

    /// The error writing the hasher out fails with, where it fails.
    spec fn serialize_error(&self) -> Self::SerializeError;

    /// The bytes a hasher can be rebuilt from.
    spec fn decodable(bytes: Seq<u8>) -> bool;

    /// The error rebuilding a hasher from `bytes` fails with, where it
    /// fails.
    spec fn deserialize_error(bytes: Seq<u8>) -> Self::DeserializeError;

    /// Computes independent hashes.
    fn hash_bytes(&self, data: &[u8]) -> (r: (u64, u64))
        ensures
            r == self.spec_hash(data@),
    ;

    /// The byte form of the hasher.
    fn serialize(&self) -> (r: Result<Vec<u8>, Self::SerializeError>)
        ensures
            r is Ok == self.serializable(),
            r matches Ok(bytes) ==> bytes@ == self.encoding(),
            r matches Err(e) ==> e == self.serialize_error(),
            Self::decodable(self.encoding()),
    ;

    /// Rebuilds a hasher from its byte form.
    fn from_serialized(bytes: &[u8]) -> (r: Result<Self, Self::DeserializeError>)
        ensures
            r is Ok == Self::decodable(bytes@),
            r matches Ok(h) ==> h.encoding() == bytes@,
            r matches Err(e) ==> e == Self::deserialize_error(bytes@),
    ;

    /// Hashers with the same byte form hash alike.
    proof fn lemma_encoding_determines_hash(a: &Self, b: &Self)
        requires
            a.encoding() == b.encoding(),
        ensures
            forall|d: Seq<u8>| a.spec_hash(d) == b.spec_hash(d),
    ;
}

/// Minimum size for an XXH3 secret.
pub const XXH_SECRET_SIZE_MIN: usize = 136;

/// The 128-bit XXH3 hash of `input` under `secret`.
pub uninterp spec fn xxh3_128_with_secret_spec(input: Seq<u8>, secret: Seq<u8>) -> u128;

/// Calls `xxhash_rust::xxh3::xxh3_128_with_secret`, which asserts that the
/// secret holds at least `XXH_SECRET_SIZE_MIN` bytes and otherwise depends
/// on the input and the secret alone.
#[verifier::external_body]
fn xxh3_128_with_secret(input: &[u8], secret: &[u8]) -> (r: u128)
    requires
        secret@.len() >= XXH_SECRET_SIZE_MIN,
    ensures
        r == xxh3_128_with_secret_spec(input@, secret@),
{
    xxhash_rust::xxh3::xxh3_128_with_secret(input, secret)
}

/// The high and low halves of a 128-bit hash.
pub open spec fn split_halves(h: u128) -> (u64, u64) {
    ((h >> 64u32) as u64, h as u64)
}

/// Why a secret cannot be used.
#[derive(Debug)]
pub enum XxHasherError {
    /// The secret is shorter than `XXH_SECRET_SIZE_MIN`.
    SecretTooShort { need: usize, have: usize },
}

/// XXH3 implementation using a custom secret buffer.
///
/// Accepts a user generated secret to prevent collision attacks.
#[derive(Debug)]
pub struct XxHasher {
    secret: Vec<u8>,
}

impl XxHasher {
    #[verifier::type_invariant]
    spec fn secret_long_enough(self) -> bool {
        self.secret@.len() >= XXH_SECRET_SIZE_MIN
    }

    /// The secret.
    pub closed spec fn spec_secret(self) -> Seq<u8> {
        self.secret@
    }

    /// Create a new XXH3 hasher with a custom secret, which must hold at
    /// least `XXH_SECRET_SIZE_MIN` bytes.
    pub fn new(secret: Vec<u8>) -> (res: Self)
        requires
            secret@.len() >= XXH_SECRET_SIZE_MIN,
        ensures
            res.spec_secret() == secret@,
    {
        XxHasher { secret }
    }
}

impl Clone for XxHasher {
    fn clone(&self) -> (res: Self)
        ensures
            res.spec_secret() == self.spec_secret(),
    {
        proof {
            use_type_invariant(self);
        }
        XxHasher { secret: crate::trie::prefix::copy_bytes(self.secret.as_slice()) }
    }
}

impl Hasher for XxHasher {
    type SerializeError = XxHasherError;

    type DeserializeError = XxHasherError;

    open spec fn spec_hash(&self, data: Seq<u8>) -> (u64, u64) {
        split_halves(xxh3_128_with_secret_spec(data, self.spec_secret()))
    }

    open spec fn encoding(&self) -> Seq<u8> {
        self.spec_secret()
    }

    open spec fn serializable(&self) -> bool {
        true
    }

    /// Never met: the secret is always written out.
    open spec fn serialize_error(&self) -> XxHasherError {
        XxHasherError::SecretTooShort { need: XXH_SECRET_SIZE_MIN, have: 0 }
    }

    open spec fn deserialize_error(bytes: Seq<u8>) -> XxHasherError {
        XxHasherError::SecretTooShort { need: XXH_SECRET_SIZE_MIN, have: bytes.len() as usize }
    }

    open spec fn decodable(bytes: Seq<u8>) -> bool {
        bytes.len() >= XXH_SECRET_SIZE_MIN
    }

    fn hash_bytes(&self, data: &[u8]) -> (r: (u64, u64)) {
        proof {
            use_type_invariant(self);
        }
        let res = xxh3_128_with_secret(data, self.secret.as_slice());
        ((res >> 64u32) as u64, res as u64)
    }

    fn serialize(&self) -> (r: Result<Vec<u8>, XxHasherError>) {
        proof {
            use_type_invariant(self);
        }
        Ok(crate::trie::prefix::copy_bytes(self.secret.as_slice()))
    }

    fn from_serialized(bytes: &[u8]) -> (r: Result<Self, XxHasherError>) {
        if bytes.len() < XXH_SECRET_SIZE_MIN {
            Err(XxHasherError::SecretTooShort { need: XXH_SECRET_SIZE_MIN, have: bytes.len() })
        } else {
            Ok(XxHasher { secret: crate::trie::prefix::copy_bytes(bytes) })
        }
    }

    proof fn lemma_encoding_determines_hash(a: &Self, b: &Self) {
    }
}

} // verus!
