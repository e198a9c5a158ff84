//! A bloom filter after the ideas of Adam Kirsch and Michael Mitzenmacher:
//! the bit positions of an item are `h1 + i * h2` for two hashes and
//! `i` below the number of hash functions, mapped onto the bit field.
//!
//! # Serialization
//! The serialization format is as below
//! [16 bytes] magic
//! [1 byte]  version
//! [4 bytes] hash_num: u32 LE
//! [4 bytes] hasher_len: u32 LE
//! [N bytes] hasher_data
//! [8 bytes] bits_num: u64 LE
//! [M bytes] bits_data
use crate::hash::Hasher;
use crate::index::{ix, nx};
use crate::trie::bitmap::{lemma_div_mod_64, lemma_mask_test, lemma_word_set_bit, word_bit};
use vstd::bytes::{
    spec_u32_from_le_bytes, spec_u32_to_le_bytes, spec_u64_from_le_bytes, spec_u64_to_le_bytes,
    u32_from_le_bytes, u32_to_le_bytes, u64_from_le_bytes, u64_to_le_bytes,
};
use vstd::prelude::*;
use vstd::wrapping::u64_specs::{wrapping_add, wrapping_mul};

verus! {

/// The first bytes of a serialized filter: "BloomFile" and seven zeros.
pub const MAGIC: [u8; 16] = [66, 108, 111, 111, 109, 70, 105, 108, 101, 0, 0, 0, 0, 0, 0, 0];

/// The format version written after the magic.
pub const VERSION: u8 = 1;

/// Size in bytes of one word of the bit field.
pub const WORD_BYTES: usize = 8;

pub struct Bloom<T: Hasher> {
    bits: Vec<u64>,
    // cached to avoid recomputation
    bits_num: u64,
    hash_num: u32,
    hasher: T,
}

#[derive(Debug)]
pub enum DeserializeError<T: Hasher> {
    InvalidMagic,
    InvalidVersion,
    HasherError(T::DeserializeError),
    BufferTooShort { need: usize, have: usize },
}

/// Why a byte string is not a serialized filter, the hasher's part aside.
pub enum FormatError {
    InvalidMagic,
    InvalidVersion,
    BufferTooShort { need: int, have: int },
}

/// An odd stride is coprime with 2^64, so the positions of an item do not
/// keep to a part of the bit space.
pub open spec fn stride(h2: u64) -> u64 {
    h2 | 1u64
}

/// The bit that hash function `i` picks in a field of `bits_num` bits:
/// `h1 + i * h2`, wrapping, scaled onto the field.
pub open spec fn bit_index(h1: u64, h2: u64, i: u32, bits_num: u64) -> int {
    (wrapping_add(h1, wrapping_mul(i as u64, h2)) as int * bits_num as int) / 0x1_0000_0000_0000_0000
}

/// Whether bit `p` of the field is set.
pub open spec fn bit_is_set(words: Seq<u64>, p: int) -> bool {
    word_bit(words[p / 64], p % 64)
}

/// Every bit picked for the hashes `h1`, `h2` is set.
pub open spec fn hashes_present(
    words: Seq<u64>,
    bits_num: u64,
    hash_num: u32,
    h1: u64,
    h2: u64,
) -> bool {
    forall|i: u32| i < hash_num ==> #[trigger] bit_is_set(words, bit_index(h1, h2, i, bits_num))
}

/// `p` is one of the bits picked for the hashes `h1`, `h2`.
pub open spec fn picked(p: int, bits_num: u64, hash_num: u32, h1: u64, h2: u64) -> bool {
    exists|i: u32| i < hash_num && p == #[trigger] bit_index(h1, h2, i, bits_num)
}

/// Number of words for a field of `bits_num` bits.
pub open spec fn words_for(bits_num: u64) -> int {
    (bits_num + 63) / 64
}

/// The little-endian bytes of the words, in order.
pub open spec fn le_words(words: Seq<u64>) -> Seq<u8>
    decreases words.len(),
{
    if words.len() == 0 {
        Seq::empty()
    } else {
        le_words(words.drop_last()) + spec_u64_to_le_bytes(words.last())
    }
}

/// The words read from little-endian bytes, eight at a time.
pub open spec fn words_from_le(bytes: Seq<u8>) -> Seq<u64>
    decreases bytes.len(),
{
    if bytes.len() < 8 {
        Seq::empty()
    } else {
        words_from_le(bytes.take(bytes.len() - 8)).push(
            spec_u64_from_le_bytes(bytes.skip(bytes.len() - 8)),
        )
    }
}

/// The serialized form of a filter.
pub open spec fn encode(hash_num: u32, hasher: Seq<u8>, bits_num: u64, words: Seq<u64>) -> Seq<
    u8,
> {
    MAGIC@ + seq![VERSION] + spec_u32_to_le_bytes(hash_num) + spec_u32_to_le_bytes(
        hasher.len() as u32,
    ) + hasher + spec_u64_to_le_bytes(bits_num) + le_words(words)
}

/// Offset of the hasher's bytes.
pub open spec fn hasher_start() -> int {
    25
}

/// Reads the part before the hasher's bytes: the number of hash
/// functions and where the hasher's bytes end.
pub open spec fn read_header(b: Seq<u8>) -> Result<(u32, int), FormatError> {
    if b.len() < 16 {
        Err(FormatError::BufferTooShort { need: 16, have: b.len() as int })
    } else if b.take(16) != MAGIC@ {
        Err(FormatError::InvalidMagic)
    } else if b.len() < 17 {
        Err(FormatError::BufferTooShort { need: 17, have: b.len() as int })
    } else if b[16] != VERSION {
        Err(FormatError::InvalidVersion)
    } else if b.len() < 21 {
        Err(FormatError::BufferTooShort { need: 21, have: b.len() as int })
    } else if b.len() < 25 {
        Err(FormatError::BufferTooShort { need: 25, have: b.len() as int })
    } else {
        let end = 25 + spec_u32_from_le_bytes(b.subrange(21, 25));
        if b.len() < end {
            Err(FormatError::BufferTooShort { need: end, have: b.len() as int })
        } else {
            Ok((spec_u32_from_le_bytes(b.subrange(17, 21)), end))
        }
    }
}

/// Reads the part after the hasher's bytes, from `pos`: the number of bits
/// and the words.
pub open spec fn read_body(b: Seq<u8>, pos: int) -> Result<(u64, Seq<u64>), FormatError> {
    if b.len() < pos + 8 {
        Err(FormatError::BufferTooShort { need: pos + 8, have: b.len() as int })
    } else {
        let bits_num = spec_u64_from_le_bytes(b.subrange(pos, pos + 8));
        let start = pos + 8;
        let rem = b.len() - start;
        if rem % 8 != 0 {
            // nearest valid length; the full buffer may have been longer
            Err(FormatError::BufferTooShort { need: start + 8 - rem % 8, have: b.len() as int })
        } else if bits_num == 0 {
            // a field holds at least one word
            Err(FormatError::BufferTooShort { need: start + 8, have: b.len() as int })
        } else if rem / 8 != words_for(bits_num) {
            Err(
                FormatError::BufferTooShort {
                    need: start + 8 * words_for(bits_num),
                    have: b.len() as int,
                },
            )
        } else {
            Ok((bits_num, words_from_le(b.subrange(start, b.len() as int))))
        }
    }
}

/// A length, or `usize::MAX` when it does not fit.
pub open spec fn saturate(n: int) -> usize {
    if n <= usize::MAX {
        n as usize
    } else {
        usize::MAX
    }
}

/// `bl` is the filter the bytes `b` describe: the header and the body
/// read well, and `bl` has the number of hash functions, the hasher's byte
/// form, the number of bits and the words they give.
pub open spec fn decodes_to<T: Hasher>(b: Seq<u8>, bl: Bloom<T>) -> bool {
    &&& read_header(b) matches Ok((hn, end))
    &&& read_body(b, end) matches Ok((bn, ws))
    &&& bl.wf()
    &&& bl.words() == ws
    &&& bl.spec_bits_num() == bn
    &&& bl.spec_hash_num() == hn
    &&& bl.spec_hasher().encoding() == b.subrange(hasher_start(), end)
}

/// The error returned stands for the format error.
pub open spec fn reports<T: Hasher>(e: DeserializeError<T>, f: FormatError) -> bool {
    match f {
        FormatError::InvalidMagic => e is InvalidMagic,
        FormatError::InvalidVersion => e is InvalidVersion,
        FormatError::BufferTooShort { need, have } => e matches DeserializeError::BufferTooShort {
            need: n,
            have: h,
        } && n == saturate(need) && h == have,
    }
}

/// Appends `bytes` to `buf`.
fn append_bytes(buf: &mut Vec<u8>, bytes: &[u8])
    ensures
        final(buf)@ == old(buf)@ + bytes@,
{
    let mut i: usize = 0;
    while i < bytes.len()
        invariant
            i <= bytes@.len(),
            buf@ == old(buf)@ + bytes@.take(ix(i)),
        decreases bytes@.len() - i,
    {
        buf.push(bytes[i]);
        i = i + 1;
        proof {
            assert(buf@ =~= old(buf)@ + bytes@.take(ix(i)));
        }
    }
    proof {
        assert(bytes@.take(nx(bytes@.len())) =~= bytes@);
    }
}

/// Reads `n_words` little-endian words from `buf`, from `start` on.
fn read_words(buf: &[u8], start: usize, n_words: usize) -> (words: Vec<u64>)
    requires
        start + 8 * n_words == buf@.len(),
    ensures
        words@ == words_from_le(buf@.subrange(ix(start), nx(buf@.len()))),
        words@.len() == n_words,
{
    let ghost b = buf@;
    let total = buf.len();
    let mut words: Vec<u64> = Vec::with_capacity(n_words);
    let mut k: usize = 0;
    proof {
        assert(b.subrange(ix(start), ix(start)) =~= Seq::<u8>::empty());
    }
    while k < n_words
        invariant
            k <= n_words,
            start + 8 * n_words == b.len(),
            b.len() == total,
            b == buf@,
            words@.len() == k,
            words@ == words_from_le(b.subrange(ix(start), start + 8 * k)),
        decreases n_words - k,
    {
        assert(8 * k + 8 <= 8 * n_words) by (nonlinear_arith)
            requires
                k < n_words,
        ;
        let p = start + 8 * k;
        let word = u64_from_le_bytes(&buf[p..p + 8]);
        proof {
            let chunk = b.subrange(ix(start), p + 8);
            assert(chunk.take(chunk.len() - 8) =~= b.subrange(ix(start), ix(p)));
            assert(chunk.skip(chunk.len() - 8) =~= b.subrange(ix(p), p + 8));
        }
        words.push(word);
        k = k + 1;
    }
    words
}

/// Whether two byte strings are equal.
fn bytes_eq(a: &[u8], b: &[u8]) -> (r: bool)
    ensures
        r == (a@ == b@),
{
    if a.len() != b.len() {
        return false;
    }
    let mut i: usize = 0;
    while i < a.len()
        invariant
            a@.len() == b@.len(),
            i <= a@.len(),
            forall|k: int| 0 <= k < i ==> a@[k] == b@[k],
        decreases a@.len() - i,
    {
        if a[i] != b[i] {
            return false;
        }
        i = i + 1;
    }
    proof {
        assert(a@ =~= b@);
    }
    true
}

/// A `u64` as a length, `usize::MAX` when it does not fit.
fn saturate_u64(n: u64) -> (r: usize)
    ensures
        r == saturate(n as int),
{
    if n as u128 <= usize::MAX as u128 {
        n as usize
    } else {
        usize::MAX
    }
}

/// A `u128` as a length, `usize::MAX` when it does not fit.
fn saturate_u128(n: u128) -> (r: usize)
    ensures
        r == saturate(n as int),
{
    if n <= usize::MAX as u128 {
        n as usize
    } else {
        usize::MAX
    }
}

/// `u32` little-endian round trip.
proof fn lemma_u32_le(x: u32)
    ensures
        spec_u32_to_le_bytes(x).len() == 4,
        spec_u32_from_le_bytes(spec_u32_to_le_bytes(x)) == x,
{
    vstd::bytes::lemma_auto_spec_u32_to_from_le_bytes();
    assert(spec_u32_to_le_bytes(x).len() == 4);
}

/// `u64` little-endian round trip.
proof fn lemma_u64_le(x: u64)
    ensures
        spec_u64_to_le_bytes(x).len() == 8,
        spec_u64_from_le_bytes(spec_u64_to_le_bytes(x)) == x,
{
    vstd::bytes::lemma_auto_spec_u64_to_from_le_bytes();
    assert(spec_u64_to_le_bytes(x).len() == 8);
}

/// The words come back from their little-endian bytes.
pub proof fn lemma_words_round_trip(words: Seq<u64>)
    ensures
        le_words(words).len() == 8 * words.len(),
        words_from_le(le_words(words)) == words,
    decreases words.len(),
{
    if words.len() > 0 {
        lemma_words_round_trip(words.drop_last());
        lemma_u64_le(words.last());
        let b = le_words(words);
        let pre = le_words(words.drop_last());
        assert(b.take(b.len() - 8) =~= pre);
        assert(b.skip(b.len() - 8) =~= spec_u64_to_le_bytes(words.last()));
        assert(words_from_le(b) =~= words);
    }
}

impl<T: Hasher> Bloom<T> {
    /// The words of the bit field.
    pub closed spec fn words(self) -> Seq<u64> {
        self.bits@
    }

    pub closed spec fn spec_bits_num(self) -> u64 {
        self.bits_num
    }

    pub closed spec fn spec_hash_num(self) -> u32 {
        self.hash_num
    }

    pub closed spec fn spec_hasher(self) -> T {
        self.hasher
    }

    /// The field has at least one bit and exactly the words its bits need.
    pub closed spec fn wf(self) -> bool {
        &&& self.bits_num > 0
        &&& self.bits@.len() == words_for(self.bits_num)
        &&& words_for(self.bits_num) <= usize::MAX
    }

    /// What a sound filter holds: at least one bit, and exactly the words
    /// its bits need.
    pub proof fn lemma_wf_facts(self)
        requires
            self.wf(),
        ensures
            self.spec_bits_num() > 0,
            self.words().len() == words_for(self.spec_bits_num()),
            words_for(self.spec_bits_num()) <= usize::MAX,
    {
    }

    /// Whether the filter reports `data` as present.
    pub open spec fn spec_contains(self, data: Seq<u8>) -> bool {
        let h = self.spec_hasher().spec_hash(data);
        hashes_present(self.words(), self.spec_bits_num(), self.spec_hash_num(), h.0, stride(h.1))
    }

    /// Rounds an integer up to the next multiple of the word width.
    pub fn roundi_to_bits_type_size(num: u64) -> (r: u64)
        requires
            num <= u64::MAX - 63,
        ensures
            r % 64 == 0,
            num <= r < num + 64,
    {
        let s = num + 63;
        let r = s & !63u64;
        assert(r % 64 == 0 && r <= s && s - r < 64) by (bit_vector)
            requires
                r == s & !63u64,
        ;
        r
    }

    /// Creates a filter of `bits_num` bits, all clear, that uses `hash_num`
    /// hash functions.
    pub fn with_bits(bits_num: u64, hash_num: u32, hasher: T) -> (res: Self)
        requires
            bits_num > 0,
            bits_num % 64 == 0,
            bits_num / 64 <= usize::MAX,
        ensures
            res.wf(),
            res.spec_bits_num() == bits_num,
            res.spec_hash_num() == hash_num,
            res.spec_hasher() == hasher,
            res.words() == Seq::new((bits_num / 64) as nat, |i: int| 0u64),
            hash_num > 0 ==> forall|d: Seq<u8>| !#[trigger] res.spec_contains(d),
    {
        proof {
            assert(bits_num >> 6u32 == bits_num / 64) by (bit_vector);
        }
        let length = (bits_num >> 6u32) as usize;
        let bits = vec![0u64; length];
        let res = Bloom { bits, bits_num, hash_num, hasher };
        proof {
            assert(res.bits@ =~= Seq::new((bits_num / 64) as nat, |i: int| 0u64));
            if hash_num > 0 {
                assert forall|d: Seq<u8>| !#[trigger] res.spec_contains(d) by {
                    let h = hasher.spec_hash(d);
                    let p = bit_index(h.0, stride(h.1), 0, bits_num);
                    lemma_bit_index_bound(h.0, stride(h.1), 0, bits_num);
                    assert(res.bits@[p / 64] == 0u64);
                    let k = (p % 64) as u64;
                    assert((0u64 >> k) & 1u64 == 0u64) by (bit_vector);
                    assert(!bit_is_set(res.words(), p));
                }
            }
        }
        res
    }

    /// Computes a 128-bit hash for the given data, the second half odd.
    fn hash_bytes(&self, data: &[u8]) -> (r: (u64, u64))
        ensures
            r.0 == self.spec_hasher().spec_hash(data@).0,
            r.1 == stride(self.spec_hasher().spec_hash(data@).1),
    {
        let (h1, h2) = self.hasher.hash_bytes(data);
        (h1, h2 | 1u64)
    }

    /// The bit picked by hash function `i`.
    fn bit_index(&self, h1: u64, h2: u64, i: u32) -> (r: u64)
        requires
            self.wf(),
        ensures
            r == bit_index(h1, h2, i, self.bits_num),
            r < self.bits_num,
    {
        let h_combined = h1.wrapping_add((i as u64).wrapping_mul(h2));
        proof {
            lemma_bit_index_bound(h1, h2, i, self.bits_num);
            lemma_scale(h_combined, self.bits_num);
        }
        ((h_combined as u128 * self.bits_num as u128) >> 64u32) as u64
    }

    /// Returns whether the data PROBABLY exists in the set or if it
    /// definitely does not exist.
    pub fn contains(&self, data: &[u8]) -> (r: bool)
        requires
            self.wf(),
        ensures
            r == self.spec_contains(data@),
    {
        let (h1, h2) = self.hash_bytes(data);
        let mut i: u32 = 0;
        while i < self.hash_num
            invariant
                self.wf(),
                i <= self.hash_num,
                h1 == self.spec_hasher().spec_hash(data@).0,
                h2 == stride(self.spec_hasher().spec_hash(data@).1),
                forall|j: u32| j < i ==> #[trigger] bit_is_set(
                    self.words(),
                    bit_index(h1, h2, j, self.bits_num),
                ),
            decreases self.hash_num - i,
        {
            let bit_idx = self.bit_index(h1, h2, i);
            let (elem_idx, bit) = Self::split_index(bit_idx, self.bits_num);
            let word = self.bits[elem_idx];
            proof {
                lemma_mask_test(word, bit);
            }
            if word & (1u64 << bit) == 0 {
                proof {
                    assert(!bit_is_set(self.words(), bit_index(h1, h2, i, self.bits_num)));
                }
                return false;
            }
            i = i + 1;
        }
        true
    }

    /// The word and the bit inside it of bit `bit_idx`.
    fn split_index(bit_idx: u64, bits_num: u64) -> (r: (usize, u64))
        requires
            bit_idx < bits_num,
            words_for(bits_num) <= usize::MAX,
        ensures
            r.0 == bit_idx / 64,
            r.0 < words_for(bits_num),
            r.1 == bit_idx % 64,
            r.1 < 64,
    {
        let elem_idx = bit_idx >> 6u32;
        let bit = bit_idx & 63u64;
        proof {
            assert(elem_idx == bit_idx / 64 && bit == bit_idx % 64) by (bit_vector)
                requires
                    elem_idx == bit_idx >> 6u32,
                    bit == bit_idx & 63u64,
            ;
        }
        (elem_idx as usize, bit)
    }

    /// Adds the data to the set. An element can not be removed after
    /// being added.
    pub fn insert(&mut self, data: &[u8])
        requires
            old(self).wf(),
        ensures
            final(self).wf(),
            final(self).spec_bits_num() == old(self).spec_bits_num(),
            final(self).spec_hash_num() == old(self).spec_hash_num(),
            final(self).spec_hasher() == old(self).spec_hasher(),
            final(self).words().len() == old(self).words().len(),
            forall|p: int|
                0 <= p < 64 * old(self).words().len() ==> #[trigger] bit_is_set(final(self).words(), p)
                    == (bit_is_set(old(self).words(), p) || picked(
                    p,
                    old(self).spec_bits_num(),
                    old(self).spec_hash_num(),
                    old(self).spec_hasher().spec_hash(data@).0,
                    stride(old(self).spec_hasher().spec_hash(data@).1),
                )),
            final(self).spec_contains(data@),
            forall|d: Seq<u8>| old(self).spec_contains(d) ==> #[trigger] final(self).spec_contains(d),
    {
        let ghost w0 = self.bits@;
        let (h1, h2) = self.hash_bytes(data);
        let mut i: u32 = 0;
        while i < self.hash_num
            invariant
                self.wf(),
                i <= self.hash_num,
                self.bits_num == old(self).bits_num,
                self.hash_num == old(self).hash_num,
                self.hasher == old(self).hasher,
                self.bits@.len() == w0.len(),
                w0 == old(self).bits@,
                h1 == self.spec_hasher().spec_hash(data@).0,
                h2 == stride(self.spec_hasher().spec_hash(data@).1),
                forall|p: int|
                    0 <= p < 64 * w0.len() ==> #[trigger] bit_is_set(self.bits@, p) == (
                    bit_is_set(w0, p) || exists|j: u32|
                        j < i && p == #[trigger] bit_index(h1, h2, j, self.bits_num)),
            decreases self.hash_num - i,
        {
            let bit_idx = self.bit_index(h1, h2, i);
            let (elem_idx, bit) = Self::split_index(bit_idx, self.bits_num);
            let ghost before = self.bits@;
            let word = self.bits[elem_idx] | (1u64 << bit);
            self.bits.set(elem_idx, word);
            proof {
                assert forall|p: int| 0 <= p < 64 * w0.len() implies #[trigger] bit_is_set(
                    self.bits@,
                    p,
                ) == (bit_is_set(before, p) || p == bit_idx) by {
                    lemma_div_mod_64(p / 64, p % 64);
                    if p / 64 == elem_idx {
                        lemma_word_set_bit(before[ix(elem_idx)], bit, (p % 64) as u64);
                    }
                }
                assert forall|p: int| 0 <= p < 64 * w0.len() implies #[trigger] bit_is_set(
                    self.bits@,
                    p,
                ) == (bit_is_set(w0, p) || exists|j: u32|
                    j < i + 1 && p == #[trigger] bit_index(h1, h2, j, self.bits_num)) by {
                    if p == bit_idx {
                        assert(bit_index(h1, h2, i, self.bits_num) == p);
                    }
                    if exists|j: u32| j < i + 1 && p == #[trigger] bit_index(h1, h2, j, self.bits_num) {
                        let j = choose|j: u32| j < i + 1 && p == #[trigger] bit_index(h1, h2, j, self.bits_num);
                        if j < i {
                        }
                    }
                }
            }
            i = i + 1;
        }
        proof {
            let bn = self.bits_num;
            assert forall|j: u32| j < self.hash_num implies #[trigger] bit_is_set(
                self.bits@,
                bit_index(h1, h2, j, bn),
            ) by {
                lemma_bit_index_bound(h1, h2, j, bn);
                assert(bit_index(h1, h2, j, bn) < 64 * w0.len());
            }
            assert forall|d: Seq<u8>| old(self).spec_contains(d) implies #[trigger] self.spec_contains(d) by {
                let hd = self.hasher.spec_hash(d);
                assert forall|j: u32| j < self.hash_num implies #[trigger] bit_is_set(
                    self.bits@,
                    bit_index(hd.0, stride(hd.1), j, bn),
                ) by {
                    lemma_bit_index_bound(hd.0, stride(hd.1), j, bn);
                    assert(bit_is_set(w0, bit_index(hd.0, stride(hd.1), j, bn)));
                }
            }
        }
    }

    /// The serialized form of the filter.
    pub fn serialize(&self) -> (r: Result<Vec<u8>, T::SerializeError>)
        requires
            self.wf(),
            self.spec_hasher().encoding().len() <= u32::MAX,
        ensures
            r is Ok == self.spec_hasher().serializable(),
            T::decodable(self.spec_hasher().encoding()),
            r matches Err(e) ==> e == self.spec_hasher().serialize_error(),
            r matches Ok(bytes) ==> bytes@ == encode(
                self.spec_hash_num(),
                self.spec_hasher().encoding(),
                self.spec_bits_num(),
                self.words(),
            ),
    {
        let hasher_bytes = match self.hasher.serialize() {
            Ok(b) => b,
            Err(e) => {
                return Err(e);
            },
        };
        let mut buf: Vec<u8> = Vec::new();
        append_bytes(&mut buf, MAGIC.as_slice());
        let version: [u8; 1] = [VERSION];
        append_bytes(&mut buf, version.as_slice());
        // hasher
        append_bytes(&mut buf, u32_to_le_bytes(self.hash_num).as_slice());
        let hasher_len = hasher_bytes.len() as u32;
        append_bytes(&mut buf, u32_to_le_bytes(hasher_len).as_slice());
        append_bytes(&mut buf, hasher_bytes.as_slice());
        // data
        append_bytes(&mut buf, u64_to_le_bytes(self.bits_num).as_slice());
        let ghost head = buf@;
        proof {
            assert(version@ =~= seq![VERSION]);
            assert(head =~= MAGIC@ + seq![VERSION] + spec_u32_to_le_bytes(self.hash_num)
                + spec_u32_to_le_bytes(hasher_len) + hasher_bytes@ + spec_u64_to_le_bytes(
                self.bits_num,
            ));
            assert(self.bits@.take(0) =~= Seq::<u64>::empty());
            assert(head + le_words(self.bits@.take(0)) =~= head);
        }
        let mut k: usize = 0;
        while k < self.bits.len()
            invariant
                k <= self.bits@.len(),
                buf@ == head + le_words(self.bits@.take(ix(k))),
            decreases self.bits@.len() - k,
        {
            let word_bytes = u64_to_le_bytes(self.bits[k]);
            append_bytes(&mut buf, word_bytes.as_slice());
            proof {
                let t = self.bits@.take(ix(k) + 1);
                assert(t.drop_last() =~= self.bits@.take(ix(k)));
                assert(t.last() == self.bits@[ix(k)]);
                assert(buf@ =~= head + le_words(t));
            }
            k = k + 1;
        }
        proof {
            assert(self.bits@.take(nx(self.bits@.len())) =~= self.bits@);
        }
        Ok(buf)
    }

    /// Rebuilds a filter from its serialized form.
    pub fn deserialize(serialized: &[u8]) -> (r: Result<Self, DeserializeError<T>>)
        ensures
            read_header(serialized@) matches Err(f) ==> (r matches Err(e) && reports(e, f)),
            read_header(serialized@) matches Ok((hn, end)) ==> {
                let hb = serialized@.subrange(hasher_start(), end);
                &&& !T::decodable(hb) ==> (r matches Err(DeserializeError::HasherError(e)) && e
                    == T::deserialize_error(hb))
                &&& T::decodable(hb) ==> match read_body(serialized@, end) {
                    Err(f) => (r matches Err(e) && reports(e, f)),
                    Ok((bn, ws)) => (r matches Ok(bl) && bl.wf() && bl.words() == ws
                        && bl.spec_bits_num() == bn && bl.spec_hash_num() == hn
                        && bl.spec_hasher().encoding() == hb),
                }
            },
            r matches Ok(bl) ==> decodes_to(serialized@, bl),
    {
        let buf = serialized;
        let len = buf.len();
        let ghost b = buf@;
        if len < 16 {
            return Err(DeserializeError::BufferTooShort { need: 16, have: len });
        }
        if !bytes_eq(&buf[0..16], MAGIC.as_slice()) {
            proof {
                assert(b.take(16) =~= b.subrange(0, 16));
            }
            return Err(DeserializeError::InvalidMagic);
        }
        proof {
            assert(b.take(16) =~= b.subrange(0, 16));
        }
        if len < 17 {
            return Err(DeserializeError::BufferTooShort { need: 17, have: len });
        }
        if buf[16] != VERSION {
            return Err(DeserializeError::InvalidVersion);
        }
        if len < 21 {
            return Err(DeserializeError::BufferTooShort { need: 21, have: len });
        }
        // hasher
        let hash_num = u32_from_le_bytes(&buf[17..21]);
        if len < 25 {
            return Err(DeserializeError::BufferTooShort { need: 25, have: len });
        }
        let hasher_len = u32_from_le_bytes(&buf[21..25]);
        let end: u64 = 25 + hasher_len as u64;
        if (len as u64) < end {
            return Err(DeserializeError::BufferTooShort { need: saturate_u64(end), have: len });
        }
        let end = end as usize;
        let hasher = match T::from_serialized(&buf[25..end]) {
            Ok(h) => h,
            Err(e) => {
                return Err(DeserializeError::HasherError(e));
            },
        };
        // bits
        let pos = end;
        if len - pos < 8 {
            return Err(
                DeserializeError::BufferTooShort { need: pos.saturating_add(8), have: len },
            );
        }
        let bits_num = u64_from_le_bytes(&buf[pos..pos + 8]);
        let start = pos + 8;
        let remaining = len - start;
        if remaining % WORD_BYTES != 0 {
            // nearest valid length; the full buffer may have been longer
            return Err(
                DeserializeError::BufferTooShort {
                    need: start.saturating_add(WORD_BYTES - remaining % WORD_BYTES),
                    have: len,
                },
            );
        }
        if bits_num == 0 {
            // a field holds at least one word
            return Err(
                DeserializeError::BufferTooShort { need: start.saturating_add(WORD_BYTES), have: len },
            );
        }
        let expected: u64 = bits_num / 64 + if bits_num % 64 == 0 {
            0
        } else {
            1
        };
        let n_words = remaining / WORD_BYTES;
        proof {
            assert(words_for(bits_num) == expected as int) by (nonlinear_arith)
                requires
                    expected == bits_num / 64 + if bits_num % 64 == 0 {
                        0int
                    } else {
                        1int
                    },
            ;
        }
        if n_words as u64 != expected {
            let need: u128 = start as u128 + 8 * expected as u128;
            return Err(DeserializeError::BufferTooShort { need: saturate_u128(need), have: len });
        }
        let bits_buf = read_words(buf, start, n_words);
        proof {
            assert(b.subrange(0, 16) =~= b.take(16));
            assert(read_header(b) == Ok::<(u32, int), FormatError>((hash_num, ix(end))));
            assert(read_body(b, ix(pos)) == Ok::<(u64, Seq<u64>), FormatError>((bits_num, bits_buf@)));
        }
        Ok(Bloom { bits: bits_buf, bits_num, hash_num, hasher })
    }

    /// Returns the number of hash functions being used.
    pub fn hash_num(&self) -> (r: u32)
        ensures
            r == self.spec_hash_num(),
    {
        self.hash_num
    }

    /// Returns the total number of bits in the filter.
    pub fn bits_num(&self) -> (r: u64)
        ensures
            r == self.spec_bits_num(),
    {
        self.bits_num
    }
}

/// A picked bit lies in the field.
pub proof fn lemma_bit_index_bound(h1: u64, h2: u64, i: u32, bits_num: u64)
    requires
        bits_num > 0,
    ensures
        0 <= bit_index(h1, h2, i, bits_num) < bits_num,
        bit_index(h1, h2, i, bits_num) < 64 * words_for(bits_num),
{
    let c = wrapping_add(h1, wrapping_mul(i as u64, h2)) as int;
    let b = bits_num as int;
    assert(0 <= (c * b) / 0x1_0000_0000_0000_0000 < b) by (nonlinear_arith)
        requires
            0 <= c < 0x1_0000_0000_0000_0000,
            0 < b,
    ;
}

/// The high half of the 128-bit product scales `c` onto `b` bits.
proof fn lemma_scale(c: u64, b: u64)
    ensures
        c as int * b as int <= u128::MAX,
        (((c as u128 * b as u128) as u128) >> 64u32) as int == (c as int * b as int)
            / 0x1_0000_0000_0000_0000,
{
    assert((c as int) * (b as int) < 0x1_0000_0000_0000_0000_0000_0000_0000_0000) by (
    nonlinear_arith)
        requires
            c < 0x1_0000_0000_0000_0000,
            b < 0x1_0000_0000_0000_0000,
    ;
    let prod = (c as u128 * b as u128) as u128;
    vstd::bits::lemma_u128_shr_is_div(prod, 64u128);
    vstd::arithmetic::power2::lemma2_to64();
    vstd::arithmetic::power2::lemma2_to64_rest();
}

/// Reading back a serialized filter gives the number of hash functions,
/// the hasher's bytes, the number of bits and the words that were written.
pub proof fn lemma_format_round_trip(hash_num: u32, hasher: Seq<u8>, bits_num: u64, words: Seq<u64>)
    requires
        hasher.len() <= u32::MAX,
        bits_num > 0,
        words.len() == words_for(bits_num),
    ensures
        read_header(encode(hash_num, hasher, bits_num, words)) == Ok::<(u32, int), FormatError>(
            (hash_num, hasher_start() + hasher.len()),
        ),
        encode(hash_num, hasher, bits_num, words).subrange(
            hasher_start(),
            hasher_start() + hasher.len(),
        ) == hasher,
        read_body(encode(hash_num, hasher, bits_num, words), hasher_start() + hasher.len())
            == Ok::<(u64, Seq<u64>), FormatError>((bits_num, words)),
{
    let e = encode(hash_num, hasher, bits_num, words);
    let hl = hasher.len() as u32;
    lemma_u32_le(hash_num);
    lemma_u32_le(hl);
    lemma_u64_le(bits_num);
    lemma_words_round_trip(words);
    let end: int = 25 + nx(hasher.len());
    assert(MAGIC@.len() == 16);
    assert(e.take(16) =~= MAGIC@);
    assert(e[16] == VERSION);
    assert(e.subrange(17, 21) =~= spec_u32_to_le_bytes(hash_num));
    assert(e.subrange(21, 25) =~= spec_u32_to_le_bytes(hl));
    assert(e.subrange(25, end) =~= hasher);
    assert(e.subrange(end, end + 8) =~= spec_u64_to_le_bytes(bits_num));
    assert(e.subrange(end + 8, nx(e.len())) =~= le_words(words));
    assert(e.len() == end + 8 + 8 * words.len());
    assert((8 * words.len()) % 8 == 0 && (8 * words.len()) / 8 == words.len()) by (
    nonlinear_arith);
}

/// A filter rebuilt with the words, the sizes and the hasher's bytes of
/// another holds exactly what the other holds.
pub proof fn lemma_same_parts_same_contents<T: Hasher>(b: Bloom<T>, c: Bloom<T>)
    requires
        c.words() == b.words(),
        c.spec_bits_num() == b.spec_bits_num(),
        c.spec_hash_num() == b.spec_hash_num(),
        c.spec_hasher().encoding() == b.spec_hasher().encoding(),
    ensures
        forall|d: Seq<u8>| #[trigger] c.spec_contains(d) == b.spec_contains(d),
{
    T::lemma_encoding_determines_hash(&c.spec_hasher(), &b.spec_hasher());
}

/// Writing a filter out and reading it back gives a filter with the same
/// number of bits, number of hash functions and words, whose hasher has
/// the same byte form, and which reports the same data present.
pub proof fn lemma_round_trip<T: Hasher>(b: Bloom<T>, c: Bloom<T>)
    requires
        b.wf(),
        b.spec_hasher().encoding().len() <= u32::MAX,
        decodes_to(
            encode(b.spec_hash_num(), b.spec_hasher().encoding(), b.spec_bits_num(), b.words()),
            c,
        ),
    ensures
        c.spec_bits_num() == b.spec_bits_num(),
        c.spec_hash_num() == b.spec_hash_num(),
        c.words() == b.words(),
        c.spec_hasher().encoding() == b.spec_hasher().encoding(),
        forall|d: Seq<u8>| #[trigger] c.spec_contains(d) == b.spec_contains(d),
{
    lemma_format_round_trip(
        b.spec_hash_num(),
        b.spec_hasher().encoding(),
        b.spec_bits_num(),
        b.words(),
    );
    lemma_same_parts_same_contents(b, c);
}

/// Each filter of `states` reports present whatever the one before did,
/// as a filter does from one insert to the next.
pub open spec fn only_grows<T: Hasher>(states: Seq<Bloom<T>>) -> bool {
    forall|i: int, d: Seq<u8>|
        0 <= i < states.len() - 1 && #[trigger] states[i].spec_contains(d) ==> states[i
            + 1].spec_contains(d)
}

/// No false negatives: once data is reported present, it stays reported
/// through any number of later inserts.
pub proof fn lemma_contains_persists<T: Hasher>(states: Seq<Bloom<T>>, d: Seq<u8>, i: int)
    requires
        only_grows(states),
        0 <= i < states.len(),
        states[i].spec_contains(d),
    ensures
        forall|j: int| i <= j < states.len() ==> #[trigger] states[j].spec_contains(d),
    decreases states.len() - i,
{
    if i + 1 < states.len() {
        lemma_contains_persists(states, d, i + 1);
    }
    assert forall|j: int| i <= j < states.len() implies #[trigger] states[j].spec_contains(d) by {
        if j > i {
            assert(states[i + 1].spec_contains(d));
        }
    }
}

/// A filter written out reads back: for the bytes a sound filter is
/// written to, the header and the body read well and the hasher's bytes
/// can be rebuilt from, so `deserialize` returns `Ok`. Every hasher's own
/// byte form can be rebuilt from (`Hasher::serialize` states it).
pub proof fn lemma_serialized_reads_back<T: Hasher>(b: Bloom<T>)
    requires
        b.wf(),
        b.spec_hasher().encoding().len() <= u32::MAX,
        T::decodable(b.spec_hasher().encoding()),
    ensures
        ({
            let bytes = encode(
                b.spec_hash_num(),
                b.spec_hasher().encoding(),
                b.spec_bits_num(),
                b.words(),
            );
            let end = hasher_start() + b.spec_hasher().encoding().len();
            &&& read_header(bytes) == Ok::<(u32, int), FormatError>((b.spec_hash_num(), end))
            &&& T::decodable(bytes.subrange(hasher_start(), end))
            &&& read_body(bytes, end) is Ok
        }),
{
    lemma_format_round_trip(
        b.spec_hash_num(),
        b.spec_hasher().encoding(),
        b.spec_bits_num(),
        b.words(),
    );
}

} // verus!
