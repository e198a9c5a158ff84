use vstd::prelude::*;

verus! {

/// Bit `k` of the word `w`.
pub open spec fn word_bit(w: u64, k: int) -> bool {
    (w >> (k as u64)) & 1u64 == 1u64
}

/// Number of set bits among the lowest `n` bits of `w`.
pub open spec fn bits_below(w: u64, n: int) -> nat
    decreases n,
{
    if n <= 0 {
        0
    } else {
        bits_below(w, n - 1) + if word_bit(w, n - 1) {
            1nat
        } else {
            0nat
        }
    }
}

/// Whether byte `b` is set in a 256-bit bitmap made of four words.
pub open spec fn bm_bit(bm: Seq<u64>, b: int) -> bool {
    word_bit(bm[b / 64], b % 64)
}

/// Number of bytes below `x` that are set in the bitmap.
pub open spec fn bm_rank(bm: Seq<u64>, x: int) -> nat
    decreases x,
{
    if x <= 0 {
        0
    } else {
        bm_rank(bm, x - 1) + if bm_bit(bm, x - 1) {
            1nat
        } else {
            0nat
        }
    }
}

/// Number of set bits in the words of the bitmap before word `w`.
pub open spec fn words_before(bm: Seq<u64>, w: int) -> nat
    decreases w,
{
    if w <= 0 {
        0
    } else {
        words_before(bm, w - 1) + bits_below(bm[w - 1], 64)
    }
}

/// Counts the set bits of a word.
pub fn count_ones(w: u64) -> (c: u32)
    ensures
        c == bits_below(w, 64),
{
    let mut c: u32 = 0;
    let mut k: u64 = 0;
    while k < 64
        invariant
            k <= 64,
            c == bits_below(w, k as int),
            c <= k,
        decreases 64 - k,
    {
        if (w >> k) & 1 == 1 {
            c = c + 1;
        }
        k = k + 1;
    }
    c
}

pub proof fn lemma_bits_below_bound(w: u64, n: int)
    requires
        0 <= n,
    ensures
        bits_below(w, n) <= n,
    decreases n,
{
    if n > 0 {
        lemma_bits_below_bound(w, n - 1);
    }
}

/// The word whose lowest `j` bits are set.
pub open spec fn low_mask(j: u64) -> u64 {
    ((1u64 << j) - 1u64) as u64
}

proof fn lemma_mask_bit(w: u64, j: u64, k: u64)
    requires
        j < 64,
        k < 64,
    ensures
        word_bit(w & low_mask(j), k as int) == (k < j && word_bit(w, k as int)),
{
    assert(((w & low_mask(j)) >> k) & 1u64 == (if k < j {
        (w >> k) & 1u64
    } else {
        0u64
    })) by (bit_vector)
        requires
            j < 64,
            k < 64,
    ;
}

/// Masking off the bits at `j` and above leaves the count of bits below `j`.
pub proof fn lemma_bits_below_mask(w: u64, j: u64, n: int)
    requires
        j < 64,
        0 <= n <= 64,
    ensures
        bits_below(w & low_mask(j), n) == bits_below(w, if n < j {
            n
        } else {
            j as int
        }),
    decreases n,
{
    if n > 0 {
        lemma_bits_below_mask(w, j, n - 1);
        lemma_mask_bit(w, j, (n - 1) as u64);
    }
}

pub proof fn lemma_div_mod_64(w: int, j: int)
    requires
        0 <= w,
        0 <= j < 64,
    ensures
        (64 * w + j) / 64 == w,
        (64 * w + j) % 64 == j,
{
    assert((64 * w + j) / 64 == w) by (nonlinear_arith)
        requires
            0 <= w,
            0 <= j < 64,
    ;
    assert((64 * w + j) % 64 == j) by (nonlinear_arith)
        requires
            0 <= w,
            0 <= j < 64,
    ;
}

/// The rank of a byte is the count of the whole words before it plus the
/// count of the bits below it in its own word.
pub proof fn lemma_rank_by_words(bm: Seq<u64>, w: int, j: int)
    requires
        bm.len() == 4,
        0 <= w < 4,
        0 <= j <= 64,
    ensures
        bm_rank(bm, 64 * w + j) == words_before(bm, w) + bits_below(bm[w], j),
    decreases w, j,
{
    if j == 0 {
        if w > 0 {
            lemma_rank_by_words(bm, w - 1, 64);
            assert(64 * (w - 1) + 64 == 64 * w);
        }
    } else {
        lemma_rank_by_words(bm, w, j - 1);
        lemma_div_mod_64(w, j - 1);
        assert(64 * w + j - 1 == 64 * w + (j - 1));
    }
}

pub proof fn lemma_rank_monotone(bm: Seq<u64>, x: int, y: int)
    requires
        0 <= x <= y,
    ensures
        bm_rank(bm, x) <= bm_rank(bm, y),
        x < y && bm_bit(bm, x) ==> bm_rank(bm, x) < bm_rank(bm, y),
    decreases y - x,
{
    if x < y {
        lemma_rank_monotone(bm, x, y - 1);
        if x == y - 1 {
        }
    }
}

pub proof fn lemma_rank_bound(bm: Seq<u64>, x: int)
    requires
        0 <= x,
    ensures
        bm_rank(bm, x) <= x,
    decreases x,
{
    if x > 0 {
        lemma_rank_bound(bm, x - 1);
    }
}

/// Two set bytes with the same rank are the same byte.
pub proof fn lemma_rank_injective(bm: Seq<u64>, x: int, y: int)
    requires
        0 <= x,
        0 <= y,
        bm_bit(bm, x),
        bm_bit(bm, y),
        bm_rank(bm, x) == bm_rank(bm, y),
    ensures
        x == y,
{
    if x < y {
        lemma_rank_monotone(bm, x, y);
    } else if y < x {
        lemma_rank_monotone(bm, y, x);
    }
}

/// The bitmap with the bit of `b` set.
pub open spec fn bm_set(bm: Seq<u64>, b: int) -> Seq<u64> {
    bm.update(b / 64, bm[b / 64] | (1u64 << ((b % 64) as u64)))
}

/// The bitmap with the bit of `b` cleared.
pub open spec fn bm_clear(bm: Seq<u64>, b: int) -> Seq<u64> {
    bm.update(b / 64, bm[b / 64] & !(1u64 << ((b % 64) as u64)))
}

pub proof fn lemma_word_set_bit(w: u64, b: u64, k: u64)
    requires
        b < 64,
        k < 64,
    ensures
        word_bit(w | (1u64 << b), k as int) == (k == b || word_bit(w, k as int)),
        word_bit(w & !(1u64 << b), k as int) == (k != b && word_bit(w, k as int)),
{
    assert(((w | (1u64 << b)) >> k) & 1u64 == (if k == b {
        1u64
    } else {
        (w >> k) & 1u64
    })) by (bit_vector)
        requires
            b < 64,
            k < 64,
    ;
    assert(((w & !(1u64 << b)) >> k) & 1u64 == (if k == b {
        0u64
    } else {
        (w >> k) & 1u64
    })) by (bit_vector)
        requires
            b < 64,
            k < 64,
    ;
}

proof fn lemma_byte_split(x: int)
    requires
        0 <= x < 256,
    ensures
        0 <= x / 64 < 4,
        0 <= x % 64 < 64,
        x == 64 * (x / 64) + x % 64,
{
}

/// Setting or clearing the bit of `b` changes no other bit.
pub proof fn lemma_bm_set_clear_bits(bm: Seq<u64>, b: int, x: int)
    requires
        bm.len() == 4,
        0 <= b < 256,
        0 <= x < 256,
    ensures
        bm_bit(bm_set(bm, b), x) == (x == b || bm_bit(bm, x)),
        bm_bit(bm_clear(bm, b), x) == (x != b && bm_bit(bm, x)),
{
    lemma_byte_split(b);
    lemma_byte_split(x);
    if x / 64 == b / 64 {
        lemma_word_set_bit(bm[b / 64], (b % 64) as u64, (x % 64) as u64);
    }
}

/// Setting a bit that was clear raises the rank of every later byte by one.
pub proof fn lemma_rank_after_set(bm: Seq<u64>, b: int, x: int)
    requires
        bm.len() == 4,
        0 <= b < 256,
        0 <= x <= 256,
        !bm_bit(bm, b),
    ensures
        bm_rank(bm_set(bm, b), x) == bm_rank(bm, x) + if x > b {
            1int
        } else {
            0int
        },
    decreases x,
{
    if x > 0 {
        lemma_rank_after_set(bm, b, x - 1);
        lemma_bm_set_clear_bits(bm, b, x - 1);
    }
}

/// Clearing a bit that was set lowers the rank of every later byte by one.
pub proof fn lemma_rank_after_clear(bm: Seq<u64>, b: int, x: int)
    requires
        bm.len() == 4,
        0 <= b < 256,
        0 <= x <= 256,
        bm_bit(bm, b),
    ensures
        bm_rank(bm_clear(bm, b), x) + (if x > b {
            1int
        } else {
            0int
        }) == bm_rank(bm, x),
    decreases x,
{
    if x > 0 {
        lemma_rank_after_clear(bm, b, x - 1);
        lemma_bm_set_clear_bits(bm, b, x - 1);
    }
}

/// An empty bitmap has no bit set.
pub proof fn lemma_empty_bitmap(x: int)
    requires
        0 <= x <= 256,
    ensures
        bm_rank(seq![0u64, 0u64, 0u64, 0u64], x) == 0,
        x < 256 ==> !bm_bit(seq![0u64, 0u64, 0u64, 0u64], x),
    decreases x,
{
    let bm = seq![0u64, 0u64, 0u64, 0u64];
    if x < 256 {
        lemma_byte_split(x);
        let k = (x % 64) as u64;
        assert((0u64 >> k) & 1u64 == 0u64) by (bit_vector);
    }
    if x > 0 {
        lemma_empty_bitmap(x - 1);
    }
}

/// Position of a byte in the bitmap: a word and a bit inside it.
pub proof fn lemma_byte_pos(byte: u8)
    ensures
        (byte >> 6u8) < 4,
        (byte & 63u8) < 64,
        byte as int == 64 * ((byte >> 6u8) as int) + (byte & 63u8) as int,
        (byte as int) / 64 == (byte >> 6u8) as int,
        (byte as int) % 64 == (byte & 63u8) as int,
{
    assert((byte >> 6u8) < 4 && (byte & 63u8) < 64) by (bit_vector);
    assert(byte == 64 * (byte >> 6u8) + (byte & 63u8)) by (bit_vector);
    lemma_div_mod_64((byte >> 6u8) as int, (byte & 63u8) as int);
}

/// Testing a bit with a one-bit mask.
pub proof fn lemma_mask_test(w: u64, b: u64)
    requires
        b < 64,
    ensures
        ((w & (1u64 << b)) != 0u64) == word_bit(w, b as int),
{
    assert(((w & (1u64 << b)) != 0u64) == ((w >> b) & 1u64 == 1u64)) by (bit_vector)
        requires
            b < 64,
    ;
}

} // verus!
