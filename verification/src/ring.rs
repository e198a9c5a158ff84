//! The index arithmetic of the ring-buffer queues. Head and tail are
//! counters that only grow, wrapping at `usize::MAX`; a counter's slot is
//! the counter modulo the ring's size, a power of two.
use vstd::arithmetic::power2::pow2;
use vstd::prelude::*;

verus! {

/// Number of values a `usize` holds.
pub open spec fn modulus() -> int {
    usize::MAX + 1
}

/// How far `to` is ahead of `from`, counting around the wrap.
pub open spec fn distance(from: usize, to: usize) -> int {
    if from <= to {
        to - from
    } else {
        to - from + modulus()
    }
}

/// `len` is a power of two.
pub open spec fn is_pow2(len: usize) -> bool {
    exists|k: nat| k < usize::BITS && len == pow2(k)
}

/// Number of slots of a ring made with `pow`, where that fits in a
/// `usize`.
pub fn ring_size(pow: u8) -> (r: Option<usize>)
    ensures
        r is Some == (pow < usize::BITS),
        r matches Some(n) ==> n == pow2(pow as nat) && is_pow2(n),
{
    if (pow as u32) < usize::BITS {
        let n: usize = 1usize << pow;
        proof {
            lemma_shl_usize(pow);
            assert(is_pow2(n)) by {
                assert((pow as nat) < usize::BITS && n == pow2(pow as nat));
            }
        }
        Some(n)
    } else {
        None
    }
}

/// `1 << pow` is `2^pow`.
proof fn lemma_shl_usize(pow: u8)
    requires
        (pow as u32) < usize::BITS,
    ensures
        (1usize << pow) == pow2(pow as nat),
{
    vstd::arithmetic::power2::lemma2_to64();
    vstd::arithmetic::power2::lemma_pow2_strictly_increases(pow as nat, 64);
    let p: u64 = pow as u64;
    assert((1usize << pow) as int == (1u64 << p) as int) by (bit_vector)
        requires
            p == pow as u64,
            p < 64,
            (pow as u32) < usize::BITS,
    ;
    vstd::bits::lemma_u64_shl_is_mul(1, p);
}

/// The low bits of `num` below the ring size `len`: its slot when `len`
/// is a power of two.
pub open spec fn slot(num: usize, len: usize) -> usize {
    num & vstd::wrapping::usize_specs::wrapping_sub(len, 1)
}

/// The slot of counter `num` in a ring of `len` slots.
pub fn mask(num: usize, len: usize) -> (r: usize)
    ensures
        r == slot(num, len),
        is_pow2(len) ==> r == num % len,
{
    let m = len.wrapping_sub(1);
    let r = num & m;
    proof {
        if is_pow2(len) {
            let k = choose|k: nat| k < usize::BITS && len == pow2(k);
            vstd::arithmetic::power2::lemma_pow2_pos(k);
            assert(m == (len - 1) as usize);
            lemma_mask_is_mod(num, len, k);
        }
    }
    r
}

/// Masking with `2^k - 1` is taking the remainder by `2^k`.
proof fn lemma_mask_is_mod(num: usize, len: usize, k: nat)
    requires
        k < usize::BITS,
        len == pow2(k),
    ensures
        num & ((len - 1) as usize) == num % len,
{
    vstd::arithmetic::power2::lemma2_to64();
    vstd::arithmetic::power2::lemma_pow2_pos(k);
    let x: u64 = num as u64;
    vstd::bits::lemma_u64_low_bits_mask_is_mod(x, k);
    vstd::bits::lemma_low_bits_mask_values();
    assert(vstd::bits::low_bits_mask(k) == pow2(k) - 1);
    let m: u64 = (len - 1) as u64;
    assert((num & ((len - 1) as usize)) as int == (x & m) as int) by (bit_vector)
        requires
            x == num as u64,
            m == (len - 1) as u64,
            len > 0,
    ;
}

/// The number of values between `head` and `tail`.
pub fn occupied(tail: usize, head: usize) -> (n: usize)
    ensures
        n == distance(head, tail),
{
    tail.wrapping_sub(head)
}

/// A single-producer ring is full when the tail is a whole ring ahead of
/// the head.
pub fn is_full(tail: usize, head: usize, len: usize) -> (r: bool)
    ensures
        r == (distance(head, tail) == len),
{
    tail.wrapping_sub(head) == len
}

/// A single-consumer ring is empty when the head has caught up with the
/// tail.
pub fn is_empty(tail: usize, head: usize) -> (r: bool)
    ensures
        r == (distance(head, tail) == 0),
        r == (tail == head),
{
    tail.wrapping_sub(head) == 0
}

/// The counter after `num`, wrapping.
pub open spec fn successor(num: usize) -> usize {
    wrapped(num + 1)
}

/// `n`, for `0 <= n < 2 * modulus()`, wrapped into the range of `usize`.
pub open spec fn wrapped(n: int) -> usize {
    if n <= usize::MAX {
        n as usize
    } else {
        (n - modulus()) as usize
    }
}

/// The counter after `num`, wrapping.
pub fn next_counter(num: usize) -> (r: usize)
    ensures
        distance(num, r) == 1,
        r == successor(num),
{
    num.wrapping_add(1)
}

/// Where a slot's sequence number stands against the counter a thread
/// holds.
pub enum SlotState {
    /// The sequence number is the one looked for: the slot can be claimed.
    Ready,
    /// The sequence number is behind: the slot is still in use from the
    /// lap before.
    Behind,
    /// The sequence number is ahead: another thread took the slot and the
    /// counter held is stale.
    Ahead,
}

/// The state read from the wrapping difference of `seq` and `want`, taken
/// as a signed number: zero, negative or positive.
pub open spec fn slot_state(seq: usize, want: usize) -> SlotState {
    let d = distance(want, seq);
    if d == 0 {
        SlotState::Ready
    } else if d > isize::MAX {
        SlotState::Behind
    } else {
        SlotState::Ahead
    }
}

fn classify(seq: usize, want: usize) -> (r: SlotState)
    ensures
        r == slot_state(seq, want),
{
    let d = seq.wrapping_sub(want);
    if d == 0 {
        SlotState::Ready
    } else if d > (isize::MAX as usize) {
        SlotState::Behind
    } else {
        SlotState::Ahead
    }
}

/// A producer holding tail counter `idx` finds a slot ready to write when
/// the slot's sequence number is `idx`.
pub fn push_state(seq: usize, idx: usize) -> (r: SlotState)
    ensures
        r == slot_state(seq, idx),
        (r is Ready) == (seq == idx),
{
    classify(seq, idx)
}

/// A consumer holding head counter `idx` finds a slot ready to read when
/// the slot's sequence number is `idx + 1`.
pub fn pop_state(seq: usize, idx: usize) -> (r: SlotState)
    ensures
        r == slot_state(seq, successor(idx)),
        (r is Ready) == (seq == successor(idx)),
{
    classify(seq, idx.wrapping_add(1))
}

/// The sequence number a consumer leaves in the slot of counter `idx`:
/// the counter a producer will hold one lap later.
pub fn released_seq(idx: usize, len: usize) -> (r: usize)
    ensures
        r == wrapped(idx + len),
{
    idx.wrapping_add(len)
}

/// Whether a slot with sequence number `seq` holds a value written for
/// counter `idx`.
pub fn holds_value(seq: usize, idx: usize) -> (r: bool)
    ensures
        r == (seq == successor(idx)),
{
    seq == idx.wrapping_add(1)
}

/// Counters less than a ring's size apart land in different slots, across
/// the wrap too: the values a ring holds never share a slot.
pub proof fn lemma_window_distinct_slots(a: usize, b: usize, len: usize)
    requires
        is_pow2(len),
        0 < distance(a, b) < len,
    ensures
        a % len != b % len,
{
    let k = choose|k: nat| k < usize::BITS && len == pow2(k);
    vstd::arithmetic::power2::lemma_pow2_pos(k);
    let d = distance(a, b);
    let l = len as int;
    lemma_mod_shift(a as int, d, l);
    if a > b {
        // across the wrap: the modulus is a multiple of the ring's size
        vstd::arithmetic::power2::lemma_pow2_adds(k, (usize::BITS - k) as nat);
        vstd::arithmetic::power2::lemma2_to64();
        assert(modulus() == pow2(usize::BITS as nat));
        let t = pow2((usize::BITS - k) as nat) as int;
        assert(modulus() == l * t);
        vstd::arithmetic::div_mod::lemma_mod_multiples_vanish(-t, a + d, l);
        assert(l * (-t) == -(l * t)) by (nonlinear_arith);
        assert(b as int == l * (-t) + (a + d));
    }
}

/// Moving less than `l` forward changes the remainder by `l`.
proof fn lemma_mod_shift(a: int, d: int, l: int)
    requires
        0 <= a,
        0 < d < l,
    ensures
        (a + d) % l != a % l,
{
    vstd::arithmetic::div_mod::lemma_fundamental_div_mod(a, l);
    vstd::arithmetic::div_mod::lemma_fundamental_div_mod(a + d, l);
    let q = a / l;
    let r = a % l;
    let q2 = (a + d) / l;
    let r2 = (a + d) % l;
    assert(r2 != r) by (nonlinear_arith)
        requires
            a == l * q + r,
            a + d == l * q2 + r2,
            0 <= r < l,
            0 <= r2 < l,
            0 < d < l,
    {
        if r2 == r {
            assert(d == l * (q2 - q));
            if q2 - q >= 1 {
                assert(l * (q2 - q) >= l);
            } else {
                assert(l * (q2 - q) <= 0);
            }
        }
    }
}

} // verus!
