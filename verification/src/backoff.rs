//! Exponential backoff for retry loops: spin `2^count` times, up to a
//! limit, then hand the processor back to the scheduler.
use vstd::arithmetic::power2::pow2;
use vstd::prelude::*;

verus! {

/// Largest exponent of the spin count.
pub const SPIN_MAX: u32 = 6;

/// Number of rounds after which backing off is given up.
pub const YIELD_MAX: u32 = 8;

/// Calls `core::hint::spin_loop`, which only signals the processor that
/// the caller is busy-waiting and has no effect on any value.
#[verifier::external_body]
fn spin_loop_hint() {
    core::hint::spin_loop();
}

/// Spins `2^pow` times and returns how many hints it gave.
fn spin_for(pow: u32) -> (n: u32)
    requires
        pow <= SPIN_MAX,
    ensures
        n == pow2(pow as nat),
{
    proof {
        vstd::arithmetic::power2::lemma2_to64();
    }
    let rounds: u32 = if pow == 0 {
        1
    } else if pow == 1 {
        2
    } else if pow == 2 {
        4
    } else if pow == 3 {
        8
    } else if pow == 4 {
        16
    } else if pow == 5 {
        32
    } else {
        64
    };
    let mut n: u32 = 0;
    while n < rounds
        invariant
            n <= rounds,
        decreases rounds - n,
    {
        spin_loop_hint();
        n = n + 1;
    }
    n
}

/// The count after one more round: one more, stopping at `u32::MAX`.
pub open spec fn next_count(count: u32) -> u32 {
    if count < u32::MAX {
        (count + 1) as u32
    } else {
        count
    }
}

pub struct Backoff {
    count: u32,
}

impl Backoff {
    /// The number of rounds so far.
    pub closed spec fn count(self) -> u32 {
        self.count
    }

    pub fn new() -> (res: Self)
        ensures
            res.count() == 0,
    {
        Backoff { count: 0 }
    }

    /// Implements backoff with pure spinning: `2^min(count, SPIN_MAX)`
    /// spins.
    pub fn spin(&mut self)
        ensures
            final(self).count() == next_count(old(self).count()),
    {
        let pow = if self.count < SPIN_MAX {
            self.count
        } else {
            SPIN_MAX
        };
        let _spins = spin_for(pow);
        self.count = self.count.saturating_add(1);
    }

    /// Implements backoff by spinning first, `2^count` times while the
    /// count is at most `SPIN_MAX`; past that it spins no more and returns
    /// `true`: the caller is to yield the thread to the scheduler.
    pub fn pause(&mut self) -> (yield_now: bool)
        ensures
            yield_now == (old(self).count() > SPIN_MAX),
            final(self).count() == next_count(old(self).count()),
    {
        let yield_now = if self.count <= SPIN_MAX {
            let _spins = spin_for(self.count);
            false
        } else {
            true
        };
        self.count = self.count.saturating_add(1);
        yield_now
    }

    /// Returns whether we should give up backoff attempts and resort to
    /// another strategy.
    pub fn done(&mut self) -> (r: bool)
        ensures
            r == (old(self).count() >= YIELD_MAX),
            final(self).count() == old(self).count(),
    {
        self.count >= YIELD_MAX
    }

    /// Resets the backoff for reuse.
    pub fn reset(&mut self)
        ensures
            final(self).count() == 0,
    {
        self.count = 0;
    }
}

/// After `YIELD_MAX` rounds from a fresh or reset backoff, and not
/// before, backing off is done.
pub proof fn lemma_done_after_rounds(k: nat)
    ensures
        (rounds_from_zero(k) >= YIELD_MAX) == (k >= YIELD_MAX),
        rounds_from_zero(k) == (if k < u32::MAX {
            k
        } else {
            u32::MAX as nat
        }),
    decreases k,
{
    if k > 0 {
        lemma_done_after_rounds((k - 1) as nat);
    }
}

/// The count after `k` rounds from zero.
pub open spec fn rounds_from_zero(k: nat) -> u32
    decreases k,
{
    if k == 0 {
        0
    } else {
        next_count(rounds_from_zero((k - 1) as nat))
    }
}

} // verus!
