//! The decisions of the queues' push and pop, one step at a time. The
//! caller holds the shared counters and slots: it performs the operation
//! each step asks for and hands back what it read, until a step ends the
//! attempt.
use crate::backoff::{next_count, Backoff, SPIN_MAX};
use crate::ring::{
    distance, mask, next_counter, pop_state, push_state, released_seq, slot, slot_state,
    successor, wrapped, SlotState,
};
use vstd::prelude::*;

verus! {

/// Which end of a ring a thread works on.
#[derive(Clone, Copy, PartialEq, Eq, Structural)]
pub enum Side {
    /// Writes values in at the tail.
    Producer,
    /// Takes values out at the head.
    Consumer,
}

/// What a thread racing for a slot of a sequenced ring does next.
#[derive(Clone, Copy, PartialEq, Eq, Structural)]
pub enum Step {
    /// Read the sequence number of slot `slot`.
    ReadSeq { slot: usize },
    /// Move the shared counter from `current` to `next` if it still holds
    /// `current` (compare and exchange), and report the outcome.
    Claim { current: usize, next: usize },
    /// The slot `slot` is this thread's: move the value in (producer) or
    /// out (consumer), then store `seq` as the slot's sequence number.
    Take { slot: usize, seq: usize },
    /// Give up: the ring is full (producer) or empty (consumer).
    GiveUp,
    /// Reload the shared counter, yielding the thread first when
    /// `yield_now` is set.
    Reload { yield_now: bool },
}

/// The sequence number a thread on `side` holding counter `idx` waits for.
pub open spec fn wanted(side: Side, idx: usize) -> usize {
    match side {
        Side::Producer => idx,
        Side::Consumer => successor(idx),
    }
}

/// The sequence number a thread on `side` leaves in the slot it took.
pub open spec fn left_seq(side: Side, idx: usize, len: usize) -> usize {
    match side {
        Side::Producer => successor(idx),
        Side::Consumer => wrapped(idx + len),
    }
}

/// One attempt to push into or pop from a ring of sequenced slots, after
/// Dmitry Vyukov's bounded queue: a slot's sequence number says whose
/// turn it is, and the shared counter is claimed by compare and exchange.
pub struct Racer {
    side: Side,
    idx: usize,
    len: usize,
    backoff: Backoff,
}

impl Racer {
    pub closed spec fn side(self) -> Side {
        self.side
    }

    /// The counter the attempt holds.
    pub closed spec fn idx(self) -> usize {
        self.idx
    }

    /// Number of slots of the ring.
    pub closed spec fn len(self) -> usize {
        self.len
    }

    /// Rounds of backing off so far.
    pub closed spec fn rounds(self) -> u32 {
        self.backoff.count()
    }

    /// Starts an attempt at counter `counter`, the value loaded from the
    /// shared tail (producer) or head (consumer). The first step reads the
    /// sequence number of the counter's slot.
    pub fn new(side: Side, counter: usize, len: usize) -> (res: (Self, Step))
        ensures
            res.0.side() == side,
            res.0.idx() == counter,
            res.0.len() == len,
            res.0.rounds() == 0,
            res.1 == (Step::ReadSeq { slot: res.0.slot_of(counter) }),
    {
        let slot = mask(counter, len);
        (Racer { side, idx: counter, len, backoff: Backoff::new() }, Step::ReadSeq { slot })
    }

    /// The slot of counter `num` in this ring.
    pub open spec fn slot_of(self, num: usize) -> usize {
        slot(num, self.len())
    }

    /// The sequence number of the held counter's slot was `seq`. The slot
    /// is claimed when it is the one waited for; a sequence number behind
    /// means the ring is full (or empty) and the attempt gives up; one
    /// ahead means the counter held is stale: back off, then reload it.
    pub fn on_seq(&mut self, seq: usize) -> (step: Step)
        ensures
            final(self).side() == old(self).side(),
            final(self).idx() == old(self).idx(),
            final(self).len() == old(self).len(),
            match slot_state(seq, wanted(old(self).side(), old(self).idx())) {
                SlotState::Ready => step == (Step::Claim {
                    current: old(self).idx(),
                    next: successor(old(self).idx()),
                }) && final(self).rounds() == old(self).rounds(),
                SlotState::Behind => step == Step::GiveUp && final(self).rounds()
                    == old(self).rounds(),
                SlotState::Ahead => step == (Step::Reload {
                    yield_now: old(self).rounds() > SPIN_MAX,
                }) && final(self).rounds() == next_count(old(self).rounds()),
            },
    {
        let state = match self.side {
            Side::Producer => push_state(seq, self.idx),
            Side::Consumer => pop_state(seq, self.idx),
        };
        match state {
            SlotState::Ready => Step::Claim { current: self.idx, next: next_counter(self.idx) },
            SlotState::Behind => Step::GiveUp,
            SlotState::Ahead => {
                let yield_now = self.backoff.pause();
                Step::Reload { yield_now }
            },
        }
    }

    /// The compare and exchange of the shared counter returned `result`:
    /// `Ok` when it held the counter and now holds the next one, `Err`
    /// with the value it held instead. On success the slot is taken; on
    /// failure the attempt moves to the counter found, after spinning.
    pub fn on_claim(&mut self, result: Result<usize, usize>) -> (step: Step)
        ensures
            final(self).side() == old(self).side(),
            final(self).len() == old(self).len(),
            match result {
                Ok(_) => step == (Step::Take {
                    slot: old(self).slot_of(old(self).idx()),
                    seq: left_seq(old(self).side(), old(self).idx(), old(self).len()),
                }) && final(self).idx() == old(self).idx() && final(self).rounds()
                    == old(self).rounds(),
                Err(found) => step == (Step::ReadSeq { slot: old(self).slot_of(found) })
                    && final(self).idx() == found && final(self).rounds() == next_count(
                    old(self).rounds(),
                ),
            },
    {
        match result {
            Ok(_) => {
                let seq = match self.side {
                    Side::Producer => next_counter(self.idx),
                    Side::Consumer => released_seq(self.idx, self.len),
                };
                Step::Take { slot: mask(self.idx, self.len), seq }
            },
            Err(found) => {
                self.idx = found;
                self.backoff.spin();
                Step::ReadSeq { slot: mask(found, self.len) }
            },
        }
    }

    /// The shared counter was reloaded as `counter`: the attempt moves to
    /// it.
    pub fn on_reload(&mut self, counter: usize) -> (step: Step)
        ensures
            final(self).side() == old(self).side(),
            final(self).len() == old(self).len(),
            final(self).rounds() == old(self).rounds(),
            final(self).idx() == counter,
            step == (Step::ReadSeq { slot: old(self).slot_of(counter) }),
    {
        self.idx = counter;
        Step::ReadSeq { slot: mask(counter, self.len) }
    }
}

/// What a thread on one end of a single-producer single-consumer ring
/// does next.
#[derive(Clone, Copy, PartialEq, Eq, Structural)]
pub enum SpscStep {
    /// Load the other end's counter: the cached one says there is no room
    /// (producer) or no value (consumer).
    LoadOther,
    /// Move the value in (producer) or out (consumer) at `slot`, then
    /// publish `counter` as this end's new counter.
    Use { slot: usize, counter: usize },
    /// Give up: the ring is full (producer) or empty (consumer).
    GiveUp,
}

/// One end of a single-producer single-consumer ring, with the last value
/// it saw of the other end's counter. That counter only moves forward, so
/// the cached value can be trusted until it says to stop.
pub struct SpscEnd {
    side: Side,
    len: usize,
    cache: usize,
}

/// The ring can take the step from `own` with the other end at `other`:
/// there is room for the producer, a value for the consumer.
pub open spec fn can_move(side: Side, own: usize, other: usize, len: usize) -> bool {
    match side {
        Side::Producer => distance(other, own) != len,
        Side::Consumer => distance(own, other) != 0,
    }
}

impl SpscEnd {
    pub closed spec fn side(self) -> Side {
        self.side
    }

    pub closed spec fn len(self) -> usize {
        self.len
    }

    /// The last value seen of the other end's counter.
    pub closed spec fn cache(self) -> usize {
        self.cache
    }

    /// The slot of counter `num` in this ring.
    pub open spec fn slot_of(self, num: usize) -> usize {
        slot(num, self.len())
    }

    /// A fresh end of a ring of `len` slots; both counters start at zero.
    pub fn new(side: Side, len: usize) -> (res: Self)
        ensures
            res.side() == side,
            res.len() == len,
            res.cache() == 0,
    {
        SpscEnd { side, len, cache: 0 }
    }

    /// This end's own counter is `own`. With the cached counter of the
    /// other end there is room (or a value): use the slot; else load the
    /// other end's counter.
    pub fn on_own(&self, own: usize) -> (step: SpscStep)
        ensures
            can_move(self.side(), own, self.cache(), self.len()) ==> step == (SpscStep::Use {
                slot: self.slot_of(own),
                counter: successor(own),
            }),
            !can_move(self.side(), own, self.cache(), self.len()) ==> step
                == SpscStep::LoadOther,
    {
        if self.room(own, self.cache) {
            SpscStep::Use { slot: mask(own, self.len), counter: next_counter(own) }
        } else {
            SpscStep::LoadOther
        }
    }

    /// The other end's counter was loaded as `other`, this end's being
    /// `own`: it is cached, and the slot is used when the ring allows,
    /// else the attempt gives up.
    pub fn on_other(&mut self, own: usize, other: usize) -> (step: SpscStep)
        ensures
            final(self).side() == old(self).side(),
            final(self).len() == old(self).len(),
            final(self).cache() == other,
            can_move(old(self).side(), own, other, old(self).len()) ==> step == (SpscStep::Use {
                slot: old(self).slot_of(own),
                counter: successor(own),
            }),
            !can_move(old(self).side(), own, other, old(self).len()) ==> step == SpscStep::GiveUp,
    {
        self.cache = other;
        if self.room(own, other) {
            SpscStep::Use { slot: mask(own, self.len), counter: next_counter(own) }
        } else {
            SpscStep::GiveUp
        }
    }

    fn room(&self, own: usize, other: usize) -> (r: bool)
        ensures
            r == can_move(self.side(), own, other, self.len()),
    {
        match self.side {
            Side::Producer => !crate::ring::is_full(own, other, self.len),
            Side::Consumer => !crate::ring::is_empty(other, own),
        }
    }
}

/// Distances around the wrap add up while they stay below a whole turn.
pub proof fn lemma_distance_add(a: usize, b: usize, c: usize)
    requires
        distance(a, b) + distance(b, c) <= usize::MAX,
    ensures
        distance(a, c) == distance(a, b) + distance(b, c),
{
}

/// The producer of a single-producer single-consumer ring never overfills
/// it. Its cached head lies between the real head and the tail (the head
/// only moves forward); when, by the cache, the ring held at most `len`
/// values and the producer writes, the ring holds at most `len` values
/// after the tail moves on, counted from the real head and from the cache.
pub proof fn lemma_producer_keeps_bound(head: usize, cache: usize, tail: usize, len: usize)
    requires
        distance(cache, head) <= distance(cache, tail),
        distance(cache, tail) <= len,
        can_move(Side::Producer, tail, cache, len),
    ensures
        distance(cache, successor(tail)) <= len,
        distance(head, successor(tail)) <= len,
        distance(head, successor(tail)) == distance(head, tail) + 1,
{
    lemma_distance_add(cache, tail, successor(tail));
    lemma_distance_add(cache, head, tail);
    lemma_distance_add(head, tail, successor(tail));
}

/// The consumer of a single-consumer ring only reads written slots. Its
/// cached tail lies between the head and the real tail (the tail only
/// moves forward); when, by the cache, there is a value, the real tail is
/// ahead of the head too, and the head moves on no further than the tail.
pub proof fn lemma_consumer_reads_written(head: usize, cache: usize, tail: usize, len: usize)
    requires
        distance(head, cache) <= distance(head, tail),
        distance(head, tail) <= len,
        can_move(Side::Consumer, head, cache, len),
    ensures
        distance(head, tail) > 0,
        distance(successor(head), tail) == distance(head, tail) - 1,
{
    lemma_distance_add(head, successor(head), tail);
}

} // verus!
