use algors::backoff::{Backoff, SPIN_MAX, YIELD_MAX};
use algors::ring::{
    holds_value, is_empty, is_full, mask, next_counter, occupied, pop_state, push_state,
    released_seq, ring_size, SlotState,
};

#[test]
fn test_ring_size() {
    assert_eq!(ring_size(0), Some(1));
    assert_eq!(ring_size(2), Some(4));
    assert_eq!(ring_size(10), Some(1024));
    assert_eq!(ring_size((usize::BITS - 1) as u8), Some(1usize << (usize::BITS - 1)));
    assert_eq!(ring_size(usize::BITS as u8), None);
    assert_eq!(ring_size(255), None);
}

#[test]
fn test_mask_is_remainder() {
    for len in [1usize, 2, 4, 16, 1024] {
        for num in [0usize, 1, 3, 7, 15, 1000, usize::MAX - 1, usize::MAX] {
            assert_eq!(mask(num, len), num % len);
        }
    }
}

#[test]
fn test_window_slots_distinct_across_wrap() {
    let len = 8usize;
    let start = usize::MAX - 3;
    let mut seen = Vec::new();
    let mut c = start;
    for _ in 0..len {
        let slot = mask(c, len);
        assert!(!seen.contains(&slot));
        seen.push(slot);
        c = next_counter(c);
    }
    assert_eq!(c, 4);
}

#[test]
fn test_full_and_empty() {
    assert!(is_empty(5, 5));
    assert!(!is_empty(6, 5));
    assert!(is_full(9, 5, 4));
    assert!(!is_full(8, 5, 4));
    // across the wrap
    assert!(is_full(2, usize::MAX - 1, 4));
    assert_eq!(occupied(2, usize::MAX - 1), 4);
    assert_eq!(occupied(7, 7), 0);
}

#[test]
fn test_counters_wrap() {
    assert_eq!(next_counter(0), 1);
    assert_eq!(next_counter(usize::MAX), 0);
    assert_eq!(released_seq(usize::MAX, 4), 3);
    assert_eq!(released_seq(10, 4), 14);
    assert!(holds_value(11, 10));
    assert!(holds_value(0, usize::MAX));
    assert!(!holds_value(10, 10));
}

#[test]
fn test_slot_states() {
    // a producer at counter 20
    assert!(matches!(push_state(20, 20), SlotState::Ready));
    assert!(matches!(push_state(17, 20), SlotState::Behind));
    assert!(matches!(push_state(21, 20), SlotState::Ahead));
    // a consumer at counter 20 wants sequence 21
    assert!(matches!(pop_state(21, 20), SlotState::Ready));
    assert!(matches!(pop_state(20, 20), SlotState::Behind));
    assert!(matches!(pop_state(36, 20), SlotState::Ahead));
    // across the wrap
    assert!(matches!(push_state(1, usize::MAX), SlotState::Ahead));
    assert!(matches!(push_state(usize::MAX, 1), SlotState::Behind));
    assert!(matches!(pop_state(0, usize::MAX), SlotState::Ready));
}

#[test]
fn test_backoff_counts_rounds() {
    let mut b = Backoff::new();
    for _ in 0..YIELD_MAX {
        assert!(!b.done());
        b.spin();
    }
    assert!(b.done());
    b.reset();
    assert!(!b.done());
}

#[test]
fn test_backoff_pause_yields_past_spin_limit() {
    let mut b = Backoff::new();
    for _ in 0..=SPIN_MAX {
        assert!(!b.pause());
    }
    assert!(b.pause());
    assert!(b.pause());
    assert!(b.done());
}

use algors::steps::{Racer, Side, SpscEnd, SpscStep, Step};

#[test]
fn test_spsc_producer_never_overfills() {
    let len = 4;
    let mut p = SpscEnd::new(Side::Producer, len);
    let mut tail = 0usize;
    // four writes fit before the cached head says the ring is full
    for _ in 0..4 {
        match p.on_own(tail) {
            SpscStep::Use { slot, counter } => {
                assert_eq!(slot, tail % len);
                tail = counter;
            }
            _ => panic!("room expected"),
        }
    }
    assert!(matches!(p.on_own(tail), SpscStep::LoadOther));
    // the consumer has not moved: give up
    assert!(matches!(p.on_other(tail, 0), SpscStep::GiveUp));
    // the consumer took one value: one more write
    assert!(matches!(p.on_other(tail, 1), SpscStep::Use { slot: 0, counter: 5 }));
}

#[test]
fn test_spsc_consumer_reads_written_only() {
    let len = 4;
    let mut c = SpscEnd::new(Side::Consumer, len);
    let head = 0usize;
    assert!(matches!(c.on_own(head), SpscStep::LoadOther));
    assert!(matches!(c.on_other(head, 0), SpscStep::GiveUp));
    assert!(matches!(c.on_other(head, 2), SpscStep::Use { slot: 0, counter: 1 }));
    // the cached tail says there is another value
    assert!(matches!(c.on_own(1), SpscStep::Use { slot: 1, counter: 2 }));
    assert!(matches!(c.on_own(2), SpscStep::LoadOther));
}

#[test]
fn test_racer_claims_then_takes() {
    // a producer at tail 5 in a ring of 4: slot 1 with sequence 5 is free
    let (mut r, step) = Racer::new(Side::Producer, 5, 4);
    assert!(matches!(step, Step::ReadSeq { slot: 1 }));
    assert!(matches!(r.on_seq(5), Step::Claim { current: 5, next: 6 }));
    assert!(matches!(r.on_claim(Ok(5)), Step::Take { slot: 1, seq: 6 }));

    // a consumer at head 5 wants sequence 6 and leaves 5 + 4
    let (mut r, _) = Racer::new(Side::Consumer, 5, 4);
    assert!(matches!(r.on_seq(6), Step::Claim { current: 5, next: 6 }));
    assert!(matches!(r.on_claim(Ok(5)), Step::Take { slot: 1, seq: 9 }));
}

#[test]
fn test_racer_retries_and_gives_up() {
    let (mut r, _) = Racer::new(Side::Producer, 8, 4);
    // another producer won the counter: move to the one found
    assert!(matches!(r.on_claim(Err(9)), Step::ReadSeq { slot: 1 }));
    // the slot still holds last lap's value: full
    assert!(matches!(r.on_seq(5), Step::GiveUp));
    // a stale counter: back off, spinning first, then reload
    let (mut r, _) = Racer::new(Side::Producer, 8, 4);
    for _ in 0..=algors::backoff::SPIN_MAX {
        assert!(matches!(r.on_seq(12), Step::Reload { yield_now: false }));
    }
    assert!(matches!(r.on_seq(12), Step::Reload { yield_now: true }));
    assert!(matches!(r.on_reload(12), Step::ReadSeq { slot: 0 }));
    // a consumer finds nothing written yet: empty
    let (mut r, _) = Racer::new(Side::Consumer, 3, 4);
    assert!(matches!(r.on_seq(3), Step::GiveUp));
}
