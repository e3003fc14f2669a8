use co_queue::backoff::{Backoff, Pause};
use co_queue::chunk::{Chunk, Segment, WRITE};
use co_queue::parker::{
    Moment, ParkWait, ThreadParker, ThreadParkerT, UnparkHandleT, NANOS_PER_SEC,
};
use co_queue::spin_wait::{Spin, SpinWait};

fn at(secs: u64, nanos: u32) -> Moment {
    Moment { secs, nanos }
}

#[test]
fn naps_grow_and_then_yield() {
    let mut backoff = Backoff::new();
    for step in 0..=6 {
        assert!(!backoff.is_completed());
        assert_eq!(backoff.nap(), Pause::Spun(1 << step));
    }
    for _ in 7..=10 {
        assert!(!backoff.is_completed());
        assert_eq!(backoff.nap(), Pause::Yield);
    }
    assert!(backoff.is_completed());
    assert_eq!(backoff.nap(), Pause::Yield);
    assert_eq!(backoff.step, 11);
    backoff.reset();
    assert_eq!(backoff, Backoff::default());
}

#[test]
fn spins_never_complete_a_backoff() {
    let mut backoff = Backoff::new();
    let rounds: Vec<u32> = (0..10).map(|_| backoff.spin()).collect();
    assert_eq!(rounds, vec![1, 2, 4, 8, 16, 32, 64, 64, 64, 64]);
    assert_eq!(backoff.step, 7);
    assert!(!backoff.is_completed());
}

#[test]
fn spin_wait_reaches_its_threshold_after_ten_spins() {
    let mut wait = SpinWait::new();
    assert_eq!(wait.spin(), Spin::Relaxed(2));
    assert_eq!(wait.spin(), Spin::Relaxed(4));
    assert_eq!(wait.spin(), Spin::Relaxed(8));
    for _ in 3..10 {
        assert_eq!(wait.spin(), Spin::Yield);
    }
    assert_eq!(wait.spin(), Spin::Exhausted);
    assert_eq!(wait.spin(), Spin::Exhausted);
    wait.reset();
    assert_eq!(wait, SpinWait::default());
    assert_eq!(wait.spin(), Spin::Relaxed(2));
}

#[test]
fn a_slot_is_waited_for_until_it_is_written() {
    let mut chunk: Chunk<u8> = Chunk::new();
    assert_eq!(chunk.slots.len(), 31);
    let mut backoff = Backoff::new();
    assert_eq!(chunk.slots[0].wait_write(&mut backoff), Some(Pause::Spun(1)));
    chunk.slots[0].state = WRITE;
    assert_eq!(chunk.slots[0].wait_write(&mut backoff), None);
    assert_eq!(chunk.wait_next(&mut backoff), Err(Pause::Spun(2)));
    chunk.next = Some(7);
    assert_eq!(chunk.wait_next(&mut backoff), Ok(7));
    assert_eq!(Segment::new(), Segment { index: 0, chunk: None });
}

#[test]
fn moments_are_compared_and_subtracted() {
    assert!(at(2, 0).is_after(&at(1, 999_999_999)));
    assert!(at(1, 1).is_after(&at(1, 0)));
    assert!(!at(1, 0).is_after(&at(1, 0)));
    assert_eq!(at(1, 999_999_999).plus_nanos(1), at(2, 0));
    assert_eq!(at(1, 5).plus_nanos(6), at(1, 11));
    assert_eq!(at(3, 1).since(&at(1, 2)), at(1, NANOS_PER_SEC - 1));
    assert_eq!(at(3, 2).since(&at(1, 2)), at(2, 0));
}

#[test]
fn a_parker_sleeps_until_it_is_unparked_or_timed_out() {
    let mut parker = ThreadParker::new();
    assert!(!parker.park());
    assert_eq!(parker.park_until(at(9, 0), at(1, 0)), ParkWait::Unparked);
    parker.prepare_park();
    assert!(parker.park());
    assert!(parker.timed_out());
    assert_eq!(
        parker.park_until(at(9, 5), at(1, 6)),
        ParkWait::SleepFor(7, NANOS_PER_SEC - 1)
    );
    assert_eq!(parker.park_until(at(9, 0), at(9, 0)), ParkWait::TimedOut);
    assert_eq!(parker.park_until(at(8, 0), at(9, 0)), ParkWait::TimedOut);
    assert_eq!(parker.park_until(at(u64::MAX, 0), at(0, 0)), ParkWait::Sleep);
    let handle = parker.unpark_lock();
    assert_eq!(handle.unpark(), 1);
    assert!(!parker.park());
    assert!(!parker.timed_out());
    assert!(ThreadParker::IS_CHEAP_TO_CONSTRUCT);
}
