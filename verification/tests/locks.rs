use co_queue::deadlock::{acquire_resource, owns_resource, release_resource, DeadlockData};
use co_queue::hash_table::{hash, Bucket, FairTimeout, HashTable};
use co_queue::lot::ParkingLot;
use co_queue::mutex::{MapMutexGuard, MutexGuard, Mutexable, SmallMutex};
use co_queue::parker::{Moment, ParkWait, UnparkHandleT};
use co_queue::parking::{ParkResult, ParkToken, UnparkResult, UnparkToken};
use co_queue::raw_model::{RawWish, TOKEN_HANDOFF, TOKEN_NORMAL};
use co_queue::raw_mutex::{Mootex, RawMutex, RawThreads};
use co_queue::shift_guard::{pg, PtrGuard};
use co_queue::table_gate::{TableOp, TableStage};
use co_queue::word_lock::{LockState, WordLock, WordThreads};
use co_queue::word_model::{Waiter, Wish};
use std::sync::mpsc::channel;

fn at(secs: u64) -> Moment {
    Moment { secs, nanos: 0 }
}

fn lot_of(threads: usize) -> ParkingLot {
    let mut lot = ParkingLot::new();
    for t in 0..threads {
        assert_eq!(lot.register(at(1)), t);
    }
    lot
}

fn park(lot: &mut ParkingLot, t: usize, key: usize) {
    assert!(lot.park_begin(t, key, || true, ParkToken(0), false, at(1)));
    assert!(lot.must_sleep(t));
}

#[test]
fn a_word_says_who_waits() {
    assert!(!0usize.is_locked());
    assert!(1usize.is_locked());
    assert!(!1usize.is_queue_locked());
    assert!(6usize.is_queue_locked());
    assert_eq!(3usize.queue_head(), None);
    assert_eq!(4usize.queue_head(), Some(0));
    assert_eq!(23usize.queue_head(), Some(4));
    assert_eq!(3usize.with_queue_head(2), 15);
    assert_eq!(23usize.with_queue_head(0), 7);
}

#[test]
fn a_word_lock_is_locked_and_unlocked() {
    let mut lock = WordLock::new();
    lock.lock();
    assert!(!lock.unlock());
    lock.lock();
    assert!(!lock.unlock());
    let mut waiters: Vec<Waiter> = Vec::new();
    assert_eq!(lock.unlock_slow(&mut waiters), None);
}

#[test]
fn word_lock_waiters_are_woken_up_oldest_first() {
    let mut all = WordThreads::new(3);
    all.begin_lock(0);
    assert_eq!(all.step(0, false), Wish::Go);
    assert!(all.has_lock(0));
    for i in 1..3 {
        all.begin_lock(i);
        let mut yields = 0;
        while !all.sleeps(i) {
            if let Wish::Yield = all.step(i, false) {
                yields += 1;
            }
        }
        assert_eq!(yields, if i == 1 { 7 } else { 0 });
        assert_eq!(all.step(i, false), Wish::Sleep);
    }
    let mut woken = Vec::new();
    for holder in 0..3 {
        all.begin_unlock(holder);
        for _ in 0..8 {
            if let Wish::Wake(t) = all.step(holder, false) {
                woken.push(t);
            }
        }
        assert!(!all.has_lock(holder));
        if holder < 2 {
            assert!(!all.sleeps(holder + 1));
            while !all.has_lock(holder + 1) {
                all.step(holder + 1, false);
            }
        }
    }
    assert_eq!(woken, vec![1, 2]);
}

#[test]
fn at_most_one_thread_has_the_word_lock() {
    let mut all = WordThreads::new(4);
    let mut rounds = [0; 4];
    let mut turn = 0usize;
    while rounds.iter().any(|r| *r < 5) {
        turn = turn.wrapping_mul(25).wrapping_add(13) % 1009;
        let i = turn % 4;
        if all.has_lock(i) {
            rounds[i] += 1;
            all.begin_unlock(i);
        } else if rounds[i] < 5 {
            all.begin_lock(i);
        }
        all.step(i, turn % 11 == 5);
        assert!((0..4).filter(|j| all.has_lock(*j)).count() <= 1);
    }
}

#[test]
fn the_seed_of_the_fair_timeout_moves_on() {
    let mut fair = FairTimeout::new(at(5), 1);
    assert!(!fair.should_timeout(at(5)));
    assert_eq!(fair, FairTimeout { timeout: at(5), seed: 1 });
    assert!(fair.should_timeout(at(6)));
    assert_eq!(fair.seed, 270369);
    assert_eq!(fair.timeout, Moment { secs: 6, nanos: 270369 });
}

#[test]
fn a_table_has_buckets_for_its_threads() {
    assert_eq!(HashTable::new(1, at(1)).entries.len(), 4);
    assert_eq!(HashTable::new(3, at(1)).entries.len(), 16);
    let table = HashTable::new(11, at(1));
    assert_eq!(table.entries.len(), 64);
    assert_eq!(table.hash_bits, 6);
    assert_eq!(table.entries[7].fair_timeout, FairTimeout { timeout: at(1), seed: 8 });
    assert_eq!(hash(0, 6), 0);
    assert_eq!(hash(1, 4), 0x9);
    assert_eq!(hash(1, 8), 0x9E);
    assert!(hash(123456, 3) < 8);
    let bucket = Bucket::new(at(2), 9);
    assert!(bucket.queue_head.is_none() && bucket.queue_tail.is_none());
}

#[test]
fn threads_are_unparked_in_turn_for_each_key() {
    let mut lot = lot_of(6);
    for t in 0..6 {
        park(&mut lot, t, 100 + t % 2);
    }
    let (result, woken) = lot.unpark_one(100, |_| UnparkToken(7), at(1));
    assert_eq!(result.unparked_threads, 1);
    assert_eq!(result.requeued_threads, 0);
    assert!(result.have_more_threads);
    assert!(!result.be_fair);
    let (t, handle) = woken.unwrap();
    assert_eq!(t, 0);
    assert_eq!(handle.unpark(), 1);
    assert!(!lot.must_sleep(0));
    assert_eq!(lot.unpark_token(0), UnparkToken(7));
    assert_eq!(lot.park_end(0, true, |_, _| {}, at(1)), ParkResult::Unparked(UnparkToken(7)));
    let order: Vec<usize> = (0..3)
        .map(|_| lot.unpark_one(101, |_| UnparkToken(0), at(1)).1.unwrap().0)
        .collect();
    assert_eq!(order, vec![1, 3, 5]);
    let (result, woken) = lot.unpark_one(101, |_| UnparkToken(0), at(1));
    assert_eq!(result, UnparkResult::default());
    assert!(woken.is_none());
}

#[test]
fn a_failed_validation_does_not_park() {
    let mut lot = lot_of(1);
    assert!(!lot.park_begin(0, 5, || false, ParkToken(0), false, at(1)));
    assert!(!lot.must_sleep(0));
    assert!(lot.unpark_one(5, |_| UnparkToken(0), at(1)).1.is_none());
}

#[test]
fn growing_keeps_the_queues() {
    let mut lot = lot_of(4);
    for t in 0..4 {
        park(&mut lot, t, 1000 * (t % 2));
    }
    for t in 4..40 {
        assert_eq!(lot.register(at(2)), t);
    }
    lot.retire();
    for t in [0, 2] {
        assert_eq!(lot.unpark_one(0, |_| UnparkToken(0), at(2)).1.unwrap().0, t);
    }
    for t in [1, 3] {
        assert_eq!(lot.unpark_one(1000, |_| UnparkToken(0), at(2)).1.unwrap().0, t);
    }
}

#[test]
fn a_thread_that_timed_out_leaves_its_queue() {
    let mut lot = lot_of(3);
    for t in 0..3 {
        assert!(lot.park_begin(t, 9, || true, ParkToken(t), true, at(1)));
    }
    assert_eq!(lot.must_sleep_until(1, at(4), at(2)), ParkWait::SleepFor(2, 0));
    assert_eq!(lot.must_sleep_until(1, at(4), at(4)), ParkWait::TimedOut);
    let seen = std::cell::Cell::new(None);
    assert_eq!(lot.park_end(1, false, |k, last| seen.set(Some((k, last))), at(4)), ParkResult::TimedOut);
    assert_eq!(seen.get(), Some((9, false)));
    assert_eq!(lot.unpark_one(9, |_| UnparkToken(3), at(4)).1.unwrap().0, 0);
    assert_eq!(
        lot.park_end(0, false, |_, _| panic!("not timed out"), at(4)),
        ParkResult::Unparked(UnparkToken(3))
    );
    assert_eq!(lot.park_end(2, false, |k, last| seen.set(Some((k, last))), at(4)), ParkResult::TimedOut);
    assert_eq!(seen.get(), Some((9, true)));
    assert!(lot.unpark_one(9, |_| UnparkToken(0), at(4)).1.is_none());
}

#[test]
fn an_unpark_is_fair_once_its_time_has_come() {
    let mut lot = lot_of(2);
    park(&mut lot, 0, 3);
    park(&mut lot, 1, 3);
    let (result, _) = lot.unpark_one(3, |r| UnparkToken(r.be_fair as usize), at(2));
    assert!(result.be_fair && result.have_more_threads);
    assert_eq!(lot.unpark_token(0), UnparkToken(1));
    let (result, _) = lot.unpark_one(3, |r| UnparkToken(r.be_fair as usize), at(2));
    assert!(!result.be_fair && !result.have_more_threads);
    assert_eq!(lot.unpark_token(1), UnparkToken(0));
}

#[test]
fn resources_are_acquired_and_released() {
    let mut data = DeadlockData::new();
    for key in [1, 2, 1, 3] {
        acquire_resource(&mut data, key);
    }
    release_resource(&mut data, 1);
    assert_eq!(data.resources, vec![1, 2, 3]);
    assert!(owns_resource(&data, 1));
    release_resource(&mut data, 1);
    assert_eq!(data.resources, vec![3, 2]);
    assert!(!owns_resource(&data, 1));
    assert!(owns_resource(&data, 2) && owns_resource(&data, 3));
}

#[test]
fn a_deadlocked_thread_reports_once_it_is_unparked() {
    let mut data = DeadlockData::new();
    assert!(data.on_unpark().is_none());
    let (tx, rx) = channel();
    data.deadlocked = true;
    data.backtrace_sender = Some(tx);
    let (sender, report) = data.on_unpark().unwrap();
    assert_eq!(report.thread_id(), data.thread_id);
    assert_eq!(data.thread_id, thread_id::get());
    assert!(!report.backtrace().frames().is_empty());
    sender.send(report).unwrap();
    assert_eq!(rx.recv().unwrap().thread_id(), thread_id::get());
    assert!(data.backtrace_sender.is_none());

    let mut lot = lot_of(1);
    assert!(lot.on_unpark(0).is_none());
    lot.acquire_resource(0, 8);
    assert!(lot.owns_resource(0, 8));
    lot.release_resource(0, 8);
    assert!(!lot.owns_resource(0, 8));
}

#[test]
fn a_mutex_guards_its_value() {
    let mut mutex: Mootex<(u8, u8)> = SmallMutex::new((1, 2));
    let mut me = DeadlockData::new();
    {
        let mut guard = mutex.lock(40, &mut me);
        assert_eq!(me.resources, [40]);
        assert_eq!(guard.key, 40);
        assert_eq!(*guard.deref(), (1, 2));
        assert_eq!(MutexGuard::mutex(&guard).raw.state, 1);
        guard.deref_mut().0 = 5;
        MutexGuard::unlock(guard, &mut me);
    }
    assert_eq!(mutex.raw.state, 0);
    assert!(me.resources.is_empty());
    assert!(mutex.try_lock(40, &mut me));
    assert_eq!(me.resources, [40]);
    assert!(!mutex.try_lock(40, &mut me));
    assert_eq!(me.resources, [40]);
    mutex.force_unlock(40, &mut me);
    assert!(me.resources.is_empty());
    {
        let guard = mutex.lock(41, &mut me);
        let mut part = MutexGuard::map(guard, |pair: &mut (u8, u8)| &mut pair.1);
        assert_eq!(*part.deref(), 2);
        *part.deref_mut() = 6;
        let part = MapMutexGuard::map(part, |x: &mut u8| x);
        assert_eq!(me.resources, [41]);
        MapMutexGuard::unlock(part, &mut me);
        assert!(me.resources.is_empty());
    }
    assert_eq!(mutex.raw.state, 0);
    assert_eq!(mutex.into_inner(), (5, 6));
    let fresh: Mootex<u32> = Default::default();
    assert_eq!(fresh.into_inner(), 0);
}

#[test]
fn trying_sets_the_locked_bit() {
    let mut raw = RawMutex::init();
    let mut me = DeadlockData::new();
    assert!(raw.try_lock(8, &mut me));
    assert_eq!(raw.state, 1);
    assert!(raw.mark_parked_when_lock());
    assert_eq!(raw.state, 3);
    assert!(!raw.try_lock(8, &mut me));
    raw.state = 2;
    assert!(!raw.mark_parked_when_lock());
    assert!(raw.try_lock(8, &mut me));
    assert_eq!(me.resources, [8, 8]);
    assert_eq!(raw.state, 3);
    let mut free = RawMutex::init();
    free.lock(9, &mut me);
    assert_eq!(free.state, 1);
    assert_eq!(me.resources, [8, 8, 9]);
    free.unlock(9, &mut me);
    assert_eq!(me.resources, [8, 8]);
    assert_eq!(free.state, 0);
    let mut contended = RawMutex { state: 2 };
    contended.lock(10, &mut me);
    assert_eq!(contended.state, 3);
}

#[test]
fn unlocking_hands_over_only_if_it_is_to_be_fair() {
    let mut lot = lot_of(3);
    let mut raw = RawMutex { state: 3 };
    for t in 0..3 {
        park(&mut lot, t, 77);
    }
    assert_eq!(raw.unlock_slow(&mut lot, 77, at(1)), Some(0));
    assert_eq!(raw.state, 2);
    assert_eq!(lot.unpark_token(0), UnparkToken(TOKEN_NORMAL));
    raw.state = 3;
    assert_eq!(raw.unlock_slow(&mut lot, 77, at(2)), Some(1));
    assert_eq!(raw.state, 3);
    assert_eq!(lot.unpark_token(1), UnparkToken(TOKEN_HANDOFF));
    assert_eq!(raw.unlock_slow(&mut lot, 77, at(3)), Some(2));
    assert_eq!(raw.state, 1);
    assert_eq!(lot.unpark_token(2), UnparkToken(TOKEN_HANDOFF));
    assert_eq!(raw.unlock_slow(&mut lot, 77, at(4)), None);
    assert_eq!(raw.state, 0);
}

#[test]
fn raw_mutex_threads_park_and_are_woken_up_in_turn() {
    let mut all = RawThreads::new(3, 64, at(1));
    all.begin_lock(0);
    assert_eq!(all.step(0, false, at(1)), RawWish::Go);
    assert!(all.has_mutex(0));
    for i in 1..3 {
        all.begin_lock(i);
        while all.step(i, false, at(1)) != RawWish::Sleep {}
    }
    assert_eq!(all.state(), 3);
    for holder in 0..2 {
        all.begin_unlock(holder);
        let mut woken = None;
        while !all.is_idle(holder) {
            if let RawWish::Wake(t) = all.step(holder, false, at(1)) {
                woken = Some(t);
            }
        }
        assert_eq!(woken, Some(holder + 1));
        while !all.has_mutex(holder + 1) {
            all.step(holder + 1, false, at(1));
        }
    }
    assert_eq!(all.state(), 1);
}

#[test]
fn a_fair_unlock_never_lets_the_mutex_go() {
    let mut all = RawThreads::new(2, 64, at(1));
    all.begin_lock(0);
    all.step(0, false, at(1));
    all.begin_lock(1);
    while all.step(1, false, at(1)) != RawWish::Sleep {}
    all.begin_unlock(0);
    assert_eq!(all.step(0, false, at(9)), RawWish::Go);
    assert_eq!(all.step(0, false, at(9)), RawWish::Wake(1));
    assert_eq!(all.state(), 1);
    all.begin_try_lock(0);
    all.step(0, false, at(9));
    assert!(all.is_idle(0));
    all.step(1, false, at(9));
    assert!(all.has_mutex(1));
}

#[test]
fn at_most_one_thread_has_the_raw_mutex() {
    let mut all = RawThreads::new(4, 1, at(1));
    let mut rounds = [0; 4];
    let mut turn = 0usize;
    let mut clock = 1;
    while rounds.iter().any(|r| *r < 5) {
        turn = turn.wrapping_mul(25).wrapping_add(13) % 1009;
        clock += (turn % 3 == 0) as u64;
        let i = turn % 4;
        if all.has_mutex(i) {
            rounds[i] += 1;
            all.begin_unlock(i);
        } else if rounds[i] < 5 {
            if turn % 2 == 0 {
                all.begin_lock(i);
            } else {
                all.begin_try_lock(i);
            }
        } else {
            all.begin_mark(i);
        }
        all.step(i, turn % 11 == 5, at(clock));
        assert!((0..4).filter(|j| all.has_mutex(*j)).count() <= 1);
        assert!(all.state() < 4);
    }
}

#[test]
fn a_lookup_starts_over_if_the_table_was_replaced() {
    let mut op = TableOp::find(1);
    op.read(0, 16, 4);
    assert_eq!(op.stage, TableStage::Lock(0, 9));
    op.locked(16);
    op.checked(1);
    assert_eq!(op.stage, TableStage::Drop(0, 9));
    op.unlocked(16);
    op.read(1, 256, 8);
    op.locked(256);
    op.checked(1);
    assert_eq!(op.stage, TableStage::Use(1, 0x9E));
    op.leave();
    op.unlocked(256);
    assert_eq!(op.stage, TableStage::Idle);
}

#[test]
fn a_table_is_replaced_with_all_its_buckets_locked() {
    let mut op = TableOp::grow(2);
    op.read(0, 4, 2);
    for b in 0..4 {
        assert_eq!(op.stage, TableStage::GrowLock(0, b));
        op.locked(4);
    }
    assert_eq!(op.stage, TableStage::GrowCheck(0));
    let mut late = op;
    late.checked(1);
    assert_eq!(late.stage, TableStage::GrowBack(0, 0));
    for _ in 0..4 {
        late.unlocked(4);
    }
    assert_eq!(late.stage, TableStage::GrowRead);
    late.read(1, 8, 3);
    assert_eq!(late.stage, TableStage::Idle);
    op.checked(0);
    assert_eq!(op.stage, TableStage::Publish(0));
    op.published();
    for b in 0..4 {
        assert_eq!(op.stage, TableStage::GrowUnlock(0, b));
        op.unlocked(4);
    }
    assert_eq!(op.stage, TableStage::Idle);
}

#[test]
fn a_guard_is_locked_by_its_own_mutex() {
    let mut guard: PtrGuard<u8> = pg();
    assert!(guard.cap >= 1);
    assert_eq!(guard.cap, num_cpus::get());
    let mut me = DeadlockData::new();
    assert!(guard.try_lock(5, &mut me));
    assert!(!guard.try_lock(5, &mut me));
    assert_eq!(me.resources, [5]);
    guard.unlock(5, &mut me);
    assert!(me.resources.is_empty());
    let held = guard.lock(5, &mut me);
    assert_eq!(me.resources, [5]);
    MutexGuard::unlock(held, &mut me);
    assert!(me.resources.is_empty());
    assert!(guard.try_lock(5, &mut me));
    assert_eq!(guard.push(3), Ok(()));
    assert_eq!(guard.pop(), Ok(3));
    assert_eq!(guard.pop(), Err(()));
}
