//! A mutex in a single byte, on which threads are parked that have waited for long.
//!
//! [`RawMutex::step`] takes one access of a thread that locks or unlocks. A [`RawThreads`]
//! holds a mutex with all threads that use it and lets any of them take its next step at
//! any time.

use vstd::prelude::*;

use crate::deadlock::{acquire_resource, release_resource, without, DeadlockData};
use crate::hash_table::threads_fit;
use crate::lot::ParkingLot;
use crate::mutex::{MapMutexGuard, MutexGuard, Mutexable, SmallMutex};
use crate::parker::Moment;
use crate::parking::{ParkToken, UnparkResult, UnparkToken, DEFAULT_PARK_TOKEN};
use crate::raw_model::{
    is_contended, is_locked, lemma_state_bits, raw_lock_wish, raw_next, raw_wish, spin_wish,
    RawMem, RawOp, RawStage, RawWish, LOCKED_BIT, PARKED_BIT, TOKEN_HANDOFF, TOKEN_NORMAL,
};
use crate::raw_proof::{law_raw_event, RawEvent, RawSys};
use crate::spin_wait::{Spin, SpinWait};

verus! {

/// A value behind a raw mutex.
pub type Mootex<T> = SmallMutex<RawMutex, T>;

/// A guard for a value behind a raw mutex.
pub type MootexGuard<'a, T> = MutexGuard<'a, RawMutex, T>;

/// A guard for a part of a value behind a raw mutex.
pub type MapMootexGuard<'a, T> = MapMutexGuard<'a, RawMutex, T>;

/// Raw mutex type backed by the parking lot.
#[derive(Debug)]
pub struct RawMutex {
    /// This integer holds the current state of the mutex instance. Only the two lowest bits
    /// are used. See `LOCKED_BIT` and `PARKED_BIT` for the bitmask for these bits.
    ///
    /// # State table:
    ///
    /// PARKED_BIT | LOCKED_BIT | Description
    ///     0      |     0      | The mutex is not locked, nor is anyone waiting for it.
    /// -----------+------------+------------------------------------------------------------------
    ///     0      |     1      | The mutex is locked by exactly one thread. No other thread is
    ///            |            | waiting for it.
    /// -----------+------------+------------------------------------------------------------------
    ///     1      |     0      | The mutex is not locked. One or more thread is parked or about to
    ///            |            | park. At least one of the parked threads are just about to be
    ///            |            | unparked, or a thread heading for parking might abort the park.
    /// -----------+------------+------------------------------------------------------------------
    ///     1      |     1      | The mutex is locked by exactly one thread. One or more thread is
    ///            |            | parked or about to park, waiting for the lock to become available.
    pub state: u8,
}

/// What a raw mutex and the threads that may be parked on its key come to.
pub open spec fn raw_mem(mutex: &RawMutex, lot: &ParkingLot, key: usize) -> RawMem {
    RawMem {
        state: mutex.state,
        queue: lot.waiting(key),
        asleep: Seq::new(lot.known(), |t: int| lot.asleep(t)),
        tokens: Seq::new(lot.known(), |t: int| lot.token(t).0),
    }
}

/// The thread's next access finds what it needs.
pub open spec fn raw_step_fits(mutex: &RawMutex, lot: &ParkingLot, op: RawOp, me: int) -> bool {
    &&& mutex.state < 4
    &&& op.state < 4
    &&& 0 <= me < lot.known()
    &&& match op.stage {
        RawStage::Acquire => !is_locked(op.state),
        RawStage::TryAcquire => !is_locked(op.state),
        RawStage::SetParked => !is_contended(op.state),
        RawStage::Park => !lot.is_parked(me as usize),
        _ => true,
    }
}

/// Every thread but `me` has the key and the resources that it had.
pub open spec fn others_kept(a: &ParkingLot, b: &ParkingLot, me: int) -> bool {
    forall|t: int|
        0 <= t < a.known() && t != me ==> #[trigger] b.key_of(t) == a.key_of(t)
            && b.deadlock_data(t) == a.deadlock_data(t)
}

/// The thread has the mutex now and did not have it before.
pub open spec fn just_got(before: RawOp, now: RawOp) -> bool {
    now.stage is Held && !(before.stage is Held)
}

impl RawMutex {
    /// The state that an unlock leaves if threads are, or were about to be, parked, and the
    /// value of the token for the thread that is unparked.
    pub open spec fn handed(state: u8, result: UnparkResult) -> (u8, usize) {
        if result.unparked_threads != 0 && result.be_fair {
            (
                if result.have_more_threads {
                    state
                } else {
                    LOCKED_BIT
                },
                TOKEN_HANDOFF,
            )
        } else {
            (
                if result.have_more_threads {
                    PARKED_BIT
                } else {
                    0
                },
                TOKEN_NORMAL,
            )
        }
    }

    /// Sets the parked bit if the mutex is locked. Returns whether it is.
    pub fn mark_parked_when_lock(&mut self) -> (locked: bool)
        ensures
            locked == is_locked(old(self).state),
            final(self).state == (if locked && !is_contended(old(self).state) {
                (old(self).state + 2) as u8
            } else {
                old(self).state
            }),
    {
        proof {
            lemma_state_bits(self.state);
        }
        if self.state & LOCKED_BIT == 0 {
            return false;
        }
        self.state = self.state | PARKED_BIT;
        true
    }

    /// Locks a mutex that is not locked, though threads may be parked.
    fn lock_slow(&mut self)
        requires
            !is_locked(old(self).state),
        ensures
            final(self).state == old(self).state + 1,
    {
        proof {
            lemma_state_bits(self.state);
        }
        self.state = self.state | LOCKED_BIT;
    }

    /// Sets the locked bit, unless it is set. Returns whether it was not.
    pub(crate) fn try_take(&mut self) -> (taken: bool)
        ensures
            taken == !is_locked(old(self).state),
            final(self).state == (if taken {
                (old(self).state + 1) as u8
            } else {
                old(self).state
            }),
    {
        proof {
            lemma_state_bits(self.state);
        }
        if self.state & LOCKED_BIT != 0 {
            return false;
        }
        self.state = self.state | LOCKED_BIT;
        true
    }

    /// Clears the locked bit, with nobody parked.
    pub(crate) fn give_back(&mut self)
        requires
            old(self).state <= 1,
        ensures
            final(self).state == 0,
    {
        if self.state == LOCKED_BIT {
            self.state = 0;
        }
    }

    /// What is done with the mutex once it is known which thread is unparked, if any: it is
    /// unlocked, or handed over. Returns the token for that thread.
    fn hand_over(&mut self, result: UnparkResult) -> (token: UnparkToken)
        ensures
            (final(self).state, token.0) == RawMutex::handed(old(self).state, result),
    {
        if result.unparked_threads != 0 && result.be_fair {
            if !result.have_more_threads {
                self.state = LOCKED_BIT;
            }
            return UnparkToken(TOKEN_HANDOFF);
        }
        if result.have_more_threads {
            self.state = PARKED_BIT;
        } else {
            self.state = 0;
        }
        UnparkToken(TOKEN_NORMAL)
    }

    /// Unparks the thread that has been parked on the mutex for longest, and unlocks the
    /// mutex or hands it over to that thread. Returns the thread, which is to be woken up.
    pub fn unlock_slow(&mut self, lot: &mut ParkingLot, key: usize, now: Moment) -> (woken: Option<
        usize,
    >)
        requires
            old(lot).wf(),
            now.wf(),
        ensures
            final(lot).wf(),
            final(lot).known() == old(lot).known(),
            final(lot).alive() == old(lot).alive(),
            forall|k: usize| k != key ==> #[trigger] final(lot).waiting(k) == old(lot).waiting(k),
            others_kept(old(lot), final(lot), -1),
            ({
                let queue = old(lot).waiting(key);
                let fair = old(lot).fair(key).due(now);
                &&& woken == (if queue.len() == 0 {
                    None
                } else {
                    Some(queue[0])
                })
                &&& raw_mem(final(self), final(lot), key) == raw_next(
                    raw_mem(old(self), old(lot), key),
                    RawOp { stage: RawStage::UnlockSlow, ..RawOp::idle() },
                    0,
                    false,
                    fair,
                ).0
                &&& queue.len() > 0 ==> queue[0] < old(lot).known()
                &&& queue.len() > 0 ==> old(lot).fair(key).leads_to(now, final(lot).fair(key))
            }),
    {
        let ghost before = raw_mem(self, lot, key);
        let (result, target) = lot.unpark_begin(key, now);
        let ghost begun = *lot;
        let token = self.hand_over(result);
        let _handle = lot.unpark_end(key, target, token);
        proof {
            assert forall|k: usize| k != key implies #[trigger] lot.waiting(k) == old(
                lot,
            ).waiting(k) by {
                assert(lot.waiting(k) == begun.waiting(k));
            }
            assert(lot.waiting(key) == begun.waiting(key));
            assert forall|t: int| 0 <= t < old(lot).known() implies #[trigger] lot.key_of(t) == old(
                lot,
            ).key_of(t) && lot.deadlock_data(t) == old(lot).deadlock_data(t) && (!(target is Some
                && target->0 == t) ==> lot.asleep(t) == old(lot).asleep(t) && lot.token(t) == old(
                lot,
            ).token(t)) by {
                assert(begun.same_thread(old(lot), t));
                if !(target is Some && target->0 == t) {
                    assert(lot.same_thread(&begun, t));
                }
            }
            let after = raw_mem(self, lot, key);
            let next = raw_next(
                before,
                RawOp { stage: RawStage::UnlockSlow, ..RawOp::idle() },
                0,
                false,
                old(lot).fair(key).due(now),
            ).0;
            assert forall|t: int| 0 <= t < lot.known() implies after.asleep[t] == next.asleep[t]
                && after.tokens[t] == next.tokens[t] by {
                assert(lot.key_of(t) == old(lot).key_of(t));
            }
            assert(after.asleep =~= next.asleep);
            assert(after.tokens =~= next.tokens);
        }
        target
    }

    /// Takes the next access of a thread. Returns what the thread is to do before it goes
    /// on. A change of the state that may fail for no reason does so if `spurious` is set.
    /// The threads that wait for the mutex are parked on the key in the lot. A thread that
    /// gets the mutex is marked as having acquired the key.
    pub fn step(
        &mut self,
        lot: &mut ParkingLot,
        key: usize,
        op: &mut RawOp,
        me: usize,
        spurious: bool,
        now: Moment,
    ) -> (wish: RawWish)
        requires
            raw_step_fits(old(self), old(lot), *old(op), me as int),
            old(lot).wf(),
            now.wf(),
        ensures
            final(lot).wf(),
            final(lot).known() == old(lot).known(),
            final(lot).alive() == old(lot).alive(),
            (raw_mem(final(self), final(lot), key), *final(op)) == raw_next(
                raw_mem(old(self), old(lot), key),
                *old(op),
                me as int,
                spurious,
                old(lot).fair(key).due(now),
            ),
            wish == raw_wish(raw_mem(old(self), old(lot), key), *old(op), me as int, spurious),
            forall|k: usize| k != key ==> #[trigger] final(lot).waiting(k) == old(lot).waiting(k),
            others_kept(old(lot), final(lot), me as int),
            old(op).stage is UnlockSlow && old(lot).waiting(key).len() > 0 ==> old(lot).fair(
                key,
            ).leads_to(now, final(lot).fair(key)),
            final(lot).key_of(me as int) == (if old(op).stage is Park && old(self).state == 3 {
                key
            } else {
                old(lot).key_of(me as int)
            }),
            final(lot).deadlock_data(me as int).resources@ == (if just_got(
                *old(op),
                *final(op),
            ) {
                old(lot).deadlock_data(me as int).resources@.push(key)
            } else {
                old(lot).deadlock_data(me as int).resources@
            }),
    {
        let hit = !spurious && self.state == op.state;
        proof {
            lemma_state_bits(self.state);
            lemma_state_bits(op.state);
        }
        let ghost before = raw_mem(self, lot, key);
        match op.stage {
            RawStage::Idle => RawWish::Go,
            RawStage::Held => RawWish::Go,
            RawStage::Fast => {
                if !spurious && self.state == 0 {
                    self.state = LOCKED_BIT;
                    op.stage = RawStage::Held;
                    Self::note(lot, key, me);
                } else {
                    op.wait = SpinWait::new();
                    op.stage = RawStage::Load;
                }
                RawWish::Go
            },
            RawStage::Load => {
                op.state = self.state;
                Self::decide_lock(op)
            },
            RawStage::Acquire => {
                if hit {
                    self.state = op.state | LOCKED_BIT;
                    op.stage = RawStage::Held;
                    Self::note(lot, key, me);
                    return RawWish::Go;
                }
                op.state = self.state;
                Self::decide_lock(op)
            },
            RawStage::SetParked => {
                if hit {
                    self.state = op.state | PARKED_BIT;
                    op.stage = RawStage::Park;
                    return RawWish::Go;
                }
                op.state = self.state;
                Self::decide_lock(op)
            },
            RawStage::Park => {
                let state: u8 = self.state;
                let validate = || -> (valid: bool)
                    ensures
                        valid == (state == LOCKED_BIT | PARKED_BIT),
                    { state == LOCKED_BIT | PARKED_BIT };
                let parked = lot.park_begin(
                    me,
                    key,
                    validate,
                    ParkToken(DEFAULT_PARK_TOKEN),
                    false,
                    now,
                );
                proof {
                    lemma_park_seqs(old(lot), lot, key, me as int, parked);
                    assert(!parked ==> lot.key_of(me as int) == old(lot).key_of(me as int));
                }
                if parked {
                    op.stage = RawStage::Parked;
                    return RawWish::Go;
                }
                Self::spin_again(op)
            },
            RawStage::Parked => {
                if lot.must_sleep(me) {
                    return RawWish::Sleep;
                }
                if lot.unpark_token(me).0 == TOKEN_HANDOFF {
                    op.stage = RawStage::Held;
                    Self::note(lot, key, me);
                    return RawWish::Go;
                }
                Self::spin_again(op)
            },
            RawStage::Unlock => {
                if self.state == LOCKED_BIT {
                    self.state = 0;
                    op.stage = RawStage::Idle;
                } else {
                    op.stage = RawStage::UnlockSlow;
                }
                RawWish::Go
            },
            RawStage::UnlockSlow => {
                let woken = self.unlock_slow(lot, key, now);
                op.stage = RawStage::Idle;
                proof {
                    assert(lot.key_of(me as int) == old(lot).key_of(me as int));
                }
                match woken {
                    None => RawWish::Go,
                    Some(t) => RawWish::Wake(t),
                }
            },
            RawStage::TryLoad => {
                op.state = self.state;
                Self::decide_try(op);
                RawWish::Go
            },
            RawStage::TryAcquire => {
                if hit {
                    self.state = op.state | LOCKED_BIT;
                    op.stage = RawStage::Held;
                    Self::note(lot, key, me);
                } else {
                    op.state = self.state;
                    Self::decide_try(op);
                }
                RawWish::Go
            },
            RawStage::MarkLoad => {
                op.state = self.state;
                Self::decide_mark(op);
                RawWish::Go
            },
            RawStage::Mark => {
                if hit {
                    self.state = op.state | PARKED_BIT;
                    op.stage = RawStage::Idle;
                    op.marked = true;
                } else {
                    op.state = self.state;
                    Self::decide_mark(op);
                }
                RawWish::Go
            },
        }
    }

    /// Marks the thread as having acquired the mutex.
    fn note(lot: &mut ParkingLot, key: usize, me: usize)
        requires
            old(lot).wf(),
            me < old(lot).known(),
        ensures
            final(lot).wf(),
            final(lot).same_queues(old(lot)),
            final(lot).same_but_data(old(lot), me as int),
            final(lot).deadlock_data(me as int).resources@ == old(lot).deadlock_data(
                me as int,
            ).resources@.push(key),
            forall|mutex: &RawMutex| #[trigger]
                raw_mem(mutex, final(lot), key) == raw_mem(mutex, old(lot), key),
            others_kept(old(lot), final(lot), me as int),
            final(lot).key_of(me as int) == old(lot).key_of(me as int),
    {
        lot.acquire_resource(me, key);
        proof {
            assert forall|t: int| 0 <= t < old(lot).known() && t != me implies #[trigger] lot.key_of(t)
                == old(lot).key_of(t) && lot.deadlock_data(t) == old(lot).deadlock_data(t) by {
                assert(lot.same_thread(old(lot), t));
            }
            assert forall|mutex: &RawMutex| #[trigger]
                raw_mem(mutex, lot, key) == raw_mem(mutex, old(lot), key) by {
                lemma_data_apart(old(lot), lot, me as int, mutex, key);
            }
        }
    }

    /// What a thread that wants the mutex does once it has read the state.
    fn decide_lock(op: &mut RawOp) -> (wish: RawWish)
        ensures
            *final(op) == old(op).decide_lock(),
            wish == raw_lock_wish(*old(op)),
    {
        proof {
            lemma_state_bits(op.state);
        }
        if op.state & LOCKED_BIT == 0 {
            op.stage = RawStage::Acquire;
            return RawWish::Go;
        }
        if op.state & PARKED_BIT == 0 {
            // If nobody is parked, try spinning before checking again
            let spin = op.wait.spin();
            if let Spin::Exhausted = spin {
                op.stage = RawStage::SetParked;
                return RawWish::Go;
            }
            op.stage = RawStage::Load;
            if let Spin::Yield = spin {
                return RawWish::Yield;
            }
            return RawWish::Go;
        }
        op.stage = RawStage::Park;
        RawWish::Go
    }

    /// What a thread does that was parked in vain, or unparked without the mutex.
    fn spin_again(op: &mut RawOp) -> (wish: RawWish)
        ensures
            *final(op) == old(op).spin_again(),
            wish == spin_wish(*old(op)),
    {
        let spin = op.wait.spin();
        op.stage = RawStage::Load;
        if let Spin::Yield = spin {
            return RawWish::Yield;
        }
        RawWish::Go
    }

    /// What a thread that was not to wait does once it has read the state.
    fn decide_try(op: &mut RawOp)
        ensures
            *final(op) == old(op).decide_try(),
    {
        proof {
            lemma_state_bits(op.state);
        }
        if op.state & LOCKED_BIT != 0 {
            op.stage = RawStage::Idle;
        } else {
            op.stage = RawStage::TryAcquire;
        }
    }

    /// What a thread that has the parked bit set does once it has read the state.
    fn decide_mark(op: &mut RawOp)
        ensures
            *final(op) == old(op).decide_mark(),
    {
        proof {
            lemma_state_bits(op.state);
        }
        if op.state & LOCKED_BIT == 0 {
            op.stage = RawStage::Idle;
            op.marked = false;
        } else {
            op.stage = RawStage::Mark;
        }
    }
}

/// What parking a thread makes of the flags and tokens of the threads.
proof fn lemma_park_seqs(a: &ParkingLot, b: &ParkingLot, key: usize, me: int, parked: bool)
    requires
        0 <= me < a.known(),
        b.known() == a.known(),
        parked ==> b.asleep(me) && b.token(me) == a.token(me),
        forall|t: int|
            0 <= t < a.known() && !(parked && t == me) ==> #[trigger] b.same_thread(a, t),
    ensures
        Seq::new(b.known(), |t: int| b.asleep(t)) == (if parked {
            Seq::new(a.known(), |t: int| a.asleep(t)).update(me, true)
        } else {
            Seq::new(a.known(), |t: int| a.asleep(t))
        }),
        Seq::new(b.known(), |t: int| b.token(t).0) == Seq::new(a.known(), |t: int| a.token(t).0),
        others_kept(
            a,
            b,
            if parked {
                me
            } else {
                -1
            },
        ),
{
    let x = Seq::new(b.known(), |t: int| b.asleep(t));
    let y = if parked {
        Seq::new(a.known(), |t: int| a.asleep(t)).update(me, true)
    } else {
        Seq::new(a.known(), |t: int| a.asleep(t))
    };
    assert forall|t: int| 0 <= t < a.known() implies x[t] == y[t] by {
        if !(parked && t == me) {
            assert(b.same_thread(a, t));
        }
    }
    assert(x =~= y);
    let u = Seq::new(b.known(), |t: int| b.token(t).0);
    let v = Seq::new(a.known(), |t: int| a.token(t).0);
    assert forall|t: int| 0 <= t < a.known() implies u[t] == v[t] by {
        if !(parked && t == me) {
            assert(b.same_thread(a, t));
        }
    }
    assert(u =~= v);
    assert forall|t: int| 0 <= t < a.known() && !(parked && t == me) implies #[trigger] b.key_of(t)
        == a.key_of(t) && b.deadlock_data(t) == a.deadlock_data(t) by {
        assert(b.same_thread(a, t));
    }
}

impl Mutexable for RawMutex {
    open spec fn is_locked(&self) -> bool {
        is_locked(self.state)
    }

    open spec fn has_waiters(&self) -> bool {
        self.state > 1
    }

    /// The mutex comes last among the resources.
    open spec fn acquired(resources: Seq<usize>, key: usize) -> Seq<usize> {
        resources.push(key)
    }

    /// The thread owns the mutex.
    open spec fn may_release(resources: Seq<usize>, key: usize) -> bool {
        resources.contains(key)
    }

    /// The mutex is owned once less.
    open spec fn released(resources: Seq<usize>, key: usize) -> Seq<usize> {
        without(resources, key)
    }

    fn init() -> (mutex: RawMutex)
        ensures
            mutex.state == 0,
    {
        RawMutex { state: 0 }
    }

    fn lock(&mut self, key: usize, thread: &mut DeadlockData)
        ensures
            final(self).state == old(self).state + 1,
    {
        if self.state == 0 {
            self.state = LOCKED_BIT;
        } else {
            self.lock_slow();
        }
        acquire_resource(thread, key);
    }

    fn try_lock(&mut self, key: usize, thread: &mut DeadlockData) -> (locked: bool)
        ensures
            final(self).state == (if locked {
                (old(self).state + 1) as u8
            } else {
                old(self).state
            }),
    {
        let locked = self.try_take();
        if locked {
            acquire_resource(thread, key);
        }
        locked
    }

    fn unlock(&mut self, key: usize, thread: &mut DeadlockData)
        ensures
            final(self).state == 0,
    {
        release_resource(thread, key);
        self.give_back();
    }
}

/// A free mutex that nobody uses yet is safe.
pub proof fn law_raw_begins(asleep: Seq<bool>, tokens: Seq<usize>)
    requires
        asleep.len() == tokens.len(),
        asleep.len() <= usize::MAX,
    ensures
        RawSys::begin(asleep, tokens).safe(),
{
}

/// Whatever threads do with the mutex, and in whatever order their steps come, the mutex
/// stays safe.
pub proof fn law_any_raw_schedule(s: RawSys, schedule: Seq<RawEvent>)
    requires
        s.safe(),
        s.allows_all(schedule),
    ensures
        s.after_all(schedule).safe(),
        s.after_all(schedule).ops.len() == s.ops.len(),
    decreases schedule.len(),
{
    if schedule.len() > 0 {
        law_raw_event(s, schedule[0]);
        law_any_raw_schedule(s.after(schedule[0]), schedule.skip(1));
    }
}

/// No two threads have the mutex, and its state says that it is locked exactly while one
/// has it.
pub proof fn law_raw_exclusion(
    asleep: Seq<bool>,
    tokens: Seq<usize>,
    schedule: Seq<RawEvent>,
    i: int,
    j: int,
)
    requires
        asleep.len() == tokens.len(),
        asleep.len() <= usize::MAX,
        RawSys::begin(asleep, tokens).allows_all(schedule),
        0 <= i < asleep.len(),
        0 <= j < asleep.len(),
    ensures
        ({
            let s = RawSys::begin(asleep, tokens).after_all(schedule);
            &&& s.holds(i) && s.holds(j) ==> i == j
            &&& is_locked(s.mem.state) <==> s.has_holder()
        }),
{
    let s0 = RawSys::begin(asleep, tokens);
    law_raw_begins(asleep, tokens);
    law_any_raw_schedule(s0, schedule);
    let s = s0.after_all(schedule);
    if i < j {
        assert(!(s.holds(i) && s.holds(j)));
    } else if j < i {
        assert(!(s.holds(j) && s.holds(i)));
    }
    if s.has_holder() {
        let h = choose|h: int| 0 <= h < s.ops.len() && #[trigger] s.holds(h);
        assert(s.op_ok(h));
    }
}

/// What the state of the mutex says at every moment. There never are parked threads while
/// the parked bit is not set; and while threads are parked but the mutex is not locked,
/// some thread runs and tries for it.
pub proof fn law_state_table(s: RawSys)
    requires
        s.safe(),
    ensures
        s.mem.state < 4,
        s.mem.state == 0 ==> !s.has_holder() && s.mem.queue.len() == 0,
        s.mem.state == 1 ==> s.has_holder() && s.mem.queue.len() == 0,
        s.mem.state == 2 ==> !s.has_holder() && (s.mem.queue.len() > 0 ==> s.has_rouser()),
        s.mem.state == 3 ==> s.has_holder(),
{
    if s.has_holder() {
        let h = choose|h: int| 0 <= h < s.ops.len() && #[trigger] s.holds(h);
        assert(s.op_ok(h));
    }
}

/// Threads are unparked in the order in which they were parked: one that is parked goes to
/// the end of the queue, and one that leaves the queue is the one at its front, which is
/// marked as unparked.
pub proof fn law_parked_in_turn(s: RawSys, i: int, spurious: bool, fair: bool)
    requires
        s.safe(),
        0 <= i < s.ops.len(),
    ensures
        ({
            let s2 = s.after(RawEvent::Step(i, spurious, fair));
            ||| s2.mem.queue == s.mem.queue
            ||| s2.mem.queue == s.mem.queue.push(i as usize) && s2.mem.asleep[i]
            ||| s.mem.queue.len() > 0 && s2.mem.queue == s.mem.queue.skip(1)
                && !s2.mem.asleep[s.mem.queue[0] as int]
        }),
{
    if s.mem.queue.len() > 0 {
        assert(s.queued(0));
    }
}

/// A fair unlock hands the mutex over to the thread that has been parked for longest: it is
/// never unlocked in between.
pub proof fn law_handoff(s: RawSys, i: int, spurious: bool)
    requires
        s.safe(),
        0 <= i < s.ops.len(),
        s.ops[i].stage is UnlockSlow,
        s.mem.queue.len() > 0,
    ensures
        ({
            let s2 = s.after(RawEvent::Step(i, spurious, true));
            &&& is_locked(s2.mem.state)
            &&& s2.holds(s.mem.queue[0] as int)
            &&& !s2.holds(i)
        }),
{
    assert(s.op_ok(i));
    assert(s.queued(0));
}

/// A mutex with all threads that use it.
pub struct RawThreads {
    mutex: RawMutex,
    lot: ParkingLot,
    key: usize,
    ops: Vec<RawOp>,
}

impl RawThreads {
    /// The mutex and what every thread is about to do with it.
    pub closed spec fn sys(&self) -> RawSys {
        RawSys { mem: raw_mem(&self.mutex, &self.lot, self.key), ops: self.ops@ }
    }

    /// The resources that a thread is marked as having.
    pub closed spec fn resources(&self, i: int) -> Seq<usize> {
        self.lot.deadlock_data(i).resources@
    }

    /// The key that threads are parked on.
    pub closed spec fn parking_key(&self) -> usize {
        self.key
    }

    /// Whether an unlock is to be fair.
    pub closed spec fn fair(&self, now: Moment) -> bool {
        self.lot.fair(self.key).due(now)
    }

    /// The mutex is safe, threads are parked for it alone, and a thread is marked as having
    /// it exactly while it does.
    pub closed spec fn wf(&self) -> bool {
        &&& self.lot.wf()
        &&& self.ops@.len() == self.lot.known()
        &&& self.sys().safe()
        &&& forall|k: usize| k != self.key ==> #[trigger] self.lot.waiting(k).len() == 0
        &&& forall|i: int|
            0 <= i < self.ops@.len() ==> #[trigger] self.resources(i) == (if self.ops@[i].stage is Held {
                seq![self.key]
            } else {
                Seq::empty()
            })
    }

    /// A free mutex that `threads` threads use.
    pub fn new(threads: usize, key: usize, now: Moment) -> (all: RawThreads)
        requires
            threads_fit(threads as int),
            now.wf(),
        ensures
            all.wf(),
            all.parking_key() == key,
            all.sys().ops == Seq::new(threads as nat, |i: int| RawOp::idle()),
            all.sys().mem.state == 0,
            all.sys().mem.queue == Seq::<usize>::empty(),
    {
        let mut lot = ParkingLot::new();
        let mut ops: Vec<RawOp> = Vec::new();
        for n in 0..threads
            invariant
                threads_fit(threads as int),
                now.wf(),
                lot.wf(),
                lot.known() == n,
                lot.alive() == n,
                ops@ =~= Seq::new(n as nat, |i: int| RawOp::idle()),
                forall|k: usize| #[trigger] lot.waiting(k) == Seq::<usize>::empty(),
                forall|i: int|
                    0 <= i < n ==> (#[trigger] lot.deadlock_data(i)).resources@ == Seq::<
                        usize,
                    >::empty(),
        {
            let ghost before = lot;
            let _t: usize = lot.register(now);
            ops.push(
                RawOp { stage: RawStage::Idle, state: 0, wait: SpinWait::new(), marked: false },
            );
            proof {
                assert forall|k: usize| #[trigger] lot.waiting(k) == Seq::<usize>::empty() by {
                    assert(lot.waiting(k) == before.waiting(k));
                }
                assert forall|i: int| 0 <= i < n + 1 implies (
                #[trigger] lot.deadlock_data(i)).resources@ == Seq::<usize>::empty() by {
                    if i < n {
                        assert(lot.same_thread(&before, i));
                    }
                }
            }
        }
        let all = RawThreads { mutex: RawMutex { state: 0 }, lot, key, ops };
        proof {
            law_raw_begins(all.sys().mem.asleep, all.sys().mem.tokens);
            assert(all.sys() =~= RawSys::begin(all.sys().mem.asleep, all.sys().mem.tokens));
            assert forall|i: int| 0 <= i < all.ops@.len() implies #[trigger] all.resources(i)
                == Seq::<usize>::empty() by {
                assert(all.lot.deadlock_data(i).resources@ == Seq::<usize>::empty());
            }
        }
        all
    }

    /// Thread `i` begins to lock. Does nothing unless it neither has nor wants the mutex.
    pub fn begin_lock(&mut self, i: usize)
        requires
            old(self).wf(),
            i < old(self).sys().ops.len(),
        ensures
            final(self).wf(),
            final(self).parking_key() == old(self).parking_key(),
            final(self).sys() == (if old(self).sys().ops[i as int].stage is Idle {
                old(self).sys().after(RawEvent::Lock(i as int))
            } else {
                old(self).sys()
            }),
    {
        if let RawStage::Idle = self.ops[i].stage {
            self.turn(i, RawStage::Fast, Ghost(RawEvent::Lock(i as int)));
        }
    }

    /// Thread `i` begins to try to lock. Does nothing unless it neither has nor wants the
    /// mutex.
    pub fn begin_try_lock(&mut self, i: usize)
        requires
            old(self).wf(),
            i < old(self).sys().ops.len(),
        ensures
            final(self).wf(),
            final(self).parking_key() == old(self).parking_key(),
            final(self).sys() == (if old(self).sys().ops[i as int].stage is Idle {
                old(self).sys().after(RawEvent::TryLock(i as int))
            } else {
                old(self).sys()
            }),
    {
        if let RawStage::Idle = self.ops[i].stage {
            self.turn(i, RawStage::TryLoad, Ghost(RawEvent::TryLock(i as int)));
        }
    }

    /// Thread `i` begins to set the parked bit. Does nothing unless it neither has nor wants
    /// the mutex.
    pub fn begin_mark(&mut self, i: usize)
        requires
            old(self).wf(),
            i < old(self).sys().ops.len(),
        ensures
            final(self).wf(),
            final(self).parking_key() == old(self).parking_key(),
            final(self).sys() == (if old(self).sys().ops[i as int].stage is Idle {
                old(self).sys().after(RawEvent::Mark(i as int))
            } else {
                old(self).sys()
            }),
    {
        if let RawStage::Idle = self.ops[i].stage {
            self.turn(i, RawStage::MarkLoad, Ghost(RawEvent::Mark(i as int)));
        }
    }

    /// An idle thread turns to something else.
    fn turn(&mut self, i: usize, stage: RawStage, event: Ghost<RawEvent>)
        requires
            old(self).wf(),
            i < old(self).sys().ops.len(),
            old(self).sys().ops[i as int].stage is Idle,
            stage !is Held,
            old(self).sys().allows(event@),
            old(self).sys().after(event@) == old(self).sys().turned(i as int, stage),
        ensures
            final(self).wf(),
            final(self).parking_key() == old(self).parking_key(),
            final(self).sys() == old(self).sys().after(event@),
    {
        let ghost s = self.sys();
        self.ops[i].stage = stage;
        proof {
            law_raw_event(s, event@);
            assert(self.sys() =~= s.turned(i as int, stage));
            assert forall|t: int| 0 <= t < self.ops@.len() implies #[trigger] self.resources(t)
                == (if self.ops@[t].stage is Held {
                seq![self.key]
            } else {
                Seq::empty()
            }) by {
                assert(old(self).resources(t) == self.resources(t));
            }
        }
    }

    /// Thread `i` begins to unlock. Does nothing unless it has the mutex.
    pub fn begin_unlock(&mut self, i: usize)
        requires
            old(self).wf(),
            i < old(self).sys().ops.len(),
        ensures
            final(self).wf(),
            final(self).parking_key() == old(self).parking_key(),
            final(self).sys() == (if old(self).sys().ops[i as int].stage is Held {
                old(self).sys().after(RawEvent::Unlock(i as int))
            } else {
                old(self).sys()
            }),
    {
        if let RawStage::Held = self.ops[i].stage {
            let ghost s = self.sys();
            let ghost before = self.lot;
            assert(self.resources(i as int) == seq![self.key]);
            assert(self.resources(i as int)[0] == self.key);
            self.lot.release_resource(i, self.key);
            self.ops[i].stage = RawStage::Unlock;
            proof {
                law_raw_event(s, RawEvent::Unlock(i as int));
                lemma_data_apart(&before, &self.lot, i as int, &self.mutex, self.key);
                assert(self.sys() =~= s.after(RawEvent::Unlock(i as int)));
                assert(seq![self.key] =~= Seq::<usize>::empty().push(self.key));
                crate::deadlock::law_release_undoes_acquire(Seq::empty(), self.key);
                assert forall|t: int| 0 <= t < self.ops@.len() implies #[trigger] self.resources(t)
                    == (if self.ops@[t].stage is Held {
                    seq![self.key]
                } else {
                    Seq::empty()
                }) by {
                    assert(old(self).resources(t) == before.deadlock_data(t).resources@);
                    if t != i {
                        assert(self.lot.same_thread(&before, t));
                    }
                }
                assert forall|k: usize| k != self.key implies #[trigger] self.lot.waiting(k).len()
                    == 0 by {
                    assert(self.lot.waiting(k) == before.waiting(k));
                }
            }
        }
    }

    /// Thread `i` takes its next step. Returns what it is to do before it goes on.
    pub fn step(&mut self, i: usize, spurious: bool, now: Moment) -> (wish: RawWish)
        requires
            old(self).wf(),
            i < old(self).sys().ops.len(),
            now.wf(),
        ensures
            final(self).wf(),
            final(self).parking_key() == old(self).parking_key(),
            final(self).sys() == old(self).sys().after(
                RawEvent::Step(i as int, spurious, old(self).fair(now)),
            ),
            wish == raw_wish(
                old(self).sys().mem,
                old(self).sys().ops[i as int],
                i as int,
                spurious,
            ),
    {
        let ghost s = self.sys();
        let ghost before = self.lot;
        let ghost fair = self.fair(now);
        let mut op = self.ops[i];
        proof {
            law_raw_event(s, RawEvent::Step(i as int, spurious, fair));
            assert(s.op_ok(i as int));
            if op.stage is Park && self.lot.is_parked(i) {
                let key = self.lot.key_of(i as int);
                if key == self.key {
                    let q = choose|q: int| 0 <= q < s.mem.queue.len() && s.mem.queue[q] == i;
                    assert(s.queued(q));
                } else {
                    assert(self.lot.waiting(key).len() == 0);
                }
            }
        }
        let ghost old_op = op;
        let wish = self.mutex.step(&mut self.lot, self.key, &mut op, i, spurious, now);
        self.ops[i] = op;
        proof {
            assert(self.sys() =~= s.after(RawEvent::Step(i as int, spurious, fair)));
            assert forall|k: usize| k != self.key implies #[trigger] self.lot.waiting(k).len()
                == 0 by {
                assert(self.lot.waiting(k) == before.waiting(k));
            }
            assert forall|t: int| 0 <= t < self.ops@.len() implies #[trigger] self.resources(t)
                == (if self.ops@[t].stage is Held {
                seq![self.key]
            } else {
                Seq::empty()
            }) by {
                assert(old(self).resources(t) == before.deadlock_data(t).resources@);
                if t != i {
                    assert(self.lot.key_of(t) == before.key_of(t));
                } else if just_got(old_op, op) {
                    assert(Seq::<usize>::empty().push(self.key) =~= seq![self.key]);
                }
            }
        }
        wish
    }

    /// Whether thread `i` has taken the mutex and not begun to unlock it.
    pub fn has_mutex(&self, i: usize) -> (yes: bool)
        requires
            self.wf(),
            i < self.sys().ops.len(),
        ensures
            yes == (self.sys().ops[i as int].stage is Held),
    {
        if let RawStage::Held = self.ops[i].stage {
            true
        } else {
            false
        }
    }

    /// Whether thread `i` neither has nor wants the mutex.
    pub fn is_idle(&self, i: usize) -> (yes: bool)
        requires
            self.wf(),
            i < self.sys().ops.len(),
        ensures
            yes == (self.sys().ops[i as int].stage is Idle),
    {
        if let RawStage::Idle = self.ops[i].stage {
            true
        } else {
            false
        }
    }

    /// The state of the mutex.
    pub fn state(&self) -> (state: u8)
        ensures
            state == self.sys().mem.state,
    {
        self.mutex.state
    }
}

/// What the mutex and the threads come to is what they are: the state, the threads that wait on
/// the key, and of each thread whether it is to sleep and what it was told.
pub proof fn law_raw_mem_is_what_is_there(mutex: RawMutex, lot: ParkingLot, key: usize, t: int)
    requires
        0 <= t < lot.known(),
    ensures
        raw_mem(&mutex, &lot, key).state == mutex.state,
        raw_mem(&mutex, &lot, key).queue == lot.waiting(key),
        raw_mem(&mutex, &lot, key).asleep.len() == lot.known(),
        raw_mem(&mutex, &lot, key).tokens.len() == lot.known(),
        raw_mem(&mutex, &lot, key).asleep[t] == lot.asleep(t),
        raw_mem(&mutex, &lot, key).tokens[t] == lot.token(t).0,
{
}

/// A thread that acquires the mutex owns it last of all, may release it then, and owns what it
/// owned before once it has.
pub proof fn law_mutex_is_noted(resources: Seq<usize>, key: usize, mutex: RawMutex)
    ensures
        RawMutex::acquired(resources, key).len() == resources.len() + 1,
        RawMutex::acquired(resources, key).last() == key,
        RawMutex::acquired(resources, key).drop_last() == resources,
        RawMutex::may_release(resources, key) <==> resources.contains(key),
        RawMutex::may_release(RawMutex::acquired(resources, key), key),
        RawMutex::released(RawMutex::acquired(resources, key), key) == resources,
        resources.contains(key) ==> RawMutex::released(resources, key).to_multiset()
            == resources.to_multiset().remove(key),
        mutex.is_locked() <==> mutex.state % 2 == 1,
        mutex.has_waiters() <==> mutex.state > 1,
{
    assert(resources.push(key)[resources.len() as int] == key);
    assert(resources.push(key).drop_last() =~= resources);
    crate::deadlock::law_release_undoes_acquire(resources, key);
    if resources.contains(key) {
        crate::deadlock::law_release_takes_one(resources, key);
    }
}

/// Where the others are kept, each of them is parked on what it was parked on, and owns what it
/// owned.
pub proof fn law_others_are_kept(before: ParkingLot, after: ParkingLot, me: int, t: int)
    requires
        others_kept(&before, &after, me),
        0 <= t < before.known(),
        t != me,
    ensures
        after.key_of(t) == before.key_of(t),
        after.deadlock_data(t) == before.deadlock_data(t),
{
    assert(after.key_of(t) == before.key_of(t));
}

/// An unlock that unparks nobody clears the mutex. One that unparks a thread keeps the mutex locked
/// exactly if it is fair, and keeps the parked bit exactly if more threads are parked; it tells
/// the thread whether the mutex is its own.
pub proof fn law_handed_over(state: u8, result: UnparkResult)
    requires
        state == 3,
        result.unparked_threads == 0 ==> !result.have_more_threads,
    ensures
        ({
            let (next, token) = RawMutex::handed(state, result);
            let fair = result.unparked_threads > 0 && result.be_fair;
            &&& next % 2 == 1 <==> fair
            &&& next >= 2 <==> result.have_more_threads
            &&& next <= 3
            &&& token == TOKEN_HANDOFF <==> fair
            &&& token == TOKEN_HANDOFF || token == TOKEN_NORMAL
        }),
{
}

/// A thread gets the mutex by a step exactly if it has it after the step and did not before.
pub proof fn law_just_got(before: RawOp, now: RawOp)
    ensures
        just_got(before, now) <==> now.stage is Held && before.stage !is Held,
{
}

/// A thread is marked as having the mutex, and nothing else, exactly while it has it and has not
/// begun to unlock it.
pub proof fn law_holder_is_noted(all: RawThreads, i: int)
    requires
        all.wf(),
        0 <= i < all.sys().ops.len(),
    ensures
        all.sys().ops[i].stage is Held ==> all.resources(i) == seq![all.parking_key()],
        all.sys().ops[i].stage !is Held ==> all.resources(i).len() == 0,
        all.sys().safe(),
{
}

/// What deadlock detection keeps of a thread has nothing to do with the mutex.
proof fn lemma_data_apart(
    a: &ParkingLot,
    b: &ParkingLot,
    t: int,
    mutex: &RawMutex,
    key: usize,
)
    requires
        b.same_queues(a),
        b.same_but_data(a, t),
        0 <= t < a.known(),
    ensures
        raw_mem(mutex, b, key) == raw_mem(mutex, a, key),
{
    let x = raw_mem(mutex, a, key);
    let y = raw_mem(mutex, b, key);
    assert forall|u: int| 0 <= u < a.known() implies x.asleep[u] == y.asleep[u] && x.tokens[u]
        == y.tokens[u] by {
        if u != t {
            assert(b.same_thread(a, u));
        }
    }
    assert(x.asleep =~= y.asleep);
    assert(x.tokens =~= y.tokens);
    assert(b.waiting(key) == a.waiting(key));
}

} // verus!
