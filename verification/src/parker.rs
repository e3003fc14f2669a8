//! Putting a thread to sleep until another wakes it up: the word that says whether a
//! thread is to sleep, and for how long it sleeps.

use vstd::prelude::*;

verus! {

/// Nanoseconds in a second.
pub const NANOS_PER_SEC: u32 = 1_000_000_000;

/// A point in time: seconds and nanoseconds since some fixed beginning.
#[derive(Clone, Copy, Debug, PartialEq, Eq, Structural)]
pub struct Moment {
    pub secs: u64,
    pub nanos: u32,
}

impl Moment {
    /// The nanoseconds are less than a second.
    pub open spec fn formed(self) -> bool {
        self.nanos < NANOS_PER_SEC
    }

    /// A moment that a clock can tell, which is before the last second that can be counted.
    pub open spec fn wf(self) -> bool {
        self.formed() && self.secs < u64::MAX
    }

    /// Nanoseconds since the beginning.
    pub open spec fn total(self) -> int {
        self.secs * NANOS_PER_SEC + self.nanos
    }

    /// Whether this moment is later than the other.
    pub fn is_after(&self, other: &Moment) -> (after: bool)
        requires
            self.formed(),
            other.formed(),
        ensures
            after == (self.total() > other.total()),
    {
        self.secs > other.secs || (self.secs == other.secs && self.nanos > other.nanos)
    }

    /// The moment less than a second after this one.
    pub fn plus_nanos(&self, nanos: u32) -> (later: Moment)
        requires
            self.wf(),
            nanos < NANOS_PER_SEC,
        ensures
            later.formed(),
            later.total() == self.total() + nanos,
    {
        let sum: u32 = self.nanos + nanos;
        if sum >= NANOS_PER_SEC {
            Moment { secs: self.secs + 1, nanos: sum - NANOS_PER_SEC }
        } else {
            Moment { secs: self.secs, nanos: sum }
        }
    }

    /// The time from an earlier moment to this one, as seconds and nanoseconds.
    pub fn since(&self, earlier: &Moment) -> (span: Moment)
        requires
            self.formed(),
            earlier.formed(),
            earlier.total() <= self.total(),
        ensures
            span.formed(),
            span.total() == self.total() - earlier.total(),
    {
        if self.nanos >= earlier.nanos {
            Moment { secs: self.secs - earlier.secs, nanos: self.nanos - earlier.nanos }
        } else {
            Moment {
                secs: self.secs - earlier.secs - 1,
                nanos: self.nanos + NANOS_PER_SEC - earlier.nanos,
            }
        }
    }
}

/// Moments are counted in nanoseconds: a nanosecond more is one more, a second more is a
/// thousand million more, and of two moments the one with more seconds, or with as many and more
/// nanoseconds, is the later.
pub proof fn law_moments_in_nanoseconds(a: Moment, b: Moment)
    requires
        a.formed(),
        b.formed(),
    ensures
        (Moment { secs: 0, nanos: 0 }).total() == 0,
        a.nanos + 1 < 1_000_000_000 ==> (Moment { nanos: (a.nanos + 1) as u32, ..a }).total()
            == a.total() + 1,
        a.secs < u64::MAX ==> (Moment { secs: (a.secs + 1) as u64, ..a }).total() == a.total()
            + 1_000_000_000,
        a.total() > b.total() <==> a.secs > b.secs || (a.secs == b.secs && a.nanos > b.nanos),
        a.total() == b.total() <==> a == b,
        a.nanos < 1_000_000_000,
{
}

/// What a thread that parks until some moment does next.
#[derive(Clone, Copy, Debug, PartialEq, Eq, Structural)]
pub enum ParkWait {
    /// Go on: the thread was unparked.
    Unparked,
    /// Go on: the moment has come.
    TimedOut,
    /// Sleep until woken up; the time is too long to be measured.
    Sleep,
    /// Sleep until woken up, but no longer than this many seconds and nanoseconds.
    SleepFor(i64, u32),
}

/// A thread that is about to be unparked. It is marked as unparked while the queue that
/// it was in is locked, but woken up only after the queue is unlocked.
pub trait UnparkHandleT: Sized {
    /// How many sleepers on the thread's word are to be woken up.
    fn unpark(self) -> (sleepers: u32)
        ensures
            sleepers == 1,
    ;
}

/// What puts a thread to sleep.
pub trait ThreadParkerT: Sized {
    type UnparkHandle: UnparkHandleT;

    /// Whether a new parker for each wait is cheaper than one kept for the thread.
    const IS_CHEAP_TO_CONSTRUCT: bool;

    /// Whether the thread is to sleep.
    spec fn parked(&self) -> bool;

    /// A parker whose thread is not to sleep.
    fn new() -> (parker: Self)
        ensures
            !parker.parked(),
    ;

    /// Prepares the parker. This is to be called before the thread is added to a queue.
    fn prepare_park(&mut self)
        ensures
            final(self).parked(),
    ;

    /// Checks if the park timed out. This is to be called while the queue is locked,
    /// after `park_until` has said so.
    fn timed_out(&self) -> (out: bool)
        ensures
            out == self.parked(),
    ;

    /// Whether a thread that parks is to sleep (on) until it is woken up.
    fn park(&self) -> (sleep: bool)
        ensures
            sleep == self.parked(),
    ;

    /// What a thread does next that parks until it is unparked or `timeout` has come.
    fn park_until(&self, timeout: Moment, now: Moment) -> (wait: ParkWait)
        requires
            timeout.formed(),
            now.formed(),
        ensures
            !self.parked() ==> wait == ParkWait::Unparked,
            self.parked() && timeout.total() <= now.total() ==> wait == ParkWait::TimedOut,
            self.parked() && timeout.total() > now.total() ==> ({
                let left = timeout.total() - now.total();
                let secs = left / NANOS_PER_SEC as int;
                if secs > i64::MAX {
                    wait == ParkWait::Sleep
                } else {
                    wait == ParkWait::SleepFor(secs as i64, (left % NANOS_PER_SEC as int) as u32)
                }
            }),
    ;

    /// Marks the thread as unparked. This is to be called while the queue is locked.
    fn unpark_lock(&mut self) -> (handle: Self::UnparkHandle)
        ensures
            !final(self).parked(),
    ;
}

/// Puts a thread to sleep on a word of its own.
#[derive(Debug)]
pub struct ThreadParker {
    pub futex: i32,
}

/// A thread that is marked as unparked and has yet to be woken up.
#[derive(Debug)]
pub struct UnparkHandle {
    mark: (),
}

impl UnparkHandleT for UnparkHandle {
    fn unpark(self) -> (sleepers: u32) {
        1
    }
}

impl ThreadParkerT for ThreadParker {
    type UnparkHandle = UnparkHandle;

    const IS_CHEAP_TO_CONSTRUCT: bool = true;

    open spec fn parked(&self) -> bool {
        self.futex != 0
    }

    fn new() -> (parker: ThreadParker)
        ensures
            parker == (ThreadParker { futex: 0 }),
    {
        ThreadParker { futex: 0 }
    }

    fn prepare_park(&mut self)
        ensures
            *final(self) == (ThreadParker { futex: 1 }),
    {
        self.futex = 1;
    }

    fn timed_out(&self) -> (out: bool) {
        self.futex != 0
    }

    fn park(&self) -> (sleep: bool) {
        self.futex != 0
    }

    fn park_until(&self, timeout: Moment, now: Moment) -> (wait: ParkWait) {
        if self.futex == 0 {
            return ParkWait::Unparked;
        }
        if !timeout.is_after(&now) {
            return ParkWait::TimedOut;
        }
        let diff = timeout.since(&now);
        proof {
            vstd::arithmetic::div_mod::lemma_fundamental_div_mod_converse(
                diff.total(),
                NANOS_PER_SEC as int,
                diff.secs as int,
                diff.nanos as int,
            );
        }
        if diff.secs > i64::MAX as u64 {
            return ParkWait::Sleep;
        }
        ParkWait::SleepFor(diff.secs as i64, diff.nanos)
    }

    fn unpark_lock(&mut self) -> (handle: UnparkHandle)
        ensures
            *final(self) == (ThreadParker { futex: 0 }),
    {
        self.futex = 0;
        UnparkHandle { mark: () }
    }
}

} // verus!
