//! A stack of bounded size beside a queue, in which threads put aside what they could not
//! deal with at once.

use vstd::prelude::*;

use crate::deadlock::DeadlockData;
use crate::mutex::{Mutexable, SmallMutex};
use crate::raw_mutex::{Mootex, MootexGuard, RawMutex};

verus! {

/// `num_cpus::get`: the number of available processors of the current system. It is at
/// least one.
pub assume_specification[ num_cpus::get ]() -> (n: usize)
    ensures
        n >= 1,
;

/// The number is one that `num_cpus::get` gives for the processors of the system.
pub open spec fn processors(n: usize) -> bool {
    call_ensures(num_cpus::get, (), n)
}

/// How many threads are expected to act upon a queue. It is asked for once and kept.
#[derive(Debug)]
pub struct ThreadCount {
    kept: Option<usize>,
}

impl ThreadCount {
    /// The number that is kept, once it was asked for.
    pub closed spec fn kept(&self) -> Option<usize> {
        self.kept
    }

    /// Nobody has asked yet.
    pub fn new() -> (count: ThreadCount)
        ensures
            count.kept() is None,
    {
        ThreadCount { kept: None }
    }

    /// How many threads are expected: one for each processor that there was when this was first
    /// asked.
    pub fn num_threads(&mut self) -> (n: usize)
        ensures
            final(self).kept() == Some(n),
            old(self).kept() matches Some(kept) ==> n == kept,
            old(self).kept() is None ==> n >= 1 && processors(n),
    {
        match self.kept {
            Some(n) => n,
            None => {
                let n: usize = num_cpus::get();
                self.kept = Some(n);
                n
            },
        }
    }
}

/// How many threads are expected to act upon a queue: one for each processor. A
/// [`ThreadCount`] gives the same number whenever it is asked.
pub fn num_threads() -> (n: usize)
    ensures
        n >= 1,
        processors(n),
{
    let mut count = ThreadCount::new();
    count.num_threads()
}

/// Holds up to a fixed number of items, behind a lock of its own.
#[derive(Debug)]
pub struct PtrGuard<T> {
    pub guard: Vec<T>,
    pub cap: usize,
    pub lock: Mootex<()>,
}

impl<T> View for PtrGuard<T> {
    type V = Seq<T>;

    /// The items, in the order in which they were pushed.
    open spec fn view(&self) -> Seq<T> {
        self.guard@
    }
}

impl<T> PtrGuard<T> {
    /// How many items there may be.
    pub open spec fn capacity(&self) -> usize {
        self.cap
    }

    /// Whether the guard is locked.
    pub open spec fn is_locked(&self) -> bool {
        self.lock.raw.is_locked()
    }

    /// There are not too many items, and nobody is parked on the lock.
    pub open spec fn wf(&self) -> bool {
        &&& self.guard@.len() <= self.cap
        &&& !self.lock.raw.has_waiters()
    }

    /// An empty guard for one item of each expected thread.
    pub fn new() -> (guard: PtrGuard<T>)
        ensures
            guard.wf(),
            guard@ == Seq::<T>::empty(),
            guard.capacity() >= 1,
            processors(guard.capacity()),
            !guard.is_locked(),
    {
        let cap: usize = num_threads();
        PtrGuard::with_threads(cap)
    }

    /// An empty guard for one item of each thread.
    pub fn with_threads(threads: usize) -> (guard: PtrGuard<T>)
        ensures
            guard.wf(),
            guard@ == Seq::<T>::empty(),
            guard.capacity() == threads,
            !guard.is_locked(),
    {
        PtrGuard { guard: Vec::new(), cap: threads, lock: SmallMutex::new(()) }
    }

    /// Tries to lock the guard; if that cannot be done, false is returned.
    pub fn try_lock(&mut self, key: usize, thread: &mut DeadlockData) -> (locked: bool)
        requires
            old(self).wf(),
        ensures
            locked ==> final(thread).owns_instead(
                old(thread),
                RawMutex::acquired(old(thread).resources@, key),
            ),
            !locked ==> *final(thread) == *old(thread),
            locked == !old(self).is_locked(),
            final(self).is_locked(),
            final(self).wf(),
            final(self)@ == old(self)@,
            final(self).capacity() == old(self).capacity(),
    {
        self.lock.try_lock(key, thread)
    }

    /// Locks the guard.
    pub fn lock(&mut self, key: usize, thread: &mut DeadlockData) -> (held: MootexGuard<'_, ()>)
        requires
            old(self).wf(),
            !old(self).is_locked(),
        ensures
            held.key == key,
            final(thread).owns_instead(
                old(thread),
                RawMutex::acquired(old(thread).resources@, key),
            ),
            held.mutex.raw.is_locked(),
            !held.mutex.raw.has_waiters(),
            final(self).lock == *final(held.mutex),
            final(self).guard == old(self).guard,
            final(self).cap == old(self).cap,
    {
        self.lock.lock(key, thread)
    }

    /// Unlocks the guard.
    pub fn unlock(&mut self, key: usize, thread: &mut DeadlockData)
        requires
            old(self).wf(),
            RawMutex::may_release(old(thread).resources@, key),
        ensures
            final(thread).owns_instead(
                old(thread),
                RawMutex::released(old(thread).resources@, key),
            ),
            !final(self).is_locked(),
            final(self).wf(),
            final(self)@ == old(self)@,
            final(self).capacity() == old(self).capacity(),
    {
        self.lock.force_unlock(key, thread)
    }

    /// Locks the guard if it is not locked, for a thread that keeps its own record of that.
    /// Returns whether it was not.
    pub(crate) fn try_take(&mut self) -> (taken: bool)
        requires
            old(self).wf(),
        ensures
            taken == !old(self).is_locked(),
            final(self).is_locked(),
            final(self).wf(),
            final(self)@ == old(self)@,
            final(self).capacity() == old(self).capacity(),
    {
        self.lock.raw.try_take()
    }

    /// Unlocks the guard, for a thread that keeps its own record of that.
    pub(crate) fn give_back(&mut self)
        requires
            old(self).wf(),
        ensures
            !final(self).is_locked(),
            final(self).wf(),
            final(self)@ == old(self)@,
            final(self).capacity() == old(self).capacity(),
    {
        self.lock.raw.give_back()
    }

    /// How many items there are.
    pub fn len(&self) -> (len: usize)
        ensures
            len == self@.len(),
    {
        self.guard.len()
    }

    /// Whether there are no items.
    pub fn is_empty(&self) -> (empty: bool)
        ensures
            empty == (self@.len() == 0),
    {
        self.guard.len() == 0
    }

    /// Puts an item on top, or hands it back if the guard is full.
    pub fn push(&mut self, node: T) -> (pushed: Result<(), T>)
        requires
            old(self).wf(),
        ensures
            final(self).wf(),
            final(self).cap == old(self).cap,
            final(self).lock == old(self).lock,
            old(self)@.len() == old(self).capacity() ==> pushed == Err::<(), T>(node)
                && final(self)@ == old(self)@,
            old(self)@.len() < old(self).capacity() ==> pushed is Ok && final(self)@ == old(
                self,
            )@.push(node),
    {
        if self.guard.len() == self.cap {
            Err(node)
        } else {
            self.guard.push(node);
            Ok(())
        }
    }

    /// Takes the topmost item: the one that was pushed last.
    pub fn pop(&mut self) -> (popped: Result<T, ()>)
        requires
            old(self).wf(),
        ensures
            final(self).wf(),
            final(self).cap == old(self).cap,
            final(self).lock == old(self).lock,
            old(self)@.len() == 0 ==> popped == Err::<T, ()>(()) && final(self)@ == old(self)@,
            old(self)@.len() > 0 ==> popped == Ok::<T, ()>(old(self)@.last()) && final(self)@ == old(
                self,
            )@.drop_last(),
    {
        match self.guard.pop() {
            None => Err(()),
            Some(node) => Ok(node),
        }
    }
}

/// A guard for one item of each expected thread.
pub fn pg<T>() -> (guard: PtrGuard<T>)
    ensures
        guard.wf(),
        guard@ == Seq::<T>::empty(),
        guard.capacity() >= 1,
        processors(guard.capacity()),
        !guard.is_locked(),
{
    PtrGuard::new()
}

/// A guard for one item of each thread.
pub fn pg_with<T>(cap: usize) -> (guard: PtrGuard<T>)
    ensures
        guard.wf(),
        guard@ == Seq::<T>::empty(),
        guard.capacity() == cap,
        !guard.is_locked(),
{
    PtrGuard::with_threads(cap)
}

/// How many threads are expected is what the system said of its processors, and nothing else.
pub proof fn law_threads_are_processors(n: usize)
    requires
        processors(n),
    ensures
        call_ensures(num_cpus::get, (), n),
        n >= 1,
{
}

/// What is taken out of a guard is what was put into it, the last first.
pub proof fn law_last_in_first_out<T>(items: Seq<T>, node: T)
    ensures
        items.push(node).last() == node,
        items.push(node).drop_last() == items,
{
    assert(items.push(node).drop_last() =~= items);
}

} // verus!
