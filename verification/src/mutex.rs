//! A value behind a mutex, and the guards through which it is used while the mutex is
//! locked.

use vstd::prelude::*;

use crate::deadlock::DeadlockData;

verus! {

/// What locks and unlocks a mutex that the caller has to itself: nobody else can lock or
/// unlock it meanwhile. What is kept of the thread that does so tells which resources it owns;
/// the mutex is known there by its key.
pub trait Mutexable: Sized {
    /// Whether the mutex is locked.
    spec fn is_locked(&self) -> bool;

    /// Whether threads are parked, or about to park, to wait for the mutex.
    spec fn has_waiters(&self) -> bool;

    /// The resources that a thread owns after it has acquired the mutex.
    spec fn acquired(resources: Seq<usize>, key: usize) -> Seq<usize>;

    /// Whether a thread that owns these resources may release the mutex.
    spec fn may_release(resources: Seq<usize>, key: usize) -> bool;

    /// The resources that a thread owns after it has released the mutex.
    spec fn released(resources: Seq<usize>, key: usize) -> Seq<usize>;

    /// A mutex that is not locked.
    fn init() -> (mutex: Self)
        ensures
            !mutex.is_locked(),
            !mutex.has_waiters(),
    ;

    /// Acquires this mutex. Nobody could release one that is locked.
    fn lock(&mut self, key: usize, thread: &mut DeadlockData)
        requires
            !old(self).is_locked(),
        ensures
            final(self).is_locked(),
            final(self).has_waiters() == old(self).has_waiters(),
            final(thread).owns_instead(
                old(thread),
                Self::acquired(old(thread).resources@, key),
            ),
    ;

    /// Tries to lock the mutex; if that cannot be done, false is returned.
    fn try_lock(&mut self, key: usize, thread: &mut DeadlockData) -> (locked: bool)
        ensures
            locked == !old(self).is_locked(),
            final(self).is_locked(),
            final(self).has_waiters() == old(self).has_waiters(),
            locked ==> final(thread).owns_instead(
                old(thread),
                Self::acquired(old(thread).resources@, key),
            ),
            !locked ==> *final(thread) == *old(thread),
    ;

    /// Releases the mutex.
    fn unlock(&mut self, key: usize, thread: &mut DeadlockData)
        requires
            !old(self).has_waiters(),
            Self::may_release(old(thread).resources@, key),
        ensures
            !final(self).is_locked(),
            !final(self).has_waiters(),
            final(thread).owns_instead(
                old(thread),
                Self::released(old(thread).resources@, key),
            ),
    ;
}

/// A value behind a mutex.
#[derive(Debug)]
pub struct SmallMutex<M: Mutexable, T> {
    pub raw: M,
    pub data: T,
}

/// Gives access to the value of a locked mutex. The mutex stays locked until the guard is
/// given up by `MutexGuard::unlock`.
#[must_use]
#[derive(Debug)]
pub struct MutexGuard<'g, M: Mutexable, T> {
    pub mutex: &'g mut SmallMutex<M, T>,
    /// By which the mutex is known.
    pub key: usize,
}

/// Gives access to a part of the value of a locked mutex. The mutex stays locked until the
/// guard is given up by `MapMutexGuard::unlock`.
#[must_use]
#[derive(Debug)]
pub struct MapMutexGuard<'g, M: Mutexable, T> {
    pub raw: &'g mut M,
    pub data: &'g mut T,
    /// By which the mutex is known.
    pub key: usize,
}

impl<M: Mutexable, T> SmallMutex<M, T> {
    /// Puts a value behind a mutex that is not locked.
    pub fn new(val: T) -> (mutex: SmallMutex<M, T>)
        ensures
            mutex.data == val,
            !mutex.raw.is_locked(),
            !mutex.raw.has_waiters(),
    {
        SmallMutex { raw: M::init(), data: val }
    }

    /// The value.
    pub fn into_inner(self) -> (val: T)
        ensures
            val == self.data,
    {
        self.data
    }

    /// Locks the mutex.
    pub fn lock(&mut self, key: usize, thread: &mut DeadlockData) -> (guard: MutexGuard<
        '_,
        M,
        T,
    >)
        requires
            !old(self).raw.is_locked(),
        ensures
            guard.key == key,
            final(thread).owns_instead(old(thread), M::acquired(old(thread).resources@, key)),
            guard.mutex.raw.is_locked(),
            guard.mutex.raw.has_waiters() == old(self).raw.has_waiters(),
            guard.mutex.data == old(self).data,
            *final(self) == *final(guard.mutex),
    {
        self.raw.lock(key, thread);
        MutexGuard { mutex: self, key }
    }

    /// Tries to lock the mutex; if that cannot be done, false is returned.
    pub fn try_lock(&mut self, key: usize, thread: &mut DeadlockData) -> (locked: bool)
        ensures
            locked == !old(self).raw.is_locked(),
            final(self).raw.is_locked(),
            final(self).raw.has_waiters() == old(self).raw.has_waiters(),
            final(self).data == old(self).data,
            locked ==> final(thread).owns_instead(
                old(thread),
                M::acquired(old(thread).resources@, key),
            ),
            !locked ==> *final(thread) == *old(thread),
    {
        self.raw.try_lock(key, thread)
    }

    /// Unlocks the mutex, where no guard does.
    pub fn force_unlock(&mut self, key: usize, thread: &mut DeadlockData)
        requires
            !old(self).raw.has_waiters(),
            M::may_release(old(thread).resources@, key),
        ensures
            !final(self).raw.is_locked(),
            !final(self).raw.has_waiters(),
            final(self).data == old(self).data,
            final(thread).owns_instead(old(thread), M::released(old(thread).resources@, key)),
    {
        self.raw.unlock(key, thread)
    }
}

impl<M: Mutexable, T: Default> Default for SmallMutex<M, T> {
    fn default() -> (mutex: SmallMutex<M, T>)
        ensures
            call_ensures(T::default, (), mutex.data),
            !mutex.raw.is_locked(),
            !mutex.raw.has_waiters(),
    {
        SmallMutex::new(T::default())
    }
}

impl<'g, M: Mutexable, T> MutexGuard<'g, M, T> {
    /// The mutex of a guard.
    pub fn mutex(s: &Self) -> (mutex: &SmallMutex<M, T>)
        ensures
            *mutex == *old(s.mutex),
    {
        &*s.mutex
    }

    /// The value.
    pub fn deref(&self) -> (val: &T)
        ensures
            *val == old(self.mutex).data,
    {
        &self.mutex.data
    }

    /// The value, to be changed.
    pub fn deref_mut(&mut self) -> (val: &mut T)
        ensures
            *val == old(self).mutex.data,
            final(self).mutex.data == *final(val),
            final(self).mutex.raw == old(self).mutex.raw,
            final(self).key == old(self).key,
            *final(final(self).mutex) == *final(old(self).mutex),
    {
        &mut self.mutex.data
    }

    /// Gives the guard up and unlocks the mutex.
    pub fn unlock(s: Self, thread: &mut DeadlockData)
        requires
            !s.mutex.raw.has_waiters(),
            M::may_release(old(thread).resources@, s.key),
        ensures
            final(thread).owns_instead(old(thread), M::released(old(thread).resources@, s.key)),
            !final(s.mutex).raw.is_locked(),
            !final(s.mutex).raw.has_waiters(),
            final(s.mutex).data == old(s.mutex).data,
    {
        s.mutex.raw.unlock(s.key, thread);
    }

    /// Makes a guard for a component of the locked data.
    pub fn map<U, F>(s: Self, f: F) -> (guard: MapMutexGuard<'g, M, U>) where
        F: FnOnce(&'g mut T) -> &'g mut U,
        requires
            forall|whole: &'g mut T|
                *whole == s.mutex.data ==> #[trigger] call_requires(f, (whole,)),
        ensures
            guard.key == s.key,
            *guard.raw == old(s.mutex).raw,
            *final(guard.raw) == final(s.mutex).raw,
            exists|whole: &'g mut T, part: &'g mut U| {
                &&& #[trigger] call_ensures(f, (whole,), part)
                &&& *whole == old(s.mutex).data
                &&& *final(whole) == final(s.mutex).data
                &&& *part == *guard.data
                &&& *final(part) == *final(guard.data)
            },
    {
        let key: usize = s.key;
        let mutex = s.mutex;
        let data = f(&mut mutex.data);
        MapMutexGuard { raw: &mut mutex.raw, data, key }
    }
}

impl<'g, M: Mutexable, T> MapMutexGuard<'g, M, T> {
    /// Makes a guard for a component of the component that this guard is for. It cannot
    /// fail as the mutex is locked already.
    pub fn map<U, F>(s: Self, f: F) -> (guard: MapMutexGuard<'g, M, U>) where
        F: FnOnce(&'g mut T) -> &'g mut U,
        requires
            forall|whole: &'g mut T| *whole == *s.data ==> #[trigger] call_requires(f, (whole,)),
        ensures
            guard.key == s.key,
            *guard.raw == *old(s.raw),
            *final(guard.raw) == *final(s.raw),
            exists|whole: &'g mut T, part: &'g mut U| {
                &&& #[trigger] call_ensures(f, (whole,), part)
                &&& *whole == *old(s.data)
                &&& *final(whole) == *final(s.data)
                &&& *part == *guard.data
                &&& *final(part) == *final(guard.data)
            },
    {
        let key: usize = s.key;
        let raw = s.raw;
        let data = f(s.data);
        MapMutexGuard { raw, data, key }
    }

    /// The component.
    pub fn deref(&self) -> (val: &T)
        ensures
            *val == *old(self.data),
    {
        &*self.data
    }

    /// The component, to be changed.
    pub fn deref_mut(&mut self) -> (val: &mut T)
        ensures
            *val == *old(self).data,
            *final(self).data == *final(val),
            *final(self).raw == *old(self).raw,
            final(self).key == old(self).key,
            *final(final(self).data) == *final(old(self).data),
            *final(final(self).raw) == *final(old(self).raw),
    {
        &mut *self.data
    }

    /// Gives the guard up and unlocks the mutex.
    pub fn unlock(s: Self, thread: &mut DeadlockData)
        requires
            !s.raw.has_waiters(),
            M::may_release(old(thread).resources@, s.key),
        ensures
            final(thread).owns_instead(old(thread), M::released(old(thread).resources@, s.key)),
            !final(s.raw).is_locked(),
            !final(s.raw).has_waiters(),
            *final(s.data) == *old(s.data),
    {
        s.raw.unlock(s.key, thread);
    }
}

} // verus!
