//! Parking threads in queues that are found by a key, and unparking them in turn.
//!
//! The threads that are parked on one key wait in the order in which they came. Threads
//! of several keys may share a bucket of the table; the table grows with the number of
//! threads, and keeps their order.

use std::sync::mpsc::Sender;

use vstd::arithmetic::power2::{
    lemma2_to64, lemma_pow2_pos, lemma_pow2_strictly_increases, pow2,
};
use vstd::prelude::*;

use crate::deadlock::{
    acquire_resource, captured, named_by_system, owns_resource, release_resource, without,
    DeadlockData, DeadlockedThread,
};
use crate::hash_table::{hash, hash_of, threads_fit, Bucket, FairTimeout, HashTable, LOAD_FACTOR};
use crate::parker::{Moment, ParkWait, ThreadParkerT, UnparkHandle, NANOS_PER_SEC};
use crate::parking::{
    any_with_key, append, bucket_ok, by_bucket, by_key, has_key, in_bucket, keys_of,
    lemma_bucket_frame, lemma_by_key_none, lemma_by_key_some, lemma_filter_from, lemma_filter_none,
    lemma_filter_push, lemma_filter_same, lemma_filter_split, lemma_filter_twice, link_ok, linked,
    placed, rehash_bucket_into, same_but_links, same_fair_timeouts, thread_at, threaded, unlink, ParkResult, ParkToken,
    ThreadData, UnparkResult, UnparkToken, DEFAULT_PARK_TOKEN, DEFAULT_UNPARK_TOKEN,
};

verus! {

/// The queues of all parked threads, and the records of all threads.
pub struct ParkingLot {
    tables: Vec<HashTable>,
    threads: Vec<ThreadData>,
    num_threads: usize,
}

impl ParkingLot {
    /// The key that a thread is or was parked on.
    pub closed spec fn key_of(&self, t: int) -> usize {
        self.threads@[t].key
    }

    /// The token that a thread was unparked with.
    pub closed spec fn token(&self, t: int) -> UnparkToken {
        self.threads@[t].unpark_token
    }

    /// The token that a thread was parked with.
    pub closed spec fn park_token(&self, t: int) -> ParkToken {
        self.threads@[t].park_token
    }

    /// Whether a thread was parked with a timeout.
    pub closed spec fn timed(&self, t: int) -> bool {
        self.threads@[t].parked_with_timeout
    }

    /// Whether a thread is to sleep.
    pub closed spec fn asleep(&self, t: int) -> bool {
        self.threads@[t].parker.parked()
    }

    /// What deadlock detection keeps of a thread.
    pub closed spec fn deadlock_data(&self, t: int) -> DeadlockData {
        self.threads@[t].deadlock_data
    }

    /// A thread is as it was.
    pub open spec fn same_thread(&self, other: &ParkingLot, t: int) -> bool {
        &&& self.key_of(t) == other.key_of(t)
        &&& self.token(t) == other.token(t)
        &&& self.park_token(t) == other.park_token(t)
        &&& self.timed(t) == other.timed(t)
        &&& self.asleep(t) == other.asleep(t)
        &&& self.deadlock_data(t) == other.deadlock_data(t)
    }

    /// All threads are as they were, but for what deadlock detection keeps of thread `t`.
    pub open spec fn same_but_data(&self, other: &ParkingLot, t: int) -> bool {
        &&& self.known() == other.known()
        &&& self.alive() == other.alive()
        &&& self.key_of(t) == other.key_of(t)
        &&& self.token(t) == other.token(t)
        &&& self.park_token(t) == other.park_token(t)
        &&& self.timed(t) == other.timed(t)
        &&& self.asleep(t) == other.asleep(t)
        &&& forall|u: int|
            0 <= u < other.known() && u != t ==> #[trigger] self.same_thread(other, u)
        &&& self.buckets() == other.buckets()
        &&& self.same_fair(other)
    }

    /// What deadlock detection keeps of a thread is as it was, but for its resources.
    pub open spec fn same_but_resources(&self, other: &ParkingLot, t: int) -> bool {
        &&& self.deadlock_data(t).deadlocked == other.deadlock_data(t).deadlocked
        &&& self.deadlock_data(t).backtrace_sender == other.deadlock_data(t).backtrace_sender
        &&& self.deadlock_data(t).thread_id == other.deadlock_data(t).thread_id
    }

    /// All threads are as they were.
    pub open spec fn same_threads(&self, other: &ParkingLot) -> bool {
        &&& self.known() == other.known()
        &&& self.alive() == other.alive()
        &&& forall|t: int| 0 <= t < other.known() ==> #[trigger] self.same_thread(other, t)
    }

    /// How many threads have ever been made known.
    pub closed spec fn known(&self) -> nat {
        self.threads@.len()
    }

    /// How many threads there are now.
    pub closed spec fn alive(&self) -> nat {
        self.num_threads as nat
    }

    /// How many buckets there are.
    pub closed spec fn buckets(&self) -> nat {
        if self.tables@.len() == 0 {
            0
        } else {
            self.tables@.last().entries@.len()
        }
    }

    /// The bucket of a key.
    pub closed spec fn bucket_of(&self, key: usize) -> int {
        hash_of(key, self.tables@.last().hash_bits)
    }

    /// The threads that are parked on the key, those that came first first.
    pub closed spec fn waiting(&self, key: usize) -> Seq<usize> {
        if self.tables@.len() == 0 {
            Seq::empty()
        } else {
            by_key(
                keys_of(self.threads@),
                self.tables@.last().entries@[self.bucket_of(key)].queue@,
                key,
            )
        }
    }

    /// When an unpark of the key is to be fair.
    pub closed spec fn fair(&self, key: usize) -> FairTimeout {
        self.tables@.last().entries@[self.bucket_of(key)].fair_timeout
    }

    /// How many buckets there are as soon as there are any: those that there are, or those
    /// of the first table.
    pub open spec fn buckets_or_first(&self) -> nat {
        if self.buckets() == 0 {
            16
        } else {
            self.buckets()
        }
    }

    /// There is a table now, and it is the one that there was, if there was one.
    pub open spec fn same_table(&self, other: &ParkingLot) -> bool {
        &&& self.buckets() == other.buckets_or_first()
        &&& other.buckets() > 0 ==> forall|key: usize| #[trigger]
            self.bucket_of(key) == other.bucket_of(key)
    }

    /// An unpark of any key is to be fair when it was to be.
    pub open spec fn same_fair(&self, other: &ParkingLot) -> bool {
        forall|key: usize| #[trigger] self.fair(key) == other.fair(key)
    }

    /// An unpark of any key is due to be fair at once.
    pub open spec fn fresh_fair(&self, now: Moment) -> bool {
        forall|key: usize| #[trigger]
            self.fair(key) == (FairTimeout {
                timeout: now,
                seed: (self.bucket_of(key) + 1) as u32,
            })
    }

    /// An unpark of any key is to be fair when it was to be, if there was a table, and is
    /// due at once in the first table.
    pub open spec fn fair_kept(&self, other: &ParkingLot, now: Moment) -> bool {
        if other.buckets() == 0 {
            self.fresh_fair(now)
        } else {
            self.same_fair(other)
        }
    }

    /// The table is the one that there was if it is big enough for the given number of
    /// threads, and else a new one of the least power of two that is, whose next fair
    /// unparks are due at once.
    pub open spec fn grown_for(&self, other: &ParkingLot, num_threads: nat, now: Moment) -> bool {
        if other.buckets_or_first() >= LOAD_FACTOR * num_threads {
            &&& self.same_table(other)
            &&& self.fair_kept(other, now)
        } else {
            &&& LOAD_FACTOR * num_threads <= self.buckets() < 2 * (LOAD_FACTOR * num_threads)
            &&& exists|bits: nat| self.buckets() == #[trigger] pow2(bits)
            &&& self.fresh_fair(now)
        }
    }

    /// A thread waits in a queue.
    pub open spec fn is_parked(&self, t: usize) -> bool {
        self.waiting(self.key_of(t as int)).contains(t)
    }

    /// The queues are in order, and no bucket but that one, if any, is locked.
    pub closed spec fn ok(&self, held: Option<int>) -> bool {
        &&& self.tables@.len() == 0 ==> self.threads@.len() == 0
        &&& self.num_threads <= self.threads@.len()
        &&& self.tables@.len() > 0 ==> {
            let table = self.tables@.last();
            &&& table.sized()
            &&& table.entries@.len() >= LOAD_FACTOR * self.num_threads
            &&& forall|b: int|
                0 <= b < table.entries@.len() ==> {
                    &&& bucket_ok(
                        self.threads@,
                        #[trigger] table.entries@[b],
                        table.hash_bits,
                        b,
                    )
                    &&& table.entries@[b].mutex.word() == (if held == Some(b) {
                        1usize
                    } else {
                        0
                    })
                }
        }
    }

    /// The queues are in order, and no bucket is locked.
    pub open spec fn wf(&self) -> bool {
        self.ok(None)
    }

    /// The same threads wait for the same keys in the same order.
    pub open spec fn same_queues(&self, other: &ParkingLot) -> bool {
        forall|key: usize| #[trigger] self.waiting(key) == other.waiting(key)
    }

    /// The thread that had been parked on the key for longest was taken out of its queue and
    /// marked as unparked; the others stay queued, in their order, and are as they were.
    pub open spec fn unparked_first(
        &self,
        before: &ParkingLot,
        key: usize,
        t: usize,
        result: UnparkResult,
    ) -> bool {
        let queue = before.waiting(key);
        &&& queue.len() > 0
        &&& t == queue[0]
        &&& self.waiting(key) == queue.skip(1)
        &&& forall|k: usize| k != key ==> #[trigger] self.waiting(k) == before.waiting(k)
        &&& result.unparked_threads == 1
        &&& result.requeued_threads == 0
        &&& result.have_more_threads == (queue.len() > 1)
        &&& !self.asleep(t as int)
        &&& self.key_of(t as int) == before.key_of(t as int)
        &&& self.park_token(t as int) == before.park_token(t as int)
        &&& self.timed(t as int) == before.timed(t as int)
        &&& self.deadlock_data(t as int) == before.deadlock_data(t as int)
        &&& forall|u: int|
            0 <= u < before.known() && u != t ==> #[trigger] self.same_thread(before, u)
    }

    /// A thread that was parked went on: with the token that it was unparked with, or, if its
    /// timeout came first, out of its queue.
    pub open spec fn park_ended(
        &self,
        before: &ParkingLot,
        t: usize,
        unparked: bool,
        result: ParkResult,
    ) -> bool {
        if unparked || !before.asleep(t as int) {
            &&& result == ParkResult::Unparked(before.token(t as int))
            &&& self.same_queues(before)
        } else {
            let key = before.key_of(t as int);
            let queue = before.waiting(key);
            &&& result == ParkResult::TimedOut
            &&& self.waiting(key) == queue.remove(queue.index_of(t))
            &&& forall|k: usize| k != key ==> #[trigger] self.waiting(k) == before.waiting(k)
        }
    }

    /// No threads and no table yet.
    pub fn new() -> (lot: ParkingLot)
        ensures
            lot.wf(),
            lot.known() == 0,
            lot.alive() == 0,
            lot.buckets() == 0,
            forall|key: usize| #[trigger] lot.waiting(key) == Seq::<usize>::empty(),
    {
        ParkingLot { tables: Vec::new(), threads: Vec::new(), num_threads: 0 }
    }

    /// Sees to it that there is a table.
    fn get_hashtable(&mut self, now: Moment)
        requires
            old(self).wf(),
            now.wf(),
        ensures
            final(self).wf(),
            final(self).tables@.len() > 0,
            old(self).tables@.len() > 0 ==> *final(self) == *old(self),
            final(self).threads@ == old(self).threads@,
            final(self).num_threads == old(self).num_threads,
            final(self).same_queues(old(self)),
            final(self).buckets() > 0,
            old(self).tables@.len() > 0 ==> old(self).buckets() > 0,
            final(self).same_table(old(self)),
            final(self).fair_kept(old(self), now),
    {
        if self.tables.len() == 0 {
            self.create_hashtable(now);
        }
        proof {
            lemma_pow2_pos(self.tables@.last().hash_bits as nat);
        }
    }

    /// Makes the first table.
    fn create_hashtable(&mut self, now: Moment)
        requires
            old(self).wf(),
            old(self).tables@.len() == 0,
            now.wf(),
        ensures
            final(self).wf(),
            final(self).tables@.len() > 0,
            final(self).threads@ == old(self).threads@,
            final(self).num_threads == old(self).num_threads,
            final(self).same_queues(old(self)),
            final(self).buckets() == 16,
            final(self).fresh_fair(now),
    {
        let table = HashTable::new(LOAD_FACTOR, now);
        proof {
            lemma_first_size(table);
        }
        self.tables.push(table);
        proof {
            let t = self.tables@.last();
            assert forall|b: int| 0 <= b < t.entries@.len() implies bucket_ok(
                self.threads@,
                #[trigger] t.entries@[b],
                t.hash_bits,
                b,
            ) by {
                assert(t.entries@[b].empty());
            }
            assert forall|key: usize| #[trigger] self.waiting(key) == old(self).waiting(key) by {
                lemma_hash_in_range(key, t);
                assert(t.entries@[hash_of(key, t.hash_bits)].empty());
                lemma_by_key_none(keys_of(self.threads@), Seq::empty(), key);
            }
            lemma_fresh_fair(*self, now);
        }
    }

    /// Grows the table so that it is big enough for the given number of threads. This is
    /// done only when a thread is made known.
    fn grow_hashtable(&mut self, num_threads: usize, now: Moment)
        requires
            old(self).wf(),
            1 <= num_threads,
            threads_fit(num_threads as int),
            now.wf(),
        ensures
            final(self).wf(),
            final(self).tables@.len() > 0,
            final(self).tables@.last().entries@.len() >= LOAD_FACTOR * num_threads,
            same_but_links(old(self).threads@, final(self).threads@),
            final(self).num_threads == old(self).num_threads,
            final(self).same_queues(old(self)),
            final(self).grown_for(old(self), num_threads as nat, now),
    {
        self.get_hashtable(now);
        let last: usize = self.tables.len() - 1;
        // Check if the existing table needs to be resized
        if self.tables[last].entries.len() >= LOAD_FACTOR * num_threads {
            return;
        }
        let ghost start = *self;
        let ghost table = self.tables@[last as int];
        let size: usize = self.tables[last].entries.len();
        // Lock all buckets in the old table
        let mut b: usize = 0;
        while b < size
            invariant
                b <= size,
                size == table.entries@.len(),
                table == start.tables@.last(),
                start.wf(),
                start.tables@.len() > 0,
                self.threads == start.threads,
                self.num_threads == start.num_threads,
                last == self.tables@.len() - 1,
                same_lists(table, self.tables@[last as int]),
                forall|c: int|
                    0 <= c < size ==> (#[trigger] self.tables@[last as int].entries@[c]).mutex.word()
                        == (if c < b {
                        1usize
                    } else {
                        0
                    }),
            decreases size - b,
        {
            self.tables[last].entries[b].mutex.lock();
            b = b + 1;
        }
        // Create the new table
        let mut new_table = HashTable::new(num_threads, now);
        let ghost made = new_table;
        // Move the entries from the old table to the new one
        let ghost mut done: Seq<usize> = Seq::empty();
        proof {
            lemma_nothing_placed(self.threads@, new_table);
            lemma_nothing_moved(start.threads@, table);
        }
        b = 0;
        while b < size
            invariant
                b <= size,
                size == table.entries@.len(),
                table == start.tables@.last(),
                start.wf(),
                start.tables@.len() > 0,
                same_but_links(start.threads@, self.threads@),
                self.num_threads == start.num_threads,
                last == self.tables@.len() - 1,
                same_lists(table, self.tables@[last as int]),
                forall|c: int|
                    0 <= c < size ==> (#[trigger] self.tables@[last as int].entries@[c]).mutex.word()
                        == 1,
                placed(self.threads@, new_table, done),
                same_fair_timeouts(made, new_table),
                moved(start.threads@, table, done, b as int),
                forall|c: int|
                    b <= c < size ==> bucket_ok(
                        self.threads@,
                        #[trigger] table.entries@[c],
                        table.hash_bits,
                        c,
                    ),
            decreases size - b,
        {
            let ghost before = self.threads@;
            let ghost queue = table.entries@[b as int].queue@;
            let head = self.tables[last].entries[b].queue_head;
            proof {
                lemma_move_next(start.threads@, before, table, done, b as int);
            }
            rehash_bucket_into(
                &mut self.threads,
                head,
                &mut new_table,
                Ghost(queue),
                Ghost(done),
            );
            proof {
                lemma_moved_next(start.threads@, before, self.threads@, table, done, b as int);
                done = done + queue;
            }
            b = b + 1;
        }
        // Publish the new table
        proof {
            lemma_rehashed(start.threads@, self.threads@, table, new_table, done);
        }
        let ghost published = new_table;
        let ghost threads = self.threads@;
        self.tables.push(new_table);
        // Unlock all buckets in the old table
        b = 0;
        while b < size
            invariant
                b <= size,
                size == table.entries@.len(),
                self.threads@ == threads,
                self.num_threads == start.num_threads,
                last == self.tables@.len() - 2,
                self.tables@.last() == published,
                self.tables@[last as int].entries@.len() == size,
                forall|c: int|
                    b <= c < size ==> (
                    #[trigger] self.tables@[last as int].entries@[c]).mutex.word() == 1,
            decreases size - b,
        {
            let _more = self.tables[last].entries[b].mutex.unlock();
            b = b + 1;
        }
        proof {
            assert(keys_of(self.threads@) =~= keys_of(start.threads@));
            assert forall|key: usize| #[trigger] self.waiting(key) == old(self).waiting(key) by {
                assert(start.waiting(key) == old(self).waiting(key));
            }
            assert(self.buckets() == pow2(published.hash_bits as nat));
            lemma_fresh_fair(*self, now);
        }
    }

    /// Makes a new thread known. The table grows with the number of threads.
    pub fn register(&mut self, now: Moment) -> (t: usize)
        requires
            old(self).wf(),
            threads_fit(old(self).alive() as int + 1),
            old(self).known() < usize::MAX,
            now.wf(),
        ensures
            final(self).wf(),
            t == old(self).known(),
            final(self).known() == old(self).known() + 1,
            final(self).alive() == old(self).alive() + 1,
            final(self).buckets() >= LOAD_FACTOR * final(self).alive(),
            final(self).grown_for(old(self), old(self).alive() + 1, now),
            !final(self).asleep(t as int),
            !final(self).is_parked(t),
            final(self).token(t as int) == UnparkToken(DEFAULT_UNPARK_TOKEN),
            final(self).park_token(t as int) == ParkToken(DEFAULT_PARK_TOKEN),
            final(self).key_of(t as int) == 0,
            !final(self).timed(t as int),
            final(self).deadlock_data(t as int).resources@ == Seq::<usize>::empty(),
            !final(self).deadlock_data(t as int).deadlocked,
            final(self).deadlock_data(t as int).backtrace_sender is None,
            named_by_system(final(self).deadlock_data(t as int).thread_id),
            forall|u: int|
                0 <= u < old(self).known() ==> #[trigger] final(self).same_thread(old(self), u),
            final(self).same_queues(old(self)),
    {
        let num_threads: usize = self.num_threads + 1;
        self.grow_hashtable(num_threads, now);
        let ghost grown = *self;
        let t: usize = self.threads.len();
        self.threads.push(ThreadData::new());
        self.num_threads = num_threads;
        proof {
            let table = self.tables@.last();
            assert forall|b: int| 0 <= b < table.entries@.len() implies bucket_ok(
                self.threads@,
                #[trigger] table.entries@[b],
                table.hash_bits,
                b,
            ) && !table.entries@[b].queue@.contains(t) && (forall|key: usize| #[trigger]
                by_key(keys_of(self.threads@), table.entries@[b].queue@, key) == by_key(
                    keys_of(grown.threads@),
                    table.entries@[b].queue@,
                    key,
                )) by {
                let queue = table.entries@[b].queue@;
                assert(bucket_ok(grown.threads@, table.entries@[b], table.hash_bits, b));
                assert forall|q: int| 0 <= q < queue.len() implies self.threads@[
                    #[trigger] queue[q] as int
                ] == grown.threads@[queue[q] as int] && queue[q] != t by {
                    assert(link_ok(grown.threads@, queue, q));
                }
                lemma_bucket_frame(
                    grown.threads@,
                    self.threads@,
                    table.entries@[b],
                    table.hash_bits,
                    b,
                );
            }
            assert forall|key: usize| #[trigger] self.waiting(key) == old(self).waiting(key) by {
                lemma_hash_in_range(key, table);
                assert(grown.waiting(key) == old(self).waiting(key));
            }
            assert forall|key: usize| #[trigger] self.fair(key) == grown.fair(key) by {}
            assert forall|key: usize| #[trigger] self.bucket_of(key) == grown.bucket_of(key) by {}
            if self.is_parked(t) {
                let key = self.key_of(t as int);
                lemma_hash_in_range(key, table);
                lemma_filter_from(
                    table.entries@[self.bucket_of(key)].queue@,
                    has_key(keys_of(self.threads@), key),
                    t,
                );
            }
        }
        t
    }

    /// A thread has come to its end.
    pub fn retire(&mut self)
        requires
            old(self).wf(),
            old(self).alive() > 0,
        ensures
            final(self).wf(),
            final(self).alive() == old(self).alive() - 1,
            final(self).known() == old(self).known(),
            forall|u: int|
                0 <= u < old(self).known() ==> #[trigger] final(self).same_thread(old(self), u),
            final(self).same_queues(old(self)),
            final(self).buckets() == old(self).buckets(),
            final(self).same_fair(old(self)),
    {
        self.num_threads = self.num_threads - 1;
        proof {
            assert forall|key: usize| #[trigger] self.waiting(key) == old(self).waiting(key) by {}
        }
    }

    /// Locks the bucket of the key. It is to be unlocked again.
    fn lock_bucket(&mut self, key: usize, now: Moment) -> (bucket: usize)
        requires
            old(self).wf(),
            now.wf(),
        ensures
            final(self).tables@.len() > 0,
            bucket == final(self).bucket_of(key),
            bucket < final(self).tables@.last().entries@.len(),
            final(self).ok(Some(bucket as int)),
            final(self).threads@ == old(self).threads@,
            final(self).num_threads == old(self).num_threads,
            final(self).same_queues(old(self)),
            final(self).buckets() > 0,
            old(self).tables@.len() > 0 ==> old(self).buckets() > 0,
            final(self).same_table(old(self)),
            final(self).fair_kept(old(self), now),
    {
        self.get_hashtable(now);
        let ghost start = *self;
        let last: usize = self.tables.len() - 1;
        let bucket: usize = hash(key, self.tables[last].hash_bits);
        self.tables[last].entries[bucket].mutex.lock();
        proof {
            lemma_same_lists(start, *self, bucket as int);
        }
        bucket
    }

    /// Unlocks a bucket.
    fn unlock_bucket(&mut self, bucket: usize)
        requires
            old(self).tables@.len() > 0,
            bucket < old(self).tables@.last().entries@.len(),
            old(self).ok(Some(bucket as int)),
        ensures
            final(self).wf(),
            final(self).tables@.len() > 0,
            final(self).threads@ == old(self).threads@,
            final(self).num_threads == old(self).num_threads,
            final(self).same_queues(old(self)),
            final(self).same_table(old(self)),
            final(self).same_fair(old(self)),
    {
        let ghost start = *self;
        let last: usize = self.tables.len() - 1;
        let _more = self.tables[last].entries[bucket].mutex.unlock();
        proof {
            lemma_same_lists(start, *self, bucket as int);
        }
    }

    /// Parks a thread on a key, unless the validation fails. The validation is called while
    /// the queue is locked. Returns whether the thread is parked: it is then to sleep until
    /// it is unparked.
    pub fn park_begin(
        &mut self,
        t: usize,
        key: usize,
        validate: impl FnOnce() -> bool,
        park_token: ParkToken,
        timed: bool,
        now: Moment,
    ) -> (parked: bool)
        requires
            old(self).wf(),
            t < old(self).known(),
            !old(self).is_parked(t),
            now.wf(),
            call_requires(validate, ()),
        ensures
            final(self).wf(),
            call_ensures(validate, (), parked),
            final(self).same_table(old(self)),
            final(self).fair_kept(old(self), now),
            !parked ==> final(self).same_threads(old(self)) && final(self).same_queues(old(self)),
            parked ==> {
                &&& final(self).known() == old(self).known()
                &&& final(self).alive() == old(self).alive()
                &&& final(self).waiting(key) == old(self).waiting(key).push(t)
                &&& forall|k: usize|
                    k != key ==> #[trigger] final(self).waiting(k) == old(self).waiting(k)
                &&& final(self).key_of(t as int) == key
                &&& final(self).park_token(t as int) == park_token
                &&& final(self).timed(t as int) == timed
                &&& final(self).asleep(t as int)
                &&& final(self).token(t as int) == old(self).token(t as int)
                &&& final(self).deadlock_data(t as int) == old(self).deadlock_data(t as int)
                &&& forall|u: int|
                    0 <= u < old(self).known() && u != t ==> #[trigger] final(self).same_thread(
                        old(self),
                        u,
                    )
            },
    {
        // Lock the bucket for the given key
        let bucket: usize = self.lock_bucket(key, now);
        let ghost start = *self;
        // If the validation function fails, just return
        let valid = validate();
        if !valid {
            self.unlock_bucket(bucket);
            return false;
        }
        // Append the thread to the queue and unlock the bucket
        let last: usize = self.tables.len() - 1;
        proof {
            assert(start.waiting(start.key_of(t as int)) == old(self).waiting(
                old(self).key_of(t as int),
            ));
            lemma_in_no_queue(start, t);
            let table = start.tables@.last();
            assert(bucket_ok(
                start.threads@,
                table.entries@[bucket as int],
                table.hash_bits,
                bucket as int,
            ));
        }
        self.threads[t].parked_with_timeout = timed;
        self.threads[t].key = key;
        self.threads[t].park_token = park_token;
        self.threads[t].parker.prepare_park();
        let ghost marked = self.threads@;
        proof {
            let queue = start.tables@.last().entries@[bucket as int].queue@;
            assert forall|q: int| 0 <= q < queue.len() implies #[trigger] link_ok(
                marked,
                queue,
                q,
            ) by {
                assert(link_ok(start.threads@, queue, q));
                assert(queue.contains(queue[q]));
            }
        }
        append(&mut self.threads, &mut self.tables[last].entries[bucket], t);
        proof {
            lemma_parked(start, *self, bucket as int, t, key);
        }
        let ghost full = *self;
        self.unlock_bucket(bucket);
        proof {
            assert forall|k: usize| k != key implies #[trigger] self.waiting(k) == old(
                self,
            ).waiting(k) by {
                assert(self.waiting(k) == full.waiting(k));
                assert(start.waiting(k) == old(self).waiting(k));
            }
            assert(self.waiting(key) == full.waiting(key));
            assert(start.waiting(key) == old(self).waiting(key));
        }
        true
    }

    /// What a parked thread does once it goes on: `unparked` says whether it was woken up,
    /// and not by its timeout. A thread that timed out is taken out of its queue, and
    /// `timed_out` is called with its key and whether it was the last thread that was
    /// parked on it, while the queue is locked.
    pub fn park_end(
        &mut self,
        t: usize,
        unparked: bool,
        timed_out: impl FnOnce(usize, bool),
        now: Moment,
    ) -> (result: ParkResult)
        requires
            old(self).wf(),
            t < old(self).known(),
            now.wf(),
            !unparked && old(self).asleep(t as int) ==> old(self).is_parked(t),
            forall|last: bool| #[trigger] call_requires(timed_out, (old(self).key_of(t as int), last)),
        ensures
            final(self).wf(),
            final(self).same_threads(old(self)),
            final(self).same_table(old(self)),
            final(self).same_fair(old(self)),
            final(self).park_ended(old(self), t, unparked, result),
            !unparked && old(self).asleep(t as int) ==> {
                let key = old(self).key_of(t as int);
                call_ensures(timed_out, (key, old(self).waiting(key) == seq![t]), ())
            },
    {
        proof {
            lemma_pow2_pos(self.tables@.last().hash_bits as nat);
        }
        // If we were unparked, return now
        if unparked {
            return ParkResult::Unparked(self.threads[t].unpark_token);
        }
        // Lock our bucket again. Note that the table may have been rehashed in the
        // meantime.
        let key: usize = self.threads[t].key;
        let bucket: usize = self.lock_bucket(key, now);
        let ghost start = *self;
        // Now we need to check again if we were unparked or timed out. Unlike the last
        // check this is precise because the bucket is locked.
        if !self.threads[t].parker.timed_out() {
            self.unlock_bucket(bucket);
            return ParkResult::Unparked(self.threads[t].unpark_token);
        }
        // We timed out, so we now need to remove our thread from the queue
        let last: usize = self.tables.len() - 1;
        let ghost queue = start.tables@.last().entries@[bucket as int].queue@;
        let mut current = self.tables[last].entries[bucket].queue_head;
        let mut previous: Option<usize> = None;
        let mut was_last_thread = true;
        let ghost mut p: int = 0;
        proof {
            assert(start.waiting(key) == old(self).waiting(key));
            lemma_filter_from(queue, has_key(keys_of(start.threads@), key), t);
            assert(bucket_ok(
                start.threads@,
                start.tables@.last().entries@[bucket as int],
                start.tables@.last().hash_bits,
                bucket as int,
            ));
        }
        loop
            invariant_except_break
                *self == start,
            invariant
                *self == start,
                last == start.tables@.len() - 1,
                queue == start.tables@.last().entries@[bucket as int].queue@,
                queue.contains(t),
                linked(start.threads@, queue, 0, thread_at(queue, 0)),
                0 <= p <= queue.len(),
                current == thread_at(queue, p),
                previous == thread_at(queue, p - 1),
                forall|r: int| 0 <= r < p ==> #[trigger] queue[r] != t,
                was_last_thread == (forall|r: int|
                    0 <= r < p ==> start.threads@[#[trigger] queue[r] as int].key != key),
            ensures
                p < queue.len(),
                queue[p] == t,
            decreases queue.len() - p,
        {
            match current {
                None => {
                    proof {
                        let q = choose|q: int| 0 <= q < queue.len() && queue[q] == t;
                        assert(queue[q] != t);
                    }
                    break;
                },
                Some(thread) => {
                    if thread == t {
                        break;
                    }
                    assert(link_ok(start.threads@, queue, p));
                    if self.threads[thread].key == key {
                        was_last_thread = false;
                    }
                    previous = current;
                    current = self.threads[thread].next_in_queue;
                    proof {
                        p = p + 1;
                    }
                },
            }
        }
        assert(link_ok(start.threads@, queue, p));
        let (next, at_end) = unlink(
            &mut self.threads,
            &mut self.tables[last].entries[bucket],
            previous,
            t,
            Ghost(p),
        );
        if !at_end {
            // Scan the rest of the queue to see if there are any other entries with the
            // given key.
            if any_with_key(&self.threads, next, key, Ghost(queue.remove(p)), Ghost(p)) {
                was_last_thread = false;
            }
        }
        proof {
            lemma_removed(start, *self, bucket as int, p);
            lemma_timed_out(start, *self, bucket as int, p, was_last_thread, at_end);
        }
        // Callback to indicate that we timed out, and whether we were the last thread on
        // the queue.
        timed_out(key, was_last_thread);
        let ghost taken = *self;
        self.unlock_bucket(bucket);
        proof {
            assert(self.waiting(key) == taken.waiting(key));
            assert forall|k: usize| k != key implies #[trigger] self.waiting(k) == old(
                self,
            ).waiting(k) by {
                assert(self.waiting(k) == taken.waiting(k));
                assert(start.waiting(k) == old(self).waiting(k));
            }
        }
        ParkResult::TimedOut
    }

    /// Takes the thread that has been parked on the key for longest out of its queue. The
    /// bucket of the key stays locked until `unpark_end` is called with the thread and a
    /// token for it.
    pub fn unpark_begin(&mut self, key: usize, now: Moment) -> (found: (
        UnparkResult,
        Option<usize>,
    ))
        requires
            old(self).wf(),
            now.wf(),
        ensures
            final(self).ok(Some(final(self).bucket_of(key))),
            final(self).buckets() > 0,
            final(self).same_table(old(self)),
            final(self).same_threads(old(self)),
            forall|k: usize| k != key ==> #[trigger] final(self).waiting(k) == old(self).waiting(k),
            old(self).waiting(key).len() == 0 ==> {
                &&& found.1 is None
                &&& found.0.nothing()
                &&& final(self).waiting(key) == old(self).waiting(key)
                &&& final(self).fair_kept(old(self), now)
            },
            old(self).waiting(key).len() > 0 ==> {
                &&& found.1 == Some(old(self).waiting(key)[0])
                &&& old(self).waiting(key)[0] < old(self).known()
                &&& old(self).asleep(old(self).waiting(key)[0] as int)
                &&& old(self).key_of(old(self).waiting(key)[0] as int) == key
                &&& final(self).waiting(key) == old(self).waiting(key).skip(1)
                &&& !final(self).is_parked(old(self).waiting(key)[0])
                &&& found.0.unparked_threads == 1
                &&& found.0.requeued_threads == 0
                &&& found.0.have_more_threads == (old(self).waiting(key).len() > 1)
                &&& found.0.be_fair == old(self).fair(key).due(now)
                &&& old(self).fair(key).leads_to(now, final(self).fair(key))
                &&& forall|k: usize|
                    old(self).bucket_of(k) != old(self).bucket_of(key)
                        ==> #[trigger] final(self).fair(k) == old(self).fair(k)
            },
    {
        // Lock the bucket for the given key
        let bucket: usize = self.lock_bucket(key, now);
        let ghost start = *self;
        let last: usize = self.tables.len() - 1;
        let ghost queue = start.tables@.last().entries@[bucket as int].queue@;
        // Find a thread with a matching key and remove it from the queue
        let mut current = self.tables[last].entries[bucket].queue_head;
        let mut previous: Option<usize> = None;
        let mut result = UnparkResult::default();
        let ghost mut p: int = 0;
        proof {
            assert(start.waiting(key) == old(self).waiting(key));
            assert(bucket_ok(
                start.threads@,
                start.tables@.last().entries@[bucket as int],
                start.tables@.last().hash_bits,
                bucket as int,
            ));
        }
        loop
            invariant
                *self == start,
                last == start.tables@.len() - 1,
                queue == start.tables@.last().entries@[bucket as int].queue@,
                linked(start.threads@, queue, 0, thread_at(queue, 0)),
                0 <= p <= queue.len(),
                current == thread_at(queue, p),
                previous == thread_at(queue, p - 1),
                forall|r: int|
                    0 <= r < p ==> start.threads@[#[trigger] queue[r] as int].key != key,
            ensures
                current is Some ==> p < queue.len() && start.threads@[queue[p] as int].key == key,
                current is None ==> p == queue.len(),
            decreases queue.len() - p,
        {
            match current {
                None => {
                    break;
                },
                Some(thread) => {
                    assert(link_ok(start.threads@, queue, p));
                    if self.threads[thread].key == key {
                        break;
                    }
                    previous = current;
                    current = self.threads[thread].next_in_queue;
                    proof {
                        p = p + 1;
                    }
                },
            }
        }
        match current {
            None => {
                // No threads with a matching key were found in the bucket
                proof {
                    let keys = keys_of(start.threads@);
                    assert forall|q: int| 0 <= q < queue.len() implies keys[
                        #[trigger] queue[q] as int
                    ] != key by {
                        assert(link_ok(start.threads@, queue, q));
                    }
                    lemma_by_key_none(keys, queue, key);
                }
                (result, None)
            },
            Some(thread) => {
                assert(link_ok(start.threads@, queue, p));
                // Remove the thread from the queue
                let (next, at_end) = unlink(
                    &mut self.threads,
                    &mut self.tables[last].entries[bucket],
                    previous,
                    thread,
                    Ghost(p),
                );
                if !at_end {
                    // Scan the rest of the queue to see if there are any other entries
                    // with the given key.
                    result.have_more_threads = any_with_key(
                        &self.threads,
                        next,
                        key,
                        Ghost(queue.remove(p)),
                        Ghost(p),
                    );
                }
                let ghost taken = *self;
                proof {
                    lemma_removed(start, taken, bucket as int, p);
                    lemma_first_removed(start, taken, bucket as int, p, at_end);
                }
                result.unparked_threads = 1;
                result.be_fair = self.tables[last].entries[bucket].fair_timeout.should_timeout(
                    now,
                );
                proof {
                    lemma_fair_changed(taken, *self, bucket as int);
                    assert forall|k: usize| k != key implies #[trigger] self.waiting(k) == old(
                        self,
                    ).waiting(k) by {
                        assert(self.waiting(k) == taken.waiting(k));
                        assert(start.waiting(k) == old(self).waiting(k));
                    }
                    assert(self.waiting(key) == taken.waiting(key));
                    assert(start.fair(key) == old(self).fair(key));
                    assert(taken.fair(key) == start.fair(key));
                    assert forall|k: usize|
                        old(self).bucket_of(k) != old(self).bucket_of(key) implies #[trigger]
                    self.fair(k) == old(self).fair(k) by {
                        assert(taken.fair(k) == start.fair(k));
                        assert(start.fair(k) == old(self).fair(k));
                        assert(start.bucket_of(k) == old(self).bucket_of(k));
                        assert(start.bucket_of(key) == old(self).bucket_of(key));
                        assert(taken.bucket_of(k) != bucket);
                    }
                }
                (result, Some(thread))
            },
        }
    }

    /// Gives the thread that was taken out of its queue a token, marks it as unparked and
    /// unlocks the bucket of the key. The thread has yet to be woken up.
    pub fn unpark_end(&mut self, key: usize, target: Option<usize>, token: UnparkToken) -> (handle:
        Option<UnparkHandle>)
        requires
            old(self).buckets() > 0,
            old(self).ok(Some(old(self).bucket_of(key))),
            target matches Some(t) ==> t < old(self).known() && !old(self).is_parked(t),
        ensures
            final(self).wf(),
            final(self).known() == old(self).known(),
            final(self).alive() == old(self).alive(),
            final(self).same_queues(old(self)),
            final(self).same_table(old(self)),
            final(self).same_fair(old(self)),
            handle is Some <==> target is Some,
            target matches Some(t) ==> {
                &&& final(self).token(t as int) == token
                &&& !final(self).asleep(t as int)
                &&& final(self).key_of(t as int) == old(self).key_of(t as int)
                &&& final(self).park_token(t as int) == old(self).park_token(t as int)
                &&& final(self).timed(t as int) == old(self).timed(t as int)
                &&& final(self).deadlock_data(t as int) == old(self).deadlock_data(t as int)
            },
            forall|u: int|
                0 <= u < old(self).known() && !(target is Some && target->0 == u)
                    ==> #[trigger] final(self).same_thread(old(self), u),
    {
        let last: usize = self.tables.len() - 1;
        proof {
            lemma_hash_in_range(key, self.tables@.last());
        }
        let bucket: usize = hash(key, self.tables[last].hash_bits);
        match target {
            None => {
                self.unlock_bucket(bucket);
                None
            },
            Some(t) => {
                let ghost start = *self;
                // Set the token for the target thread
                self.threads[t].unpark_token = token;
                let handle = self.threads[t].parker.unpark_lock();
                proof {
                    lemma_in_no_queue(start, t);
                    assert(self.threads@ =~= start.threads@.update(
                        t as int,
                        self.threads@[t as int],
                    ));
                    lemma_outsider_changed(start, *self, bucket as int, t);
                }
                let ghost marked = *self;
                self.unlock_bucket(bucket);
                proof {
                    assert forall|k: usize| #[trigger] self.waiting(k) == old(self).waiting(k) by {
                        assert(self.waiting(k) == marked.waiting(k));
                    }
                }
                Some(handle)
            },
        }
    }

    /// Unparks the thread that has been parked on the key for longest. The callback is
    /// called while the queue is locked and before the thread is woken up; it makes the
    /// token that is passed to the thread. Returns the thread with what is left to do: to
    /// wake it up.
    pub fn unpark_one(
        &mut self,
        key: usize,
        callback: impl FnOnce(UnparkResult) -> UnparkToken,
        now: Moment,
    ) -> (done: (UnparkResult, Option<(usize, UnparkHandle)>))
        requires
            old(self).wf(),
            now.wf(),
            forall|result: UnparkResult| #[trigger] call_requires(callback, (result,)),
        ensures
            final(self).wf(),
            final(self).known() == old(self).known(),
            final(self).alive() == old(self).alive(),
            final(self).same_table(old(self)),
            forall|k: usize| k != key ==> #[trigger] final(self).waiting(k) == old(self).waiting(k),
            old(self).waiting(key).len() == 0 ==> {
                &&& done.1 is None
                &&& done.0.nothing()
                &&& final(self).waiting(key) == old(self).waiting(key)
                &&& final(self).same_threads(old(self))
                &&& final(self).fair_kept(old(self), now)
                &&& exists|token: UnparkToken| #[trigger] call_ensures(callback, (done.0,), token)
            },
            old(self).waiting(key).len() > 0 ==> {
                let t = old(self).waiting(key)[0];
                &&& done.1 matches Some(woken) && woken.0 == t
                &&& final(self).unparked_first(old(self), key, t, done.0)
                &&& done.0.be_fair == old(self).fair(key).due(now)
                &&& old(self).fair(key).leads_to(now, final(self).fair(key))
                &&& forall|k: usize|
                    old(self).bucket_of(k) != old(self).bucket_of(key)
                        ==> #[trigger] final(self).fair(k) == old(self).fair(k)
                &&& call_ensures(callback, (done.0,), final(self).token(t as int))
            },
    {
        let (result, target) = self.unpark_begin(key, now);
        let ghost begun = *self;
        // Invoke the callback before waking up the thread
        let token = callback(result);
        let handle = self.unpark_end(key, target, token);
        proof {
            assert forall|k: usize| k != key implies #[trigger] self.waiting(k) == old(
                self,
            ).waiting(k) by {
                assert(self.waiting(k) == begun.waiting(k));
            }
            assert(self.waiting(key) == begun.waiting(key));
            assert forall|u: int|
                0 <= u < old(self).known() && !(target is Some && target->0 == u) implies #[trigger]
            self.same_thread(old(self), u) by {
                assert(begun.same_thread(old(self), u));
                assert(self.same_thread(&begun, u));
            }
            if let Some(t) = target {
                assert(begun.same_thread(old(self), t as int));
            }
        }
        match (target, handle) {
            (Some(t), Some(h)) => (result, Some((t, h))),
            _ => (result, None),
        }
    }

    /// Whether a parked thread is to sleep (on).
    pub fn must_sleep(&self, t: usize) -> (sleep: bool)
        requires
            t < self.known(),
        ensures
            sleep == self.asleep(t as int),
    {
        self.threads[t].parker.park()
    }

    /// What a thread does next that is parked until it is unparked or `timeout` has come.
    pub fn must_sleep_until(&self, t: usize, timeout: Moment, now: Moment) -> (wait: ParkWait)
        requires
            t < self.known(),
            timeout.formed(),
            now.wf(),
        ensures
            !self.asleep(t as int) ==> wait == ParkWait::Unparked,
            self.asleep(t as int) && timeout.total() <= now.total() ==> wait == ParkWait::TimedOut,
            self.asleep(t as int) && timeout.total() > now.total() ==> ({
                let left = timeout.total() - now.total();
                let secs = left / NANOS_PER_SEC as int;
                if secs > i64::MAX {
                    wait == ParkWait::Sleep
                } else {
                    wait == ParkWait::SleepFor(secs as i64, (left % NANOS_PER_SEC as int) as u32)
                }
            }),
    {
        self.threads[t].parker.park_until(timeout, now)
    }

    /// The token that a thread was unparked with.
    pub fn unpark_token(&self, t: usize) -> (token: UnparkToken)
        requires
            t < self.known(),
        ensures
            token == self.token(t as int),
    {
        self.threads[t].unpark_token
    }

    /// A thread is marked as having acquired a resource.
    pub fn acquire_resource(&mut self, t: usize, key: usize)
        requires
            old(self).wf(),
            t < old(self).known(),
        ensures
            final(self).wf(),
            final(self).same_queues(old(self)),
            final(self).same_but_data(old(self), t as int),
            final(self).same_but_resources(old(self), t as int),
            final(self).deadlock_data(t as int).resources@ == old(self).deadlock_data(
                t as int,
            ).resources@.push(key),
    {
        let ghost start = *self;
        acquire_resource(&mut self.threads[t].deadlock_data, key);
        proof {
            lemma_data_changed(start, *self, t);
        }
    }

    /// Whether a thread has a resource: only then may it be released.
    pub fn owns_resource(&self, t: usize, key: usize) -> (owned: bool)
        requires
            t < self.known(),
        ensures
            owned == self.deadlock_data(t as int).resources@.contains(key),
    {
        owns_resource(&self.threads[t].deadlock_data, key)
    }

    /// A thread is marked as not having a resource any more, which it had.
    pub fn release_resource(&mut self, t: usize, key: usize)
        requires
            old(self).wf(),
            t < old(self).known(),
            old(self).deadlock_data(t as int).resources@.contains(key),
        ensures
            final(self).wf(),
            final(self).same_queues(old(self)),
            final(self).same_but_data(old(self), t as int),
            final(self).same_but_resources(old(self), t as int),
            final(self).deadlock_data(t as int).resources@ == without(
                old(self).deadlock_data(t as int).resources@,
                key,
            ),
    {
        let ghost start = *self;
        release_resource(&mut self.threads[t].deadlock_data, key);
        proof {
            lemma_data_changed(start, *self, t);
        }
    }

    /// What a thread does once it has been unparked without a timeout: if it was found to
    /// be deadlocked, it has a report to send, and is to sleep until the end of time.
    pub fn on_unpark(&mut self, t: usize) -> (report: Option<
        (Sender<DeadlockedThread>, DeadlockedThread),
    >)
        requires
            old(self).wf(),
            t < old(self).known(),
            old(self).deadlock_data(t as int).deadlocked ==> old(self).deadlock_data(
                t as int,
            ).backtrace_sender is Some,
        ensures
            final(self).wf(),
            final(self).same_queues(old(self)),
            final(self).same_but_data(old(self), t as int),
            final(self).deadlock_data(t as int).resources@ == old(self).deadlock_data(
                t as int,
            ).resources@,
            final(self).deadlock_data(t as int).deadlocked == old(self).deadlock_data(
                t as int,
            ).deadlocked,
            final(self).deadlock_data(t as int).thread_id == old(self).deadlock_data(
                t as int,
            ).thread_id,
            report is Some <==> old(self).deadlock_data(t as int).deadlocked,
            report is None ==> final(self).same_but_resources(old(self), t as int),
            report matches Some(sent) ==> sent.0 == old(self).deadlock_data(
                t as int,
            ).backtrace_sender->0 && sent.1.id() == old(self).deadlock_data(t as int).thread_id
                && captured(sent.1.trace())
                && final(self).deadlock_data(t as int).backtrace_sender is None,
    {
        let ghost start = *self;
        let report = self.threads[t].deadlock_data.on_unpark();
        proof {
            lemma_data_changed(start, *self, t);
        }
        report
    }
}

/// The park of the thread that an unpark has taken returns with the token that the unpark's
/// callback made, whether the thread was woken up or its timeout came at the same time. No other
/// thread is unparked or requeued: all stay parked, in their order.
pub proof fn law_unpark_ends_park(
    before: ParkingLot,
    after: ParkingLot,
    later: ParkingLot,
    last: ParkingLot,
    key: usize,
    t: usize,
    unparked: bool,
    token: UnparkToken,
    result: UnparkResult,
    ended: ParkResult,
)
    requires
        after.unparked_first(&before, key, t, result),
        after.token(t as int) == token,
        later.same_thread(&after, t as int),
        last.park_ended(&later, t, unparked, ended),
    ensures
        ended == ParkResult::Unparked(token),
        before.waiting(key) == seq![t] + after.waiting(key),
        forall|k: usize| k != key ==> #[trigger] after.waiting(k) == before.waiting(k),
        forall|u: int|
            0 <= u < before.known() && u != t ==> #[trigger] after.same_thread(&before, u),
        result.unparked_threads == 1,
        result.requeued_threads == 0,
        !after.asleep(t as int),
        after.key_of(t as int) == before.key_of(t as int),
        after.park_token(t as int) == before.park_token(t as int),
        after.timed(t as int) == before.timed(t as int),
        after.deadlock_data(t as int) == before.deadlock_data(t as int),
        last.same_queues(&later),
        result.have_more_threads == (after.waiting(key).len() > 0),
{
    assert(before.waiting(key) =~= seq![t] + after.waiting(key));
}

/// A parked thread whose timeout has come while it was to sleep is taken out of its queue, and
/// is told so; all others stay in their queues, in their order. One that was unparked gets its
/// token, and no queue changes.
pub proof fn law_park_ends_as_it_was_ended(
    before: ParkingLot,
    after: ParkingLot,
    t: usize,
    unparked: bool,
    result: ParkResult,
    ahead: Seq<usize>,
    behind: Seq<usize>,
    k: usize,
)
    requires
        after.park_ended(&before, t, unparked, result),
        before.waiting(before.key_of(t as int)) == ahead + seq![t] + behind,
        !ahead.contains(t),
        !behind.contains(t),
    ensures
        unparked || !before.asleep(t as int) ==> {
            &&& result == ParkResult::Unparked(before.token(t as int))
            &&& after.waiting(k) == before.waiting(k)
        },
        !unparked && before.asleep(t as int) ==> {
            &&& result == ParkResult::TimedOut
            &&& after.waiting(before.key_of(t as int)) == ahead + behind
            &&& k != before.key_of(t as int) ==> after.waiting(k) == before.waiting(k)
        },
{
    let queue = ahead + seq![t] + behind;
    assert(queue[ahead.len() as int] == t);
    let p = queue.index_of(t);
    assert(queue.contains(t));
    if p < ahead.len() {
        assert(ahead[p] == t);
    }
    if p > ahead.len() {
        assert(behind[p - ahead.len() - 1] == t);
    }
    if !unparked && before.asleep(t as int) {
        assert(queue.remove(ahead.len() as int) =~= ahead + behind);
    }
}

/// Two lots that are the same in some respect agree in all that this says.
pub proof fn law_same_says_same(a: ParkingLot, b: ParkingLot, t: int, k: usize, now: Moment)
    ensures
        b.same_thread(&a, t) ==> {
            &&& b.key_of(t) == a.key_of(t)
            &&& b.token(t) == a.token(t)
            &&& b.park_token(t) == a.park_token(t)
            &&& b.timed(t) == a.timed(t)
            &&& b.asleep(t) == a.asleep(t)
            &&& b.deadlock_data(t) == a.deadlock_data(t)
        },
        b.same_threads(&a) && 0 <= t < a.known() ==> b.same_thread(&a, t) && b.known() == a.known()
            && b.alive() == a.alive(),
        b.same_but_data(&a, t) ==> {
            &&& b.known() == a.known()
            &&& b.key_of(t) == a.key_of(t)
            &&& b.token(t) == a.token(t)
            &&& b.asleep(t) == a.asleep(t)
            &&& forall|u: int| 0 <= u < a.known() && u != t ==> #[trigger] b.same_thread(&a, u)
            &&& b.fair(k) == a.fair(k)
        },
        b.same_but_resources(&a, t) ==> {
            &&& b.deadlock_data(t).deadlocked == a.deadlock_data(t).deadlocked
            &&& b.deadlock_data(t).backtrace_sender == a.deadlock_data(t).backtrace_sender
            &&& b.deadlock_data(t).thread_id == a.deadlock_data(t).thread_id
        },
        b.same_queues(&a) ==> b.waiting(k) == a.waiting(k),
        b.same_fair(&a) ==> b.fair(k) == a.fair(k),
        b.fair_kept(&a, now) && a.buckets() > 0 ==> b.fair(k) == a.fair(k),
        b.fair_kept(&a, now) && a.buckets() == 0 ==> b.fair(k).timeout == now && b.fair(k).seed
            == (b.bucket_of(k) + 1) as u32,
        b.same_table(&a) && a.buckets() > 0 ==> b.buckets() == a.buckets() && b.bucket_of(k)
            == a.bucket_of(k),
        0 <= t <= usize::MAX ==> (b.is_parked(t as usize) <==> b.waiting(b.key_of(t)).contains(
            t as usize,
        )),
{
}

/// The table grows only if it must, and then no further than it must: it has at least three
/// buckets for every thread, and less than six if it is a new one.
pub proof fn law_table_grows_as_it_must(
    before: ParkingLot,
    after: ParkingLot,
    num_threads: nat,
    now: Moment,
    k: usize,
)
    requires
        after.grown_for(&before, num_threads, now),
    ensures
        after.buckets() >= 3 * num_threads,
        before.buckets() > 0 && before.buckets() >= 3 * num_threads ==> after.buckets()
            == before.buckets() && after.fair(k) == before.fair(k),
        before.buckets() > 0 && before.buckets() < 3 * num_threads ==> after.buckets() < 6
            * num_threads && after.fair(k).timeout == now && after.fair(k).seed == (after.bucket_of(k)
            + 1) as u32,
        before.buckets() == 0 && 3 * num_threads <= 16 ==> after.buckets() == 16,
        before.buckets() == 0 ==> after.fair(k).timeout == now,
{
}

/// The bucket of a key is one that there is, and rests on the key and on how many buckets there
/// are alone. How many there are is a power of two. A thread that waits on a key is known, is
/// parked on that key, and is to sleep.
pub proof fn law_bucket_of_key(lot: ParkingLot, other: ParkingLot, k: usize, i: int)
    requires
        lot.wf(),
        other.wf(),
        lot.buckets() > 0,
        other.buckets() == lot.buckets(),
    ensures
        0 <= lot.bucket_of(k) < lot.buckets(),
        lot.bucket_of(k) == other.bucket_of(k),
        exists|bits: u32|
            lot.buckets() == pow2(bits as nat) && #[trigger] hash_of(k, bits) == lot.bucket_of(k),
        lot.buckets() >= 3 * lot.alive(),
        0 <= i < lot.waiting(k).len() ==> {
            let t = lot.waiting(k)[i] as int;
            t < lot.known() && lot.key_of(t) == k && lot.asleep(t)
        },
{
    let (table, like) = (lot.tables@.last(), other.tables@.last());
    lemma_hash_in_range(k, table);
    if table.hash_bits < like.hash_bits {
        lemma_pow2_strictly_increases(table.hash_bits as nat, like.hash_bits as nat);
    }
    if table.hash_bits > like.hash_bits {
        lemma_pow2_strictly_increases(like.hash_bits as nat, table.hash_bits as nat);
    }
    assert(hash_of(k, table.hash_bits) == lot.bucket_of(k));
    let bucket = table.entries@[lot.bucket_of(k)];
    let keys = keys_of(lot.threads@);
    assert(bucket_ok(lot.threads@, bucket, table.hash_bits, lot.bucket_of(k)));
    if 0 <= i < lot.waiting(k).len() {
        let t = lot.waiting(k)[i];
        lemma_filter_from(bucket.queue@, has_key(keys, k), t);
        let q = bucket.queue@.index_of(t);
        assert(link_ok(lot.threads@, bucket.queue@, q));
        assert(keys[t as int] == lot.threads@[t as int].key);
        assert(lot.threads@[bucket.queue@[q] as int].parker.parked());
    }
}

/// Where only the lock of a bucket changes, everything else stays as it is.
proof fn lemma_same_lists(a: ParkingLot, b: ParkingLot, bucket: int)
    requires
        a.tables@.len() > 0,
        a.ok(None) || a.ok(Some(bucket)),
        0 <= bucket < a.tables@.last().entries@.len(),
        b.threads@ == a.threads@,
        b.num_threads == a.num_threads,
        b.tables@.len() == a.tables@.len(),
        b.tables@.last().hash_bits == a.tables@.last().hash_bits,
        b.tables@.last().entries@ == a.tables@.last().entries@.update(
            bucket,
            b.tables@.last().entries@[bucket],
        ),
        ({
            let x = a.tables@.last().entries@[bucket];
            let y = b.tables@.last().entries@[bucket];
            &&& y.queue_head == x.queue_head
            &&& y.queue_tail == x.queue_tail
            &&& y.queue == x.queue
            &&& y.fair_timeout == x.fair_timeout
        }),
        b.tables@.last().entries@[bucket].mutex.word() <= 1,
    ensures
        b.tables@.last().entries@[bucket].mutex.word() == 1 ==> b.ok(Some(bucket)),
        b.tables@.last().entries@[bucket].mutex.word() == 0 ==> b.ok(None),
        b.same_queues(&a),
        b.same_table(&a),
        b.same_fair(&a),
{
    let ta = a.tables@.last();
    let tb = b.tables@.last();
    assert forall|c: int| 0 <= c < tb.entries@.len() implies bucket_ok(
        b.threads@,
        #[trigger] tb.entries@[c],
        tb.hash_bits,
        c,
    ) && tb.entries@[c].mutex.word() == (if c == bucket {
        tb.entries@[bucket].mutex.word()
    } else {
        0
    }) by {
        assert(bucket_ok(a.threads@, ta.entries@[c], ta.hash_bits, c));
    }
    assert forall|key: usize| #[trigger] b.waiting(key) == a.waiting(key) by {
        lemma_hash_in_range(key, ta);
    }
    assert forall|key: usize| #[trigger] b.fair(key) == a.fair(key) by {
        lemma_hash_in_range(key, ta);
    }
    lemma_pow2_pos(ta.hash_bits as nat);
}

/// A thread that is not parked is in no queue.
proof fn lemma_in_no_queue(lot: ParkingLot, t: usize)
    requires
        lot.tables@.len() > 0,
        exists|held: Option<int>| lot.ok(held),
        !lot.is_parked(t),
    ensures
        forall|b: int|
            0 <= b < lot.tables@.last().entries@.len() ==> !(
            #[trigger] lot.tables@.last().entries@[b]).queue@.contains(t),
{
    let table = lot.tables@.last();
    assert forall|b: int| 0 <= b < table.entries@.len() implies !(
    #[trigger] table.entries@[b]).queue@.contains(t) by {
        let queue = table.entries@[b].queue@;
        if queue.contains(t) {
            assert(bucket_ok(lot.threads@, table.entries@[b], table.hash_bits, b));
            let q = choose|q: int| 0 <= q < queue.len() && queue[q] == t;
            assert(link_ok(lot.threads@, queue, q));
            lemma_by_key_some(keys_of(lot.threads@), queue, lot.key_of(t as int), q);
        }
    }
}

/// Where the links of one bucket change, and a thread that is in none of the others, the
/// other buckets stay as they are.
proof fn lemma_other_buckets(
    a: Seq<ThreadData>,
    b: Seq<ThreadData>,
    table: HashTable,
    c: int,
    extra: usize,
)
    requires
        table.sized(),
        0 <= c < table.entries@.len(),
        forall|d: int|
            0 <= d < table.entries@.len() ==> bucket_ok(
                a,
                #[trigger] table.entries@[d],
                table.hash_bits,
                d,
            ),
        forall|d: int|
            0 <= d < table.entries@.len() && d != c ==> !(
            #[trigger] table.entries@[d]).queue@.contains(extra),
        a.len() == b.len(),
        forall|t: usize|
            t < a.len() && t != extra && !table.entries@[c].queue@.contains(t)
                ==> #[trigger] b[t as int] == a[t as int],
    ensures
        forall|d: int|
            0 <= d < table.entries@.len() && d != c ==> bucket_ok(
                b,
                #[trigger] table.entries@[d],
                table.hash_bits,
                d,
            ),
        forall|k: usize|
            hash_of(k, table.hash_bits) != c ==> #[trigger] by_key(
                keys_of(b),
                table.entries@[hash_of(k, table.hash_bits)].queue@,
                k,
            ) == by_key(keys_of(a), table.entries@[hash_of(k, table.hash_bits)].queue@, k),
{
    let bits = table.hash_bits;
    assert forall|d: int| 0 <= d < table.entries@.len() && d != c implies bucket_ok(
        b,
        #[trigger] table.entries@[d],
        bits,
        d,
    ) && (forall|k: usize| #[trigger]
        by_key(keys_of(b), table.entries@[d].queue@, k) == by_key(
            keys_of(a),
            table.entries@[d].queue@,
            k,
        )) by {
        let queue = table.entries@[d].queue@;
        assert(bucket_ok(a, table.entries@[d], bits, d));
        assert forall|q: int| 0 <= q < queue.len() implies b[#[trigger] queue[q] as int]
            == a[queue[q] as int] by {
            assert(link_ok(a, queue, q));
            assert(queue.contains(queue[q]));
            let mine = table.entries@[c].queue@;
            if mine.contains(queue[q]) {
                let r = choose|r: int| 0 <= r < mine.len() && mine[r] == queue[q];
                assert(bucket_ok(a, table.entries@[c], bits, c));
                assert(hash_of(a[mine[r] as int].key, bits) == c);
            }
        }
        lemma_bucket_frame(a, b, table.entries@[d], bits, d);
    }
    assert forall|k: usize| hash_of(k, bits) != c implies #[trigger] by_key(
        keys_of(b),
        table.entries@[hash_of(k, bits)].queue@,
        k,
    ) == by_key(keys_of(a), table.entries@[hash_of(k, bits)].queue@, k) by {
        lemma_hash_in_range(k, table);
    }
}

/// Putting a thread at the end of the queue of its bucket.
proof fn lemma_parked(a: ParkingLot, b: ParkingLot, c: int, t: usize, key: usize)
    requires
        a.tables@.len() > 0,
        a.ok(Some(c)),
        c == a.bucket_of(key),
        0 <= c < a.tables@.last().entries@.len(),
        t < a.threads@.len(),
        forall|d: int|
            0 <= d < a.tables@.last().entries@.len() ==> !(
            #[trigger] a.tables@.last().entries@[d]).queue@.contains(t),
        b.threads@.len() == a.threads@.len(),
        b.threads@[t as int].key == key,
        b.threads@[t as int].parker.parked(),
        forall|u: usize|
            u < a.threads@.len() && u != t && !a.tables@.last().entries@[c].queue@.contains(u)
                ==> #[trigger] b.threads@[u as int] == a.threads@[u as int],
        forall|u: int|
            0 <= u < a.threads@.len() && u != t ==> #[trigger] b.threads@[u] == (ThreadData {
                next_in_queue: b.threads@[u].next_in_queue,
                ..a.threads@[u]
            }),
        b.num_threads == a.num_threads,
        b.tables@.len() == a.tables@.len(),
        b.tables@.last().hash_bits == a.tables@.last().hash_bits,
        b.tables@.last().entries@ == a.tables@.last().entries@.update(
            c,
            b.tables@.last().entries@[c],
        ),
        threaded(b.threads@, b.tables@.last().entries@[c]),
        b.tables@.last().entries@[c].queue@ == a.tables@.last().entries@[c].queue@.push(t),
        b.tables@.last().entries@[c].mutex == a.tables@.last().entries@[c].mutex,
        b.tables@.last().entries@[c].fair_timeout == a.tables@.last().entries@[c].fair_timeout,
    ensures
        b.ok(Some(c)),
        b.same_table(&a),
        b.same_fair(&a),
        b.waiting(key) == a.waiting(key).push(t),
        forall|k: usize| k != key ==> #[trigger] b.waiting(k) == a.waiting(k),
{
    let table = a.tables@.last();
    let bits = table.hash_bits;
    let queue = table.entries@[c].queue@;
    let longer = queue.push(t);
    let keys_a = keys_of(a.threads@);
    let keys_b = keys_of(b.threads@);
    assert(bucket_ok(a.threads@, table.entries@[c], bits, c));
    lemma_other_buckets(a.threads@, b.threads@, table, c, t);
    assert forall|q: int| 0 <= q < longer.len() implies {
        let thread = b.threads@[#[trigger] longer[q] as int];
        hash_of(thread.key, bits) == c && thread.parker.parked()
    } by {
        if q < queue.len() {
            assert(longer[q] == queue[q]);
            assert(link_ok(a.threads@, queue, q));
            assert(queue.contains(queue[q]));
        }
    }
    assert forall|d: int| 0 <= d < table.entries@.len() implies bucket_ok(
        b.threads@,
        #[trigger] b.tables@.last().entries@[d],
        bits,
        d,
    ) by {
        if d != c {
            assert(b.tables@.last().entries@[d] == table.entries@[d]);
        }
    }
    assert forall|k: usize| #[trigger]
        b.waiting(k) == (if k == key {
            a.waiting(k).push(t)
        } else {
            a.waiting(k)
        }) by {
        lemma_hash_in_range(k, table);
        let d = hash_of(k, bits);
        if d == c {
            let p = has_key(keys_b, k);
            let r = has_key(keys_a, k);
            assert forall|i: int| 0 <= i < queue.len() implies p(#[trigger] queue[i]) == r(
                queue[i],
            ) by {
                assert(link_ok(a.threads@, queue, i));
                assert(queue.contains(queue[i]));
            }
            lemma_filter_same(queue, p, r);
            lemma_filter_push(queue, t, p);
        } else {
            assert(b.tables@.last().entries@[d] == table.entries@[d]);
        }
    }
    lemma_pow2_pos(a.tables@.last().hash_bits as nat);
    assert forall|k: usize| #[trigger] b.fair(k) == a.fair(k) by {
        lemma_hash_in_range(k, a.tables@.last());
    }
}

/// Taking the thread at place `p` out of the queue of a bucket.
proof fn lemma_removed(a: ParkingLot, b: ParkingLot, c: int, p: int)
    requires
        a.tables@.len() > 0,
        a.ok(Some(c)),
        0 <= c < a.tables@.last().entries@.len(),
        0 <= p < a.tables@.last().entries@[c].queue@.len(),
        same_but_links(a.threads@, b.threads@),
        forall|t: int|
            0 <= t < a.threads@.len() && !a.tables@.last().entries@[c].queue@.contains(t as usize)
                ==> #[trigger] b.threads@[t] == a.threads@[t],
        b.num_threads == a.num_threads,
        b.tables@.len() == a.tables@.len(),
        b.tables@.last().hash_bits == a.tables@.last().hash_bits,
        b.tables@.last().entries@ == a.tables@.last().entries@.update(
            c,
            b.tables@.last().entries@[c],
        ),
        threaded(b.threads@, b.tables@.last().entries@[c]),
        b.tables@.last().entries@[c].queue@ == a.tables@.last().entries@[c].queue@.remove(p),
        b.tables@.last().entries@[c].mutex == a.tables@.last().entries@[c].mutex,
        b.tables@.last().entries@[c].fair_timeout == a.tables@.last().entries@[c].fair_timeout,
    ensures
        b.ok(Some(c)),
        b.same_table(&a),
        b.same_fair(&a),
        keys_of(b.threads@) == keys_of(a.threads@),
        ({
            let queue = a.tables@.last().entries@[c].queue@;
            let keys = keys_of(a.threads@);
            let key = a.key_of(queue[p] as int);
            let front = by_key(keys, queue.take(p), key);
            let rest = by_key(keys, queue.skip(p + 1), key);
            &&& a.bucket_of(key) == c
            &&& a.waiting(key) == front + seq![queue[p]] + rest
            &&& b.waiting(key) == front + rest
            &&& forall|k: usize| k != key ==> #[trigger] b.waiting(k) == a.waiting(k)
        }),
{
    let table = a.tables@.last();
    let bits = table.hash_bits;
    let queue = table.entries@[c].queue@;
    let rest = queue.remove(p);
    let keys = keys_of(a.threads@);
    let key = a.key_of(queue[p] as int);
    assert(keys_of(b.threads@) =~= keys);
    assert(bucket_ok(a.threads@, table.entries@[c], bits, c));
    assert(link_ok(a.threads@, queue, p));
    assert(queue.contains(queue[p]));
    assert forall|d: int| 0 <= d < table.entries@.len() && d != c implies !(
    #[trigger] table.entries@[d]).queue@.contains(queue[p]) by {
        let other = table.entries@[d].queue@;
        if other.contains(queue[p]) {
            let r = choose|r: int| 0 <= r < other.len() && other[r] == queue[p];
            assert(bucket_ok(a.threads@, table.entries@[d], bits, d));
            assert(hash_of(a.threads@[other[r] as int].key, bits) == d);
        }
    }
    lemma_other_buckets(a.threads@, b.threads@, table, c, queue[p]);
    assert forall|q: int| 0 <= q < rest.len() implies {
        let thread = b.threads@[#[trigger] rest[q] as int];
        hash_of(thread.key, bits) == c && thread.parker.parked()
    } by {
        let from = if q < p {
            q
        } else {
            q + 1
        };
        assert(rest[q] == queue[from]);
        assert(link_ok(a.threads@, queue, from));
        assert(hash_of(a.threads@[queue[from] as int].key, bits) == c);
    }
    assert forall|d: int| 0 <= d < table.entries@.len() implies bucket_ok(
        b.threads@,
        #[trigger] b.tables@.last().entries@[d],
        bits,
        d,
    ) && b.tables@.last().entries@[d].mutex.word() == (if d == c {
        1usize
    } else {
        0
    }) by {
        assert(bucket_ok(a.threads@, table.entries@[d], bits, d));
        if d != c {
            assert(b.tables@.last().entries@[d] == table.entries@[d]);
        }
    }
    assert(b.ok(Some(c)));
    lemma_filter_split(queue, p, has_key(keys, key));
    assert(hash_of(a.threads@[queue[p] as int].key, bits) == c);
    assert forall|k: usize| k != key implies #[trigger] b.waiting(k) == a.waiting(k) by {
        lemma_hash_in_range(k, table);
        let d = hash_of(k, bits);
        if d == c {
            lemma_filter_split(queue, p, has_key(keys, k));
            assert(by_key(keys, queue, k) =~= by_key(keys, rest, k));
        } else {
            assert(b.tables@.last().entries@[d] == table.entries@[d]);
        }
    }
    lemma_pow2_pos(a.tables@.last().hash_bits as nat);
    assert forall|k: usize| #[trigger] b.fair(k) == a.fair(k) by {
        lemma_hash_in_range(k, a.tables@.last());
    }
}

/// Where the thread that was taken out was the first with its key, it was the one that had
/// waited longest.
proof fn lemma_first_removed(a: ParkingLot, b: ParkingLot, c: int, p: int, at_end: bool)
    requires
        a.tables@.len() > 0,
        a.ok(Some(c)),
        0 <= c < a.tables@.last().entries@.len(),
        0 <= p < a.tables@.last().entries@[c].queue@.len(),
        b.tables@.len() > 0,
        b.ok(Some(c)),
        b.threads@.len() == a.threads@.len(),
        keys_of(b.threads@) == keys_of(a.threads@),
        b.tables@.last().hash_bits == a.tables@.last().hash_bits,
        b.tables@.last().entries@.len() == a.tables@.last().entries@.len(),
        b.tables@.last().entries@[c].queue@ == a.tables@.last().entries@[c].queue@.remove(p),
        ({
            let queue = a.tables@.last().entries@[c].queue@;
            let keys = keys_of(a.threads@);
            let key = a.key_of(queue[p] as int);
            let front = by_key(keys, queue.take(p), key);
            let rest = by_key(keys, queue.skip(p + 1), key);
            &&& a.bucket_of(key) == c
            &&& a.waiting(key) == front + seq![queue[p]] + rest
            &&& b.waiting(key) == front + rest
            &&& forall|r: int|
                0 <= r < p ==> a.threads@[#[trigger] queue[r] as int].key != key
            &&& at_end == (p == queue.len() - 1)
        }),
    ensures
        ({
            let queue = a.tables@.last().entries@[c].queue@;
            let keys = keys_of(a.threads@);
            let key = a.key_of(queue[p] as int);
            &&& a.waiting(key).len() > 0
            &&& a.waiting(key)[0] == queue[p]
            &&& queue[p] < a.threads@.len()
            &&& a.asleep(queue[p] as int)
            &&& b.waiting(key) == a.waiting(key).skip(1)
            &&& !b.is_parked(queue[p])
            &&& a.waiting(key).len() > 1 <==> !at_end && by_key(
                keys,
                queue.remove(p).skip(p),
                key,
            ).len() > 0
        }),
{
    let table = a.tables@.last();
    let queue = table.entries@[c].queue@;
    let keys = keys_of(a.threads@);
    let key = a.key_of(queue[p] as int);
    let front = by_key(keys, queue.take(p), key);
    let rest = by_key(keys, queue.skip(p + 1), key);
    assert(bucket_ok(a.threads@, table.entries@[c], table.hash_bits, c));
    assert(link_ok(a.threads@, queue, p));
    assert forall|q: int| 0 <= q < queue.take(p).len() implies keys[#[trigger] queue.take(
        p,
    )[q] as int] != key by {
        assert(queue.take(p)[q] == queue[q]);
        assert(link_ok(a.threads@, queue, q));
    }
    lemma_by_key_none(keys, queue.take(p), key);
    assert(a.waiting(key) =~= seq![queue[p]] + rest);
    assert(b.waiting(key) =~= a.waiting(key).skip(1));
    assert(queue.remove(p).skip(p) =~= queue.skip(p + 1));
    if at_end {
        lemma_by_key_none(keys, queue.skip(p + 1), key);
    }
    if b.is_parked(queue[p]) {
        assert(keys_of(b.threads@)[queue[p] as int] == keys[queue[p] as int]);
        assert(b.key_of(queue[p] as int) == key);
        lemma_filter_from(queue.remove(p), has_key(keys, key), queue[p]);
        let q = choose|q: int| 0 <= q < queue.remove(p).len() && queue.remove(p)[q] == queue[p];
        let from = if q < p {
            q
        } else {
            q + 1
        };
        assert(queue[from] != queue[p]);
    }
}

/// Where a thread that timed out was taken out of its queue, it was the last one exactly if
/// no other thread before or behind it has its key.
proof fn lemma_timed_out(
    a: ParkingLot,
    b: ParkingLot,
    c: int,
    p: int,
    was_last: bool,
    at_end: bool,
)
    requires
        a.tables@.len() > 0,
        a.ok(Some(c)),
        0 <= c < a.tables@.last().entries@.len(),
        0 <= p < a.tables@.last().entries@[c].queue@.len(),
        ({
            let queue = a.tables@.last().entries@[c].queue@;
            let keys = keys_of(a.threads@);
            let key = a.key_of(queue[p] as int);
            let front = by_key(keys, queue.take(p), key);
            let rest = by_key(keys, queue.skip(p + 1), key);
            &&& a.waiting(key) == front + seq![queue[p]] + rest
            &&& b.waiting(key) == front + rest
            &&& at_end == (p == queue.len() - 1)
            &&& was_last == ((forall|r: int|
                0 <= r < p ==> a.threads@[#[trigger] queue[r] as int].key != key) && (at_end
                || by_key(keys, queue.remove(p).skip(p), key).len() == 0))
        }),
    ensures
        ({
            let t = a.tables@.last().entries@[c].queue@[p];
            let before = a.waiting(a.key_of(t as int));
            &&& was_last == (before == seq![t])
            &&& b.waiting(a.key_of(t as int)) == before.remove(before.index_of(t))
        }),
{
    let table = a.tables@.last();
    let queue = table.entries@[c].queue@;
    let keys = keys_of(a.threads@);
    let t = queue[p];
    let key = a.key_of(t as int);
    let front = by_key(keys, queue.take(p), key);
    let rest = by_key(keys, queue.skip(p + 1), key);
    let before = a.waiting(key);
    assert(bucket_ok(a.threads@, table.entries@[c], table.hash_bits, c));
    assert(queue.remove(p).skip(p) =~= queue.skip(p + 1));
    if at_end {
        lemma_by_key_none(keys, queue.skip(p + 1), key);
    }
    let earlier = exists|r: int|
        0 <= r < p && a.threads@[#[trigger] queue[r] as int].key == key;
    if earlier {
        let r = choose|r: int| 0 <= r < p && a.threads@[#[trigger] queue[r] as int].key == key;
        assert(queue.take(p)[r] == queue[r]);
        assert(link_ok(a.threads@, queue, r));
        lemma_by_key_some(keys, queue.take(p), key, r);
    } else {
        assert forall|q: int| 0 <= q < queue.take(p).len() implies keys[#[trigger] queue.take(
            p,
        )[q] as int] != key by {
            assert(queue.take(p)[q] == queue[q]);
            assert(link_ok(a.threads@, queue, q));
        }
        lemma_by_key_none(keys, queue.take(p), key);
    }
    assert(before.len() == front.len() + 1 + rest.len());
    if before.len() == 1 {
        assert(before =~= seq![t]);
    }
    // The thread occurs nowhere else among those that wait for the key.
    let n = front.len() as int;
    assert(before[n] == t);
    assert(before.contains(t));
    let i = before.index_of(t);
    assert(0 <= i < before.len() && before[i] == t);
    if i < n {
        assert(front[i] == t);
        assert(front.contains(t));
        lemma_filter_from(queue.take(p), has_key(keys, key), t);
        let q = choose|q: int| 0 <= q < queue.take(p).len() && queue.take(p)[q] == t;
        assert(queue[q] != queue[p]);
    } else if i > n {
        assert(rest[i - n - 1] == t);
        assert(rest.contains(t));
        lemma_filter_from(queue.skip(p + 1), has_key(keys, key), t);
        let behind = queue.skip(p + 1);
        let q = choose|q: int| 0 <= q < behind.len() && behind[q] == t;
        assert(queue[p + 1 + q] != queue[p]);
    }
    assert(before.remove(i) =~= front + rest);
}

/// A new time for a fair unpark changes nothing else.
proof fn lemma_fair_changed(a: ParkingLot, b: ParkingLot, c: int)
    requires
        a.tables@.len() > 0,
        a.ok(Some(c)),
        0 <= c < a.tables@.last().entries@.len(),
        b.threads@ == a.threads@,
        b.num_threads == a.num_threads,
        b.tables@.len() == a.tables@.len(),
        b.tables@.last().hash_bits == a.tables@.last().hash_bits,
        b.tables@.last().entries@ == a.tables@.last().entries@.update(
            c,
            Bucket {
                fair_timeout: b.tables@.last().entries@[c].fair_timeout,
                ..a.tables@.last().entries@[c]
            },
        ),
        b.tables@.last().entries@[c].fair_timeout.wf(),
    ensures
        b.ok(Some(c)),
        b.same_queues(&a),
        b.same_table(&a),
        forall|k: usize| a.bucket_of(k) != c ==> #[trigger] b.fair(k) == a.fair(k),
{
    let ta = a.tables@.last();
    let tb = b.tables@.last();
    assert forall|d: int| 0 <= d < tb.entries@.len() implies bucket_ok(
        b.threads@,
        #[trigger] tb.entries@[d],
        tb.hash_bits,
        d,
    ) && tb.entries@[d].mutex.word() == (if d == c {
        1usize
    } else {
        0
    }) by {
        assert(bucket_ok(a.threads@, ta.entries@[d], ta.hash_bits, d));
    }
    assert forall|key: usize| #[trigger] b.waiting(key) == a.waiting(key) by {
        lemma_hash_in_range(key, ta);
    }
    lemma_pow2_pos(a.tables@.last().hash_bits as nat);
    assert forall|k: usize| a.bucket_of(k) != c implies #[trigger] b.fair(k) == a.fair(k) by {
        lemma_hash_in_range(k, a.tables@.last());
    }
}

/// A change of a thread that is in no queue changes no queue.
proof fn lemma_outsider_changed(a: ParkingLot, b: ParkingLot, c: int, t: usize)
    requires
        a.tables@.len() > 0,
        a.ok(Some(c)),
        0 <= c < a.tables@.last().entries@.len(),
        t < a.threads@.len(),
        forall|d: int|
            0 <= d < a.tables@.last().entries@.len() ==> !(
            #[trigger] a.tables@.last().entries@[d]).queue@.contains(t),
        b.threads@ == a.threads@.update(t as int, b.threads@[t as int]),
        b.threads@[t as int].key == a.threads@[t as int].key,
        b.num_threads == a.num_threads,
        b.tables@ == a.tables@,
    ensures
        b.ok(Some(c)),
        b.same_queues(&a),
        b.same_table(&a),
        b.same_fair(&a),
{
    let table = a.tables@.last();
    assert(keys_of(b.threads@) =~= keys_of(a.threads@));
    assert forall|d: int| 0 <= d < table.entries@.len() implies bucket_ok(
        b.threads@,
        #[trigger] table.entries@[d],
        table.hash_bits,
        d,
    ) && table.entries@[d].mutex.word() == (if d == c {
        1usize
    } else {
        0
    }) by {
        let queue = table.entries@[d].queue@;
        assert(bucket_ok(a.threads@, table.entries@[d], table.hash_bits, d));
        assert forall|q: int| 0 <= q < queue.len() implies b.threads@[#[trigger] queue[q] as int]
            == a.threads@[queue[q] as int] by {
            assert(link_ok(a.threads@, queue, q));
            assert(queue.contains(queue[q]));
        }
        lemma_bucket_frame(a.threads@, b.threads@, table.entries@[d], table.hash_bits, d);
    }
    assert forall|key: usize| #[trigger] b.waiting(key) == a.waiting(key) by {}
    lemma_pow2_pos(table.hash_bits as nat);
}

/// What deadlock detection keeps of a thread has nothing to do with the queues.
proof fn lemma_data_changed(a: ParkingLot, b: ParkingLot, t: usize)
    requires
        a.wf(),
        t < a.threads@.len(),
        b.threads@ == a.threads@.update(
            t as int,
            ThreadData {
                deadlock_data: b.threads@[t as int].deadlock_data,
                ..a.threads@[t as int]
            },
        ),
        b.num_threads == a.num_threads,
        b.tables@ == a.tables@,
    ensures
        b.wf(),
        b.same_queues(&a),
        b.same_but_data(&a, t as int),
{
    let table = a.tables@.last();
    assert(keys_of(b.threads@) =~= keys_of(a.threads@));
    assert forall|d: int| 0 <= d < table.entries@.len() implies bucket_ok(
        b.threads@,
        #[trigger] table.entries@[d],
        table.hash_bits,
        d,
    ) by {
        let queue = table.entries@[d].queue@;
        assert(bucket_ok(a.threads@, table.entries@[d], table.hash_bits, d));
        assert forall|q: int| 0 <= q < queue.len() implies {
            let x = b.threads@[#[trigger] queue[q] as int];
            let y = a.threads@[queue[q] as int];
            x.next_in_queue == y.next_in_queue && x.key == y.key && x.parker == y.parker
        } by {
            assert(link_ok(a.threads@, queue, q));
        }
        lemma_bucket_frame(a.threads@, b.threads@, table.entries@[d], table.hash_bits, d);
    }
    assert forall|key: usize| #[trigger] b.waiting(key) == a.waiting(key) by {}
}

/// The lists of the two tables are the same.
spec fn same_lists(a: HashTable, b: HashTable) -> bool {
    &&& b.hash_bits == a.hash_bits
    &&& b.entries@.len() == a.entries@.len()
    &&& forall|c: int|
        0 <= c < a.entries@.len() ==> (#[trigger] b.entries@[c]).queue_head
            == a.entries@[c].queue_head
}

/// The threads of the buckets before `b` are in `done`: for each key, in their order.
spec fn moved(threads: Seq<ThreadData>, table: HashTable, done: Seq<usize>, b: int) -> bool {
    let keys = keys_of(threads);
    &&& forall|i: int|
        0 <= i < done.len() ==> {
            &&& #[trigger] done[i] < threads.len()
            &&& 0 <= hash_of(threads[done[i] as int].key, table.hash_bits) < b
            &&& threads[done[i] as int].parker.parked()
        }
    &&& forall|key: usize| #[trigger]
        by_key(keys, done, key) == (if hash_of(key, table.hash_bits) < b {
            by_key(keys, table.entries@[hash_of(key, table.hash_bits)].queue@, key)
        } else {
            Seq::empty()
        })
}

/// An empty table holds no thread.
proof fn lemma_nothing_placed(threads: Seq<ThreadData>, table: HashTable)
    requires
        table.sized(),
        forall|b: int|
            0 <= b < table.entries@.len() ==> (#[trigger] table.entries@[b]).empty()
                && table.entries@[b].fair_timeout.wf(),
    ensures
        placed(threads, table, Seq::empty()),
{
    assert forall|c: int| 0 <= c < table.entries@.len() implies {
        &&& threaded(threads, #[trigger] table.entries@[c])
        &&& table.entries@[c].queue@ == by_bucket(
            keys_of(threads),
            Seq::empty(),
            table.hash_bits,
            c,
        )
        &&& table.entries@[c].mutex.word() == 0
        &&& table.entries@[c].fair_timeout.wf()
    } by {
        assert(table.entries@[c].empty());
        lemma_filter_none(
            Seq::empty(),
            in_bucket(keys_of(threads), table.hash_bits, c),
        );
    }
}

/// Before the first bucket, no thread has been moved.
proof fn lemma_nothing_moved(threads: Seq<ThreadData>, table: HashTable)
    requires
        table.sized(),
    ensures
        moved(threads, table, Seq::empty(), 0),
{
    let keys = keys_of(threads);
    let none = Seq::<usize>::empty();
    assert forall|key: usize| #[trigger]
        by_key(keys, none, key) == (if hash_of(key, table.hash_bits) < 0 {
            by_key(keys, table.entries@[hash_of(key, table.hash_bits)].queue@, key)
        } else {
            Seq::empty()
        }) by {
        lemma_by_key_none(keys, none, key);
        lemma_hash_in_range(key, table);
    }
}

/// The threads of the next bucket have not been moved yet.
proof fn lemma_move_next(
    start: Seq<ThreadData>,
    now: Seq<ThreadData>,
    table: HashTable,
    done: Seq<usize>,
    b: int,
)
    requires
        same_but_links(start, now),
        moved(start, table, done, b),
        0 <= b < table.entries@.len(),
        bucket_ok(now, table.entries@[b], table.hash_bits, b),
    ensures
        forall|q: int|
            0 <= q < table.entries@[b].queue@.len() ==> !done.contains(
                #[trigger] table.entries@[b].queue@[q],
            ),
{
    let queue = table.entries@[b].queue@;
    assert forall|q: int| 0 <= q < queue.len() implies !done.contains(#[trigger] queue[q]) by {
        assert(link_ok(now, queue, q));
        if done.contains(queue[q]) {
            let i = choose|i: int| 0 <= i < done.len() && done[i] == queue[q];
            assert(hash_of(start[done[i] as int].key, table.hash_bits) < b);
            assert(now[queue[q] as int].key == start[queue[q] as int].key);
        }
    }
}

/// The threads of one more bucket have been moved.
proof fn lemma_moved_next(
    start: Seq<ThreadData>,
    before: Seq<ThreadData>,
    now: Seq<ThreadData>,
    table: HashTable,
    done: Seq<usize>,
    b: int,
)
    requires
        table.sized(),
        same_but_links(start, before),
        same_but_links(before, now),
        moved(start, table, done, b),
        0 <= b < table.entries@.len(),
        forall|c: int|
            b <= c < table.entries@.len() ==> bucket_ok(
                before,
                #[trigger] table.entries@[c],
                table.hash_bits,
                c,
            ),
        forall|t: usize|
            t < before.len() && !(done + table.entries@[b].queue@).contains(t)
                ==> #[trigger] now[t as int] == before[t as int],
    ensures
        same_but_links(start, now),
        moved(start, table, done + table.entries@[b].queue@, b + 1),
        forall|c: int|
            b < c < table.entries@.len() ==> bucket_ok(
                now,
                #[trigger] table.entries@[c],
                table.hash_bits,
                c,
            ),
{
    let keys = keys_of(start);
    let queue = table.entries@[b].queue@;
    let longer = done + queue;
    let bits = table.hash_bits;
    assert(bucket_ok(before, table.entries@[b], bits, b));
    assert forall|i: int| 0 <= i < longer.len() implies {
        &&& #[trigger] longer[i] < start.len()
        &&& 0 <= hash_of(start[longer[i] as int].key, bits) < b + 1
        &&& start[longer[i] as int].parker.parked()
    } by {
        if i < done.len() {
            assert(longer[i] == done[i]);
        } else {
            assert(longer[i] == queue[i - done.len()]);
            assert(link_ok(before, queue, i - done.len()));
            assert(before[longer[i] as int].key == start[longer[i] as int].key);
            assert(hash_of(before[queue[i - done.len()] as int].key, bits) == b);
        }
    }
    assert forall|key: usize| #[trigger]
        by_key(keys, longer, key) == (if hash_of(key, bits) < b + 1 {
            by_key(keys, table.entries@[hash_of(key, bits)].queue@, key)
        } else {
            Seq::empty()
        }) by {
        Seq::filter_distributes_over_add(done, queue, has_key(keys, key));
        assert(by_key(keys, longer, key) == by_key(keys, done, key) + by_key(keys, queue, key));
        if hash_of(key, bits) != b {
            assert forall|q: int| 0 <= q < queue.len() implies keys[#[trigger] queue[q] as int]
                != key by {
                assert(link_ok(before, queue, q));
                assert(hash_of(before[queue[q] as int].key, bits) == b);
                assert(before[queue[q] as int].key == start[queue[q] as int].key);
            }
            lemma_by_key_none(keys, queue, key);
            assert(by_key(keys, longer, key) =~= by_key(keys, done, key));
        } else {
            assert(by_key(keys, longer, key) =~= by_key(keys, queue, key));
        }
    }
    assert forall|c: int| b < c < table.entries@.len() implies bucket_ok(
        now,
        #[trigger] table.entries@[c],
        bits,
        c,
    ) by {
        let other = table.entries@[c].queue@;
        assert(bucket_ok(before, table.entries@[c], bits, c));
        assert forall|q: int| 0 <= q < other.len() implies now[#[trigger] other[q] as int]
            == before[other[q] as int] by {
            assert(link_ok(before, other, q));
            if longer.contains(other[q]) {
                let i = choose|i: int| 0 <= i < longer.len() && longer[i] == other[q];
                assert(hash_of(start[longer[i] as int].key, bits) < b + 1);
                assert(before[other[q] as int].key == start[other[q] as int].key);
                assert(hash_of(before[other[q] as int].key, bits) == c);
            }
        }
        lemma_bucket_frame(before, now, table.entries@[c], bits, c);
    }
}

/// With the threads of all buckets moved, the new table holds the same threads for every
/// key, in their order.
proof fn lemma_rehashed(
    start: Seq<ThreadData>,
    now: Seq<ThreadData>,
    old_table: HashTable,
    table: HashTable,
    done: Seq<usize>,
)
    requires
        same_but_links(start, now),
        old_table.sized(),
        moved(start, old_table, done, old_table.entries@.len() as int),
        placed(now, table, done),
    ensures
        forall|b: int|
            0 <= b < table.entries@.len() ==> bucket_ok(
                now,
                #[trigger] table.entries@[b],
                table.hash_bits,
                b,
            ),
        forall|key: usize| #[trigger]
            by_key(keys_of(now), table.entries@[hash_of(key, table.hash_bits)].queue@, key)
                == by_key(
                keys_of(start),
                old_table.entries@[hash_of(key, old_table.hash_bits)].queue@,
                key,
            ),
{
    let keys = keys_of(start);
    assert(keys_of(now) =~= keys);
    assert forall|b: int| 0 <= b < table.entries@.len() implies bucket_ok(
        now,
        #[trigger] table.entries@[b],
        table.hash_bits,
        b,
    ) by {
        let queue = table.entries@[b].queue@;
        assert(threaded(now, table.entries@[b]));
        assert forall|q: int| 0 <= q < queue.len() implies {
            let thread = now[#[trigger] queue[q] as int];
            hash_of(thread.key, table.hash_bits) == b && thread.parker.parked()
        } by {
            assert(queue.contains(queue[q]));
            lemma_filter_from(done, in_bucket(keys, table.hash_bits, b), queue[q]);
            let i = choose|i: int| 0 <= i < done.len() && done[i] == queue[q];
            assert(start[done[i] as int].parker.parked());
            assert(now[queue[q] as int].parker == start[queue[q] as int].parker);
        }
    }
    assert forall|key: usize| #[trigger]
        by_key(keys_of(now), table.entries@[hash_of(key, table.hash_bits)].queue@, key) == by_key(
            keys,
            old_table.entries@[hash_of(key, old_table.hash_bits)].queue@,
            key,
        ) by {
        let c = hash_of(key, table.hash_bits);
        lemma_hash_in_range(key, table);
        lemma_hash_in_range(key, old_table);
        assert(threaded(now, table.entries@[c]));
        lemma_filter_twice(done, in_bucket(keys, table.hash_bits, c), has_key(keys, key));
        assert(by_key(keys, done, key) == by_key(
            keys,
            old_table.entries@[hash_of(key, old_table.hash_bits)].queue@,
            key,
        ));
    }
}

/// The first table has sixteen buckets: there is no other power of two in its range.
proof fn lemma_first_size(table: HashTable)
    requires
        table.sized(),
        LOAD_FACTOR * LOAD_FACTOR <= table.entries@.len() < 2 * (LOAD_FACTOR * LOAD_FACTOR),
    ensures
        table.entries@.len() == 16,
{
    lemma2_to64();
    let bits = table.hash_bits as nat;
    if bits < 4 {
        if bits < 3 {
            lemma_pow2_strictly_increases(bits, 3);
        }
    } else if bits > 4 {
        if bits > 5 {
            lemma_pow2_strictly_increases(5, bits);
        }
    }
}

/// In a new table every fair unpark is due at once.
proof fn lemma_fresh_fair(lot: ParkingLot, now: Moment)
    requires
        lot.tables@.len() > 0,
        lot.tables@.last().sized(),
        forall|b: int|
            0 <= b < lot.tables@.last().entries@.len() ==> (
            #[trigger] lot.tables@.last().entries@[b]).fair_timeout == (FairTimeout {
                timeout: now,
                seed: (b + 1) as u32,
            }),
    ensures
        lot.fresh_fair(now),
{
    assert forall|key: usize| #[trigger]
        lot.fair(key) == (FairTimeout {
            timeout: now,
            seed: (lot.bucket_of(key) + 1) as u32,
        }) by {
        lemma_hash_in_range(key, lot.tables@.last());
    }
}

/// Every key has a bucket.
proof fn lemma_hash_in_range(key: usize, table: HashTable)
    requires
        table.sized(),
    ensures
        0 <= hash_of(key, table.hash_bits) < table.entries@.len(),
{
    crate::hash_table::lemma_hash_range(key, table.hash_bits);
}

} // verus!
