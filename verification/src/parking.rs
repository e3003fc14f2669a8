//! The records of threads that may be parked, and the lists in which parked threads wait.

use vstd::prelude::*;

use crate::deadlock::{named_by_system, DeadlockData};
use crate::hash_table::{hash, hash_of, Bucket, HashTable};
use crate::parker::{ThreadParker, ThreadParkerT};

verus! {

/// Result of a park operation.
#[derive(Copy, Clone, Eq, PartialEq, Debug, Structural)]
pub enum ParkResult {
    /// We were unparked by another thread with the given token.
    Unparked(UnparkToken),
    /// The validation callback returned false.
    Invalid,
    /// The timeout expired.
    TimedOut,
}

/// Result of an unpark operation.
#[derive(Copy, Clone, Eq, PartialEq, Debug, Structural)]
#[non_exhaustive]
pub struct UnparkResult {
    /// The number of threads that were unparked.
    pub unparked_threads: usize,
    /// The number of threads that were requeued.
    pub requeued_threads: usize,
    /// Whether there are any threads remaining in the queue. This only is true if a
    /// thread was unparked.
    pub have_more_threads: bool,
    /// This is set to true on average once every 0.5ms for any given key. It should be
    /// used to switch to a fair unlocking mechanism for a particular unlock.
    pub be_fair: bool,
}

impl UnparkResult {
    /// No thread was unparked.
    pub open spec fn nothing(self) -> bool {
        &&& self.unparked_threads == 0
        &&& self.requeued_threads == 0
        &&& !self.have_more_threads
        &&& !self.be_fair
    }
}

/// Where no thread was unparked, none was, none was requeued, none is left, and it is not a
/// fair unpark.
pub proof fn law_nothing_unparked(result: UnparkResult)
    ensures
        result.nothing() <==> result == (UnparkResult {
            unparked_threads: 0,
            requeued_threads: 0,
            have_more_threads: false,
            be_fair: false,
        }),
{
}

impl Default for UnparkResult {
    fn default() -> (result: UnparkResult)
        ensures
            result.nothing(),
    {
        UnparkResult {
            unparked_threads: 0,
            requeued_threads: 0,
            have_more_threads: false,
            be_fair: false,
        }
    }
}

/// A value which is passed from an unparker to a parked thread.
#[derive(Copy, Clone, Eq, PartialEq, Debug, Structural)]
pub struct UnparkToken(pub usize);

/// A value associated with a parked thread.
#[derive(Copy, Clone, Eq, PartialEq, Debug, Structural)]
pub struct ParkToken(pub usize);

/// The value of a default unpark token.
pub const DEFAULT_UNPARK_TOKEN: usize = 0;

/// The value of a default park token.
pub const DEFAULT_PARK_TOKEN: usize = 0;

/// What is kept of a thread that may be parked.
#[derive(Debug)]
pub struct ThreadData {
    pub parker: ThreadParker,
    /// Key that this thread is sleeping on.
    pub key: usize,
    /// Linked list of parked threads in a bucket.
    pub next_in_queue: Option<usize>,
    /// Token passed to this thread when it is unparked.
    pub unpark_token: UnparkToken,
    /// Token set by the thread when it was parked.
    pub park_token: ParkToken,
    /// Is the thread parked with a timeout?
    pub parked_with_timeout: bool,
    /// Extra data for deadlock detection.
    pub deadlock_data: DeadlockData,
}

impl ThreadData {
    /// A thread that is not parked.
    pub(crate) fn new() -> (thread: ThreadData)
        ensures
            !thread.parker.parked(),
            thread.key == 0,
            thread.next_in_queue is None,
            thread.unpark_token == UnparkToken(DEFAULT_UNPARK_TOKEN),
            thread.park_token == ParkToken(DEFAULT_PARK_TOKEN),
            !thread.parked_with_timeout,
            thread.deadlock_data.resources@ == Seq::<usize>::empty(),
            !thread.deadlock_data.deadlocked,
            thread.deadlock_data.backtrace_sender is None,
            named_by_system(thread.deadlock_data.thread_id),
    {
        ThreadData {
            parker: ThreadParker::new(),
            key: 0,
            next_in_queue: None,
            unpark_token: UnparkToken(DEFAULT_UNPARK_TOKEN),
            park_token: ParkToken(DEFAULT_PARK_TOKEN),
            parked_with_timeout: false,
            deadlock_data: DeadlockData::new(),
        }
    }
}

/// The thread at a place of the queue, if there is one.
pub open spec fn thread_at(queue: Seq<usize>, q: int) -> Option<usize> {
    if 0 <= q < queue.len() {
        Some(queue[q])
    } else {
        None
    }
}

/// The thread at a place of the queue has a link to the one behind it.
pub open spec fn link_ok(threads: Seq<ThreadData>, queue: Seq<usize>, q: int) -> bool {
    queue[q] < threads.len() && threads[queue[q] as int].next_in_queue == thread_at(queue, q + 1)
}

/// The list that begins with `head` runs through the queue from place `from` to the end.
pub open spec fn linked(
    threads: Seq<ThreadData>,
    queue: Seq<usize>,
    from: int,
    head: Option<usize>,
) -> bool {
    &&& head == thread_at(queue, from)
    &&& forall|q: int| from <= q < queue.len() ==> #[trigger] link_ok(threads, queue, q)
}

/// The list of the bucket is its queue.
pub open spec fn threaded(threads: Seq<ThreadData>, bucket: Bucket) -> bool {
    let queue = bucket.queue@;
    &&& linked(threads, queue, 0, bucket.queue_head)
    &&& bucket.queue_tail == thread_at(queue, queue.len() - 1)
    &&& queue.no_duplicates()
}

/// Bucket `b` holds threads that are parked on keys of its own.
pub open spec fn bucket_ok(threads: Seq<ThreadData>, bucket: Bucket, bits: u32, b: int) -> bool {
    &&& threaded(threads, bucket)
    &&& bucket.fair_timeout.wf()
    &&& forall|q: int|
        0 <= q < bucket.queue@.len() ==> {
            let thread = threads[#[trigger] bucket.queue@[q] as int];
            hash_of(thread.key, bits) == b && thread.parker.parked()
        }
}

/// The keys of the threads.
pub open spec fn keys_of(threads: Seq<ThreadData>) -> Seq<usize> {
    threads.map_values(|thread: ThreadData| thread.key)
}

/// Whether a thread has the key.
pub open spec fn has_key(keys: Seq<usize>, key: usize) -> spec_fn(usize) -> bool {
    |t: usize| keys[t as int] == key
}

/// Whether the key of a thread belongs to bucket `c`.
pub open spec fn in_bucket(keys: Seq<usize>, bits: u32, c: int) -> spec_fn(usize) -> bool {
    |t: usize| hash_of(keys[t as int], bits) == c
}

/// The threads of the queue that are parked on the key, in their order.
pub open spec fn by_key(keys: Seq<usize>, queue: Seq<usize>, key: usize) -> Seq<usize> {
    queue.filter(has_key(keys, key))
}

/// The threads of the queue whose keys belong to bucket `c`, in their order.
pub open spec fn by_bucket(keys: Seq<usize>, queue: Seq<usize>, bits: u32, c: int) -> Seq<usize> {
    queue.filter(in_bucket(keys, bits, c))
}

/// The threads are the same but for the links of their lists.
pub open spec fn same_but_links(a: Seq<ThreadData>, b: Seq<ThreadData>) -> bool {
    &&& a.len() == b.len()
    &&& forall|t: int|
        0 <= t < a.len() ==> #[trigger] b[t] == (ThreadData {
            next_in_queue: b[t].next_in_queue,
            ..a[t]
        })
}

pub proof fn lemma_filter_same(s: Seq<usize>, p: spec_fn(usize) -> bool, r: spec_fn(usize) -> bool)
    requires
        forall|i: int| 0 <= i < s.len() ==> p(#[trigger] s[i]) == r(s[i]),
    ensures
        s.filter(p) == s.filter(r),
    decreases s.len(),
{
    reveal(Seq::filter);
    if s.len() > 0 {
        assert forall|i: int| 0 <= i < s.drop_last().len() implies p(#[trigger] s.drop_last()[i])
            == r(s.drop_last()[i]) by {
            assert(s.drop_last()[i] == s[i]);
        }
        lemma_filter_same(s.drop_last(), p, r);
        assert(p(s[s.len() - 1]) == r(s[s.len() - 1]));
    }
}

pub proof fn lemma_filter_push(s: Seq<usize>, x: usize, p: spec_fn(usize) -> bool)
    ensures
        s.push(x).filter(p) == (if p(x) {
            s.filter(p).push(x)
        } else {
            s.filter(p)
        }),
{
    reveal(Seq::filter);
    assert(s.push(x).drop_last() =~= s);
}

pub proof fn lemma_filter_none(s: Seq<usize>, p: spec_fn(usize) -> bool)
    requires
        forall|i: int| 0 <= i < s.len() ==> !p(#[trigger] s[i]),
    ensures
        s.filter(p) == Seq::<usize>::empty(),
    decreases s.len(),
{
    reveal(Seq::filter);
    if s.len() > 0 {
        assert forall|i: int| 0 <= i < s.drop_last().len() implies !p(
            #[trigger] s.drop_last()[i],
        ) by {
            assert(s.drop_last()[i] == s[i]);
        }
        lemma_filter_none(s.drop_last(), p);
        assert(!p(s[s.len() - 1]));
    }
}

pub proof fn lemma_filter_all(s: Seq<usize>, p: spec_fn(usize) -> bool)
    requires
        forall|i: int| 0 <= i < s.len() ==> p(#[trigger] s[i]),
    ensures
        s.filter(p) == s,
    decreases s.len(),
{
    reveal(Seq::filter);
    if s.len() > 0 {
        assert forall|i: int| 0 <= i < s.drop_last().len() implies p(#[trigger] s.drop_last()[i])
            by {
            assert(s.drop_last()[i] == s[i]);
        }
        lemma_filter_all(s.drop_last(), p);
        assert(p(s[s.len() - 1]));
        assert(s =~= s.drop_last().push(s.last()));
    }
}

pub proof fn lemma_filter_twice(s: Seq<usize>, p: spec_fn(usize) -> bool, r: spec_fn(usize) -> bool)
    requires
        forall|x: usize| #[trigger] r(x) ==> p(x),
    ensures
        s.filter(p).filter(r) == s.filter(r),
    decreases s.len(),
{
    reveal(Seq::filter);
    if s.len() > 0 {
        lemma_filter_twice(s.drop_last(), p, r);
        let x = s.last();
        if p(x) {
            lemma_filter_push(s.drop_last().filter(p), x, r);
        }
    }
}

/// What a filter makes of a sequence, split at one of its places.
pub proof fn lemma_filter_split(s: Seq<usize>, at: int, p: spec_fn(usize) -> bool)
    requires
        0 <= at < s.len(),
    ensures
        s.filter(p) == s.take(at).filter(p) + (if p(s[at]) {
            seq![s[at]]
        } else {
            Seq::<usize>::empty()
        }) + s.skip(at + 1).filter(p),
        s.remove(at).filter(p) == s.take(at).filter(p) + s.skip(at + 1).filter(p),
{
    let a = s.take(at);
    let b = s.skip(at + 1);
    assert(s =~= a.push(s[at]) + b);
    Seq::filter_distributes_over_add(a.push(s[at]), b, p);
    lemma_filter_push(a, s[at], p);
    assert(s.remove(at) =~= a + b);
    Seq::filter_distributes_over_add(a, b, p);
    assert(s.filter(p) =~= a.filter(p) + (if p(s[at]) {
        seq![s[at]]
    } else {
        Seq::<usize>::empty()
    }) + b.filter(p));
}

/// What came through a filter was there before.
pub proof fn lemma_filter_from(s: Seq<usize>, p: spec_fn(usize) -> bool, x: usize)
    requires
        s.filter(p).contains(x),
    ensures
        s.contains(x),
        p(x),
    decreases s.len(),
{
    reveal(Seq::filter);
    if s.len() > 0 {
        let last = s.last();
        let rest = s.drop_last().filter(p);
        if p(last) {
            let i = choose|i: int| 0 <= i < rest.push(last).len() && rest.push(last)[i] == x;
            if i < rest.len() {
                assert(rest.contains(x)) by {
                    assert(rest[i] == x);
                }
                lemma_filter_from(s.drop_last(), p, x);
                let j = choose|j: int| 0 <= j < s.drop_last().len() && s.drop_last()[j] == x;
                assert(s[j] == x);
            } else {
                assert(s[s.len() - 1] == x);
            }
        } else {
            lemma_filter_from(s.drop_last(), p, x);
            let j = choose|j: int| 0 <= j < s.drop_last().len() && s.drop_last()[j] == x;
            assert(s[j] == x);
        }
    }
}

/// A bucket stays as it is where the links of its own threads do.
pub proof fn lemma_bucket_frame(
    a: Seq<ThreadData>,
    b: Seq<ThreadData>,
    bucket: Bucket,
    bits: u32,
    i: int,
)
    requires
        bucket_ok(a, bucket, bits, i),
        a.len() <= b.len(),
        forall|q: int|
            0 <= q < bucket.queue@.len() ==> b[#[trigger] bucket.queue@[q] as int].next_in_queue
                == a[bucket.queue@[q] as int].next_in_queue && b[bucket.queue@[q] as int].key
                == a[bucket.queue@[q] as int].key && b[bucket.queue@[q] as int].parker
                == a[bucket.queue@[q] as int].parker,
    ensures
        bucket_ok(b, bucket, bits, i),
        forall|key: usize| #[trigger]
            by_key(keys_of(b), bucket.queue@, key) == by_key(keys_of(a), bucket.queue@, key),
{
    assert forall|q: int| 0 <= q < bucket.queue@.len() implies #[trigger] link_ok(
        b,
        bucket.queue@,
        q,
    ) by {
        assert(link_ok(a, bucket.queue@, q));
    }
    assert forall|key: usize| #[trigger]
        by_key(keys_of(b), bucket.queue@, key) == by_key(keys_of(a), bucket.queue@, key) by {
        let p = has_key(keys_of(b), key);
        let r = has_key(keys_of(a), key);
        assert forall|i: int| 0 <= i < bucket.queue@.len() implies p(#[trigger] bucket.queue@[i])
            == r(bucket.queue@[i]) by {
            assert(link_ok(a, bucket.queue@, i));
        }
        lemma_filter_same(bucket.queue@, p, r);
    }
}

/// Nobody is parked on a key that no thread of the queue has.
pub proof fn lemma_by_key_none(keys: Seq<usize>, queue: Seq<usize>, key: usize)
    requires
        forall|q: int| 0 <= q < queue.len() ==> keys[#[trigger] queue[q] as int] != key,
    ensures
        by_key(keys, queue, key) == Seq::<usize>::empty(),
{
    lemma_filter_none(queue, has_key(keys, key));
}

/// A thread of the queue is parked on its key.
pub proof fn lemma_by_key_some(keys: Seq<usize>, queue: Seq<usize>, key: usize, q: int)
    requires
        0 <= q < queue.len(),
        keys[queue[q] as int] == key,
    ensures
        by_key(keys, queue, key).contains(queue[q]),
        by_key(keys, queue, key).len() > 0,
{
    queue.lemma_filter_contains(has_key(keys, key), q);
}

/// Whether a thread from the given place of the queue on is parked on the key.
pub(crate) fn any_with_key(
    threads: &Vec<ThreadData>,
    from: Option<usize>,
    key: usize,
    Ghost(queue): Ghost<Seq<usize>>,
    Ghost(at): Ghost<int>,
) -> (found: bool)
    requires
        0 <= at <= queue.len(),
        linked(threads@, queue, at, from),
    ensures
        found == (by_key(keys_of(threads@), queue.skip(at), key).len() > 0),
{
    let mut scan = from;
    let ghost mut q: int = at;
    loop
        invariant
            0 <= at <= q <= queue.len(),
            linked(threads@, queue, at, from),
            scan == thread_at(queue, q),
            forall|r: int| at <= r < q ==> threads@[#[trigger] queue[r] as int].key != key,
        decreases queue.len() - q,
    {
        match scan {
            None => {
                proof {
                    let rest = queue.skip(at);
                    assert forall|i: int| 0 <= i < rest.len() implies keys_of(
                        threads@,
                    )[#[trigger] rest[i] as int] != key by {
                        assert(rest[i] == queue[at + i]);
                        assert(link_ok(threads@, queue, at + i));
                    }
                    lemma_by_key_none(keys_of(threads@), rest, key);
                }
                return false;
            },
            Some(current) => {
                assert(link_ok(threads@, queue, q));
                if threads[current].key == key {
                    proof {
                        let rest = queue.skip(at);
                        assert(rest[q - at] == queue[q]);
                        lemma_by_key_some(keys_of(threads@), rest, key, q - at);
                    }
                    return true;
                }
                scan = threads[current].next_in_queue;
                proof {
                    q = q + 1;
                }
            },
        }
    }
}

/// With the link to it changed, a thread is out of the list.
pub proof fn lemma_unlinked(a: Seq<ThreadData>, b: Seq<ThreadData>, queue: Seq<usize>, p: int)
    requires
        0 <= p < queue.len(),
        queue.no_duplicates(),
        linked(a, queue, 0, thread_at(queue, 0)),
        b == (if p == 0 {
            a
        } else {
            a.update(
                queue[p - 1] as int,
                ThreadData { next_in_queue: thread_at(queue, p + 1), ..a[queue[p - 1] as int] },
            )
        }),
    ensures
        linked(b, queue.remove(p), 0, thread_at(queue.remove(p), 0)),
        queue.remove(p).no_duplicates(),
{
    let rest = queue.remove(p);
    if p > 0 {
        assert(link_ok(a, queue, p - 1));
    }
    assert forall|q: int| 0 <= q < rest.len() implies #[trigger] link_ok(b, rest, q) by {
        let from = if q < p {
            q
        } else {
            q + 1
        };
        assert(rest[q] == queue[from]);
        assert(link_ok(a, queue, from));
        if p > 0 && from != p - 1 {
            assert(queue[from] != queue[p - 1]);
        }
        if q + 1 < rest.len() {
            assert(rest[q + 1] == queue[if q + 1 < p {
                q + 1
            } else {
                q + 2
            }]);
        }
    }
    assert forall|i: int, j: int|
        0 <= i < rest.len() && 0 <= j < rest.len() && i != j implies rest[i] != rest[j] by {
        let a = if i < p {
            i
        } else {
            i + 1
        };
        let b = if j < p {
            j
        } else {
            j + 1
        };
        assert(queue[a] != queue[b]);
    }
}

/// Takes the thread after `previous` out of the list of the bucket. Returns the thread
/// behind it, and whether it was at the end.
pub(crate) fn unlink(
    threads: &mut Vec<ThreadData>,
    bucket: &mut Bucket,
    previous: Option<usize>,
    current: usize,
    Ghost(p): Ghost<int>,
) -> (next: (Option<usize>, bool))
    requires
        threaded(old(threads)@, *old(bucket)),
        0 <= p < old(bucket).queue@.len(),
        old(bucket).queue@[p] == current,
        previous == thread_at(old(bucket).queue@, p - 1),
    ensures
        threaded(final(threads)@, *final(bucket)),
        final(bucket).queue@ == old(bucket).queue@.remove(p),
        final(bucket).mutex == old(bucket).mutex,
        final(bucket).fair_timeout == old(bucket).fair_timeout,
        same_but_links(old(threads)@, final(threads)@),
        forall|t: int|
            0 <= t < old(threads)@.len() && !old(bucket).queue@.contains(t as usize)
                ==> #[trigger] final(threads)@[t] == old(threads)@[t],
        next.1 == (p == old(bucket).queue@.len() - 1),
        linked(final(threads)@, final(bucket).queue@, p, next.0),
{
    let ghost queue = bucket.queue@;
    let ghost before = threads@;
    assert(link_ok(threads@, queue, p));
    let next = threads[current].next_in_queue;
    match previous {
        None => {
            bucket.queue_head = next;
        },
        Some(link) => {
            assert(link_ok(threads@, queue, p - 1));
            threads[link].next_in_queue = next;
        },
    }
    let at_end = match bucket.queue_tail {
        Some(tail) => tail == current,
        None => false,
    };
    proof {
        let last = queue.len() - 1;
        assert(link_ok(before, queue, last));
        assert(at_end <==> p == last) by {
            if p != last {
                assert(queue[p] != queue[last]);
            }
        }
    }
    if at_end {
        bucket.queue_tail = previous;
    }
    bucket.queue = Ghost(queue.remove(p));
    proof {
        lemma_unlinked(before, threads@, queue, p);
        let rest = queue.remove(p);
        if p > 0 {
            assert(queue.contains(queue[p - 1]));
            assert(rest[0] == queue[0]);
        }
        if rest.len() > 0 {
            assert(rest.last() == queue[if p == queue.len() - 1 {
                p - 1
            } else {
                queue.len() - 1
            }]);
        }
        if p < rest.len() {
            assert(rest[p] == queue[p + 1]);
        }
    }
    (next, at_end)
}

/// Puts a thread at the end of the list of the bucket.
pub(crate) fn append(threads: &mut Vec<ThreadData>, bucket: &mut Bucket, thread: usize)
    requires
        threaded(old(threads)@, *old(bucket)),
        thread < old(threads)@.len(),
        !old(bucket).queue@.contains(thread),
    ensures
        threaded(final(threads)@, *final(bucket)),
        final(bucket).queue@ == old(bucket).queue@.push(thread),
        final(bucket).mutex == old(bucket).mutex,
        final(bucket).fair_timeout == old(bucket).fair_timeout,
        same_but_links(old(threads)@, final(threads)@),
        forall|t: int|
            0 <= t < old(threads)@.len() && t != thread && !old(bucket).queue@.contains(t as usize)
                ==> #[trigger] final(threads)@[t] == old(threads)@[t],
{
    let ghost queue = bucket.queue@;
    let ghost before = threads@;
    threads[thread].next_in_queue = None;
    match bucket.queue_tail {
        None => {
            bucket.queue_head = Some(thread);
        },
        Some(tail) => {
            assert(link_ok(before, queue, queue.len() - 1));
            threads[tail].next_in_queue = Some(thread);
        },
    }
    bucket.queue_tail = Some(thread);
    bucket.queue = Ghost(queue.push(thread));
    proof {
        let longer = queue.push(thread);
        let last = queue.len() - 1;
        if queue.len() > 0 {
            assert(queue.contains(queue[last]));
        }
        assert forall|q: int| 0 <= q < longer.len() implies #[trigger] link_ok(
            threads@,
            longer,
            q,
        ) by {
            if q < queue.len() {
                assert(longer[q] == queue[q]);
                assert(queue.contains(queue[q]));
                assert(link_ok(before, queue, q));
                if q < last {
                    assert(queue[q] != queue[last]);
                    assert(longer[q + 1] == queue[q + 1]);
                }
            }
        }
        assert forall|i: int, j: int|
            0 <= i < longer.len() && 0 <= j < longer.len() && i != j implies longer[i]
            != longer[j] by {
            if i < queue.len() {
                assert(queue.contains(queue[i]));
            }
            if j < queue.len() {
                assert(queue.contains(queue[j]));
            }
        }
    }
}

/// Every thread of `done` has been put into the bucket of the table that its key belongs
/// to, in their order.
pub open spec fn placed(threads: Seq<ThreadData>, table: HashTable, done: Seq<usize>) -> bool {
    &&& table.sized()
    &&& forall|c: int|
        0 <= c < table.entries@.len() ==> {
            &&& threaded(threads, #[trigger] table.entries@[c])
            &&& table.entries@[c].queue@ == by_bucket(keys_of(threads), done, table.hash_bits, c)
            &&& table.entries@[c].mutex.word() == 0
            &&& table.entries@[c].fair_timeout.wf()
        }
}

/// The buckets of the two tables are to be fair at the same times.
pub open spec fn same_fair_timeouts(a: HashTable, b: HashTable) -> bool {
    &&& b.entries@.len() == a.entries@.len()
    &&& forall|c: int|
        0 <= c < a.entries@.len() ==> (#[trigger] b.entries@[c]).fair_timeout
            == a.entries@[c].fair_timeout
}

/// Puts every thread of a list into the bucket of the table that its key belongs to.
pub(crate) fn rehash_bucket_into(
    threads: &mut Vec<ThreadData>,
    head: Option<usize>,
    table: &mut HashTable,
    Ghost(queue): Ghost<Seq<usize>>,
    Ghost(done): Ghost<Seq<usize>>,
)
    requires
        linked(old(threads)@, queue, 0, head),
        queue.no_duplicates(),
        forall|q: int| 0 <= q < queue.len() ==> !done.contains(#[trigger] queue[q]),
        placed(old(threads)@, *old(table), done),
    ensures
        placed(final(threads)@, *final(table), done + queue),
        final(table).hash_bits == old(table).hash_bits,
        same_fair_timeouts(*old(table), *final(table)),
        same_but_links(old(threads)@, final(threads)@),
        forall|t: usize|
            t < old(threads)@.len() && !(done + queue).contains(t) ==> #[trigger] final(threads)@[t as int] == old(threads)@[t as int],
{
    let mut current = head;
    let ghost mut i: int = 0;
    let ghost keys = keys_of(threads@);
    proof {
        assert(done + queue.take(0) =~= done);
    }
    loop
        invariant
            0 <= i <= queue.len(),
            keys == keys_of(old(threads)@),
            same_but_links(old(threads)@, threads@),
            linked(threads@, queue, i, current),
            queue.no_duplicates(),
            forall|q: int| 0 <= q < queue.len() ==> !done.contains(#[trigger] queue[q]),
            placed(threads@, *table, done + queue.take(i)),
            table.hash_bits == old(table).hash_bits,
            same_fair_timeouts(*old(table), *table),
            forall|t: usize|
                t < old(threads)@.len() && !(done + queue).contains(t) ==> #[trigger] threads@[t as int] == old(threads)@[t as int],
        decreases queue.len() - i,
    {
        match current {
            None => {
                proof {
                    assert(queue.take(i) =~= queue);
                }
                return;
            },
            Some(thread) => {
                let ghost now_done = done + queue.take(i);
                let ghost before = threads@;
                let ghost tbefore = *table;
                assert(link_ok(threads@, queue, i));
                let next = threads[thread].next_in_queue;
                let bucket: usize = hash(threads[thread].key, table.hash_bits);
                proof {
                    assert(keys_of(threads@) =~= keys);
                    assert(!now_done.contains(thread)) by {
                        if now_done.contains(thread) {
                            let j = choose|j: int|
                                0 <= j < now_done.len() && now_done[j] == thread;
                            if j < done.len() {
                                assert(done.contains(queue[i]));
                            } else {
                                assert(queue[j - done.len()] == queue[i]);
                            }
                        }
                    }
                    assert(threaded(threads@, table.entries@[bucket as int]));
                    if table.entries@[bucket as int].queue@.contains(thread) {
                        lemma_filter_from(
                            now_done,
                            in_bucket(keys, table.hash_bits, bucket as int),
                            thread,
                        );
                    }
                }
                append(threads, &mut table.entries[bucket], thread);
                proof {
                    assert(keys_of(threads@) =~= keys);
                    lemma_rehash_step(
                        before,
                        threads@,
                        tbefore,
                        *table,
                        now_done,
                        thread,
                        bucket as int,
                    );
                    assert(now_done.push(thread) =~= done + queue.take(i + 1));
                    assert forall|q: int| i + 1 <= q < queue.len() implies #[trigger] link_ok(
                        threads@,
                        queue,
                        q,
                    ) by {
                        assert(link_ok(before, queue, q));
                        assert(queue[q] != queue[i]);
                        if tbefore.entries@[bucket as int].queue@.contains(queue[q]) {
                            lemma_filter_from(
                                now_done,
                                in_bucket(keys, table.hash_bits, bucket as int),
                                queue[q],
                            );
                            let j = choose|j: int|
                                0 <= j < now_done.len() && now_done[j] == queue[q];
                            if j < done.len() {
                                assert(done.contains(queue[q]));
                            } else {
                                assert(queue[j - done.len()] == queue[q]);
                            }
                        }
                    }
                    assert forall|t: usize|
                        t < old(threads)@.len() && !(done + queue).contains(
                            t,
                        ) implies #[trigger] threads@[t as int] == old(threads)@[t as int] by {
                        assert(before[t as int] == old(threads)@[t as int]);
                        assert((done + queue)[done.len() + i] == thread);
                        if tbefore.entries@[bucket as int].queue@.contains(t) {
                            lemma_filter_from(
                                now_done,
                                in_bucket(keys, table.hash_bits, bucket as int),
                                t,
                            );
                            let j = choose|j: int| 0 <= j < now_done.len() && now_done[j] == t;
                            assert((done + queue)[j] == t);
                        }
                    }
                    i = i + 1;
                }
                current = next;
            },
        }
    }
}

/// Putting one more thread into its bucket.
pub proof fn lemma_rehash_step(
    a: Seq<ThreadData>,
    b: Seq<ThreadData>,
    ta: HashTable,
    tb: HashTable,
    done: Seq<usize>,
    thread: usize,
    c: int,
)
    requires
        placed(a, ta, done),
        same_but_links(a, b),
        0 <= c < ta.entries@.len(),
        thread < a.len(),
        !done.contains(thread),
        hash_of(a[thread as int].key, ta.hash_bits) == c,
        tb.hash_bits == ta.hash_bits,
        tb.entries@ == ta.entries@.update(c, tb.entries@[c]),
        threaded(b, tb.entries@[c]),
        tb.entries@[c].queue@ == ta.entries@[c].queue@.push(thread),
        tb.entries@[c].mutex == ta.entries@[c].mutex,
        tb.entries@[c].fair_timeout == ta.entries@[c].fair_timeout,
        forall|t: int|
            0 <= t < a.len() && t != thread && !ta.entries@[c].queue@.contains(t as usize)
                ==> #[trigger] b[t] == a[t],
    ensures
        placed(b, tb, done.push(thread)),
{
    let keys = keys_of(a);
    assert(keys_of(b) =~= keys);
    let bits = ta.hash_bits;
    assert forall|d: int| 0 <= d < tb.entries@.len() implies {
        &&& threaded(b, #[trigger] tb.entries@[d])
        &&& tb.entries@[d].queue@ == by_bucket(keys_of(b), done.push(thread), bits, d)
        &&& tb.entries@[d].mutex.word() == 0
        &&& tb.entries@[d].fair_timeout.wf()
    } by {
        let pred = in_bucket(keys, bits, d);
        lemma_filter_push(done, thread, pred);
        assert(threaded(a, ta.entries@[d]));
        assert(threaded(a, ta.entries@[c]));
        if d != c {
            let queue = ta.entries@[d].queue@;
            assert forall|q: int| 0 <= q < queue.len() implies #[trigger] link_ok(b, queue, q) by {
                assert(link_ok(a, queue, q));
                assert(queue.contains(queue[q]));
                lemma_filter_from(done, pred, queue[q]);
                if ta.entries@[c].queue@.contains(queue[q]) {
                    lemma_filter_from(done, in_bucket(keys, bits, c), queue[q]);
                }
                assert(b[queue[q] as int] == a[queue[q] as int]);
            }
        }
    }
}

} // verus!
