//! A lock in a single word, which manages its own queue of waiting threads.
//!
//! [`WordLock::step`] takes one access of a thread that locks or unlocks. With the word
//! to itself, a thread may lock and unlock it in one call each. A [`WordThreads`] holds
//! a lock with all threads that use it and lets any of them take its next step at any
//! time.

use vstd::prelude::*;

use crate::parker::{ThreadParker, ThreadParkerT};
use crate::spin_wait::{Spin, SpinWait};
use crate::word_model::{
    lemma_word_bits, lock_wish, locked, queue_head, queue_locked, scan_chain, with_queue_head,
    word_next, word_wish, Waiter, Wish, WordMem, WordOp, WordStage, LOCKED_BIT, QUEUE_LOCKED_BIT,
    QUEUE_MASK,
};
use crate::word_proof::{
    filled_in, holds, holds_queue, lemma_index_of, lemma_queue_fits, lemma_scan_chain,
    lemma_step_keeps_live, lemma_step_keeps_safe, WordSys,
};

verus! {

/// What the word of a lock says.
pub trait LockState: Sized {
    /// The word itself.
    spec fn word(self) -> usize;

    /// Whether a thread holds the lock.
    fn is_locked(self) -> (yes: bool)
        ensures
            yes == locked(self.word()),
    ;

    /// Whether a thread works on the queue of waiters.
    fn is_queue_locked(self) -> (yes: bool)
        ensures
            yes == queue_locked(self.word()),
    ;

    /// The waiter at the front of the queue.
    fn queue_head(self) -> (head: Option<usize>)
        ensures
            head == queue_head(self.word()),
    ;

    /// The word with `waiter` at the front of the queue.
    fn with_queue_head(self, waiter: usize) -> (word: Self)
        requires
            4 * (waiter + 2) <= usize::MAX,
        ensures
            word.word() == with_queue_head(self.word(), waiter as int),
    ;
}

impl LockState for usize {
    open spec fn word(self) -> usize {
        self
    }

    fn is_locked(self) -> (yes: bool) {
        proof {
            lemma_word_bits(self);
        }
        self & LOCKED_BIT != 0
    }

    fn is_queue_locked(self) -> (yes: bool) {
        proof {
            lemma_word_bits(self);
        }
        self & QUEUE_LOCKED_BIT != 0
    }

    fn queue_head(self) -> (head: Option<usize>) {
        proof {
            lemma_word_bits(self);
        }
        let place: usize = self & QUEUE_MASK;
        if place == 0 {
            None
        } else {
            Some(place / 4 - 1)
        }
    }

    fn with_queue_head(self, waiter: usize) -> (word: usize) {
        proof {
            lemma_word_bits(self);
        }
        (self & !QUEUE_MASK) + 4 * (waiter + 1)
    }
}

impl Waiter {
    /// The record of a thread that does not wait.
    pub fn new() -> (waiter: Waiter)
        ensures
            waiter == Waiter::fresh(),
    {
        Waiter { parker: ThreadParker::new(), queue_tail: None, prev: None, next: None }
    }
}

/// The queue can be followed from `current` to a waiter that knows the end.
pub open spec fn chain_ok(waiters: Seq<Waiter>, current: int, fuel: nat) -> bool
    decreases fuel,
{
    &&& 0 <= current < waiters.len()
    &&& match waiters[current].queue_tail {
        Some(tail) => tail < waiters.len(),
        None => {
            &&& fuel > 0
            &&& waiters[current].next is Some
            &&& waiters[current].next->0 < waiters.len()
            &&& chain_ok(
                waiters.update(
                    waiters[current].next->0 as int,
                    Waiter {
                        prev: Some(current as usize),
                        ..waiters[waiters[current].next->0 as int]
                    },
                ),
                waiters[current].next->0 as int,
                (fuel - 1) as nat,
            )
        },
    }
}

/// The thread's next access finds what it needs.
pub open spec fn step_fits(m: WordMem, op: WordOp, me: int) -> bool {
    &&& 0 <= me < m.waiters.len()
    &&& 4 * (m.waiters.len() + 1) <= usize::MAX
    &&& match op.stage {
        WordStage::Acquire => !locked(op.state),
        WordStage::Release => locked(m.word),
        WordStage::GrabQueue => !queue_locked(op.state),
        WordStage::Scan => queue_head(op.state) is Some && chain_ok(
            m.waiters,
            queue_head(op.state)->0 as int,
            m.waiters.len(),
        ),
        WordStage::TakeTail => {
            &&& queue_head(op.state) is Some
            &&& queue_head(op.state)->0 < m.waiters.len()
            &&& op.tail < m.waiters.len()
        },
        WordStage::Wake => op.tail < m.waiters.len(),
        _ => true,
    }
}

/// Fills in the links towards the front from `head` on, up to a waiter that knows the
/// end of the queue. Returns the end.
fn scan(waiters: &mut Vec<Waiter>, head: usize) -> (tail: usize)
    requires
        chain_ok(old(waiters)@, head as int, old(waiters)@.len()),
    ensures
        (final(waiters)@, tail) == scan_chain(old(waiters)@, head as int, old(waiters)@.len()),
        final(waiters)@.len() == old(waiters)@.len(),
        tail < final(waiters)@.len(),
{
    let mut current: usize = head;
    let ghost mut fuel: nat = waiters@.len();
    loop
        invariant
            chain_ok(waiters@, current as int, fuel),
            waiters@.len() == old(waiters)@.len(),
            scan_chain(waiters@, current as int, fuel) == scan_chain(
                old(waiters)@,
                head as int,
                old(waiters)@.len(),
            ),
        decreases fuel,
    {
        if let Some(tail) = waiters[current].queue_tail {
            return tail;
        }
        proof {
            assert(chain_ok(
                waiters@.update(
                    waiters@[current as int].next->0 as int,
                    Waiter {
                        prev: Some(current),
                        ..waiters@[waiters@[current as int].next->0 as int]
                    },
                ),
                waiters@[current as int].next->0 as int,
                (fuel - 1) as nat,
            ));
        }
        if let Some(next) = waiters[current].next {
            let ghost before = waiters@;
            waiters[next].prev = Some(current);
            proof {
                assert(waiters@ =~= before.update(
                    next as int,
                    Waiter { prev: Some(current), ..before[next as int] },
                ));
                fuel = (fuel - 1) as nat;
            }
            current = next;
        }
    }
}

/// What a thread that is alone with the lock makes of the queue after unlocking, and the
/// waiter that it wakes up.
pub open spec fn roused(m: WordMem) -> (WordMem, Option<usize>) {
    if queue_locked(m.word) || queue_head(m.word) is None {
        (m, None)
    } else {
        let head = queue_head(m.word)->0 as int;
        let (links, tail) = scan_chain(m.waiters, head, m.waiters.len());
        let known = links.update(head, Waiter { queue_tail: Some(tail), ..links[head] });
        let awake = |ws: Seq<Waiter>|
            ws.update(
                tail as int,
                Waiter { parker: ThreadParker { futex: 0 }, ..ws[tail as int] },
            );
        if locked(m.word) {
            (WordMem { waiters: known, ..m }, None)
        } else if known[tail as int].prev is None {
            (WordMem { word: 0, waiters: awake(known) }, Some(tail))
        } else {
            (
                WordMem {
                    waiters: awake(
                        known.update(
                            head,
                            Waiter { queue_tail: known[tail as int].prev, ..known[head] },
                        ),
                    ),
                    ..m
                },
                Some(tail),
            )
        }
    }
}

/// Word-sized lock that manages its own queue of waiting threads.
#[derive(Debug)]
pub struct WordLock {
    state: usize,
}

impl WordLock {
    /// The word.
    pub closed spec fn word(&self) -> usize {
        self.state
    }

    /// The word and the records of the threads.
    pub open spec fn mem(&self, waiters: Seq<Waiter>) -> WordMem {
        WordMem { word: self.word(), waiters }
    }

    /// Returns a new, unlocked `WordLock`.
    pub fn new() -> (lock: WordLock)
        ensures
            lock.word() == 0,
    {
        WordLock { state: 0 }
    }

    /// Locks a free lock, even if there is a queue on it. A thread that finds the lock
    /// held waits for it step by step.
    pub fn lock(&mut self)
        requires
            !locked(old(self).word()),
        ensures
            final(self).word() == old(self).word() + 1,
    {
        if self.state == 0 {
            self.state = LOCKED_BIT;
            return;
        }
        self.lock_slow();
    }

    /// Locks a free lock with a queue on it.
    fn lock_slow(&mut self)
        requires
            !locked(old(self).word()),
        ensures
            final(self).word() == old(self).word() + 1,
    {
        proof {
            lemma_word_bits(self.state);
        }
        self.state = self.state | LOCKED_BIT;
    }

    /// Unlocks a lock that is held. Returns whether the queue is to be looked after, by
    /// `unlock_slow`.
    pub fn unlock(&mut self) -> (more: bool)
        requires
            locked(old(self).word()),
        ensures
            final(self).word() == old(self).word() - 1,
            more == (!queue_locked(old(self).word()) && queue_head(old(self).word()) is Some),
    {
        let state: usize = self.state;
        self.state = self.state - LOCKED_BIT;
        !(state.is_queue_locked() || state.queue_head().is_none())
    }

    /// Takes the oldest waiter off the queue and marks it as woken up, unless somebody
    /// else works on the queue, there is none, or the lock is held again.
    pub fn unlock_slow(&mut self, waiters: &mut Vec<Waiter>) -> (woken: Option<usize>)
        requires
            queue_head(old(self).word()) is Some ==> chain_ok(
                old(waiters)@,
                queue_head(old(self).word())->0 as int,
                old(waiters)@.len(),
            ),
        ensures
            (final(self).mem(final(waiters)@), woken) == roused(old(self).mem(old(waiters)@)),
    {
        if self.state.is_queue_locked() {
            return None;
        }
        let head: usize = match self.state.queue_head() {
            None => {
                return None;
            },
            Some(head) => head,
        };
        let tail: usize = scan(waiters, head);
        waiters[head].queue_tail = Some(tail);
        if self.state.is_locked() {
            return None;
        }
        match waiters[tail].prev {
            None => {
                self.state = 0;
            },
            Some(new_tail) => {
                waiters[head].queue_tail = Some(new_tail);
            },
        }
        let _handle = waiters[tail].parker.unpark_lock();
        Some(tail)
    }

    /// Takes the next access of the thread with record `me`. Returns what the thread is
    /// to do before it goes on. A change of the word that may fail for no reason does so
    /// if `spurious` is set.
    pub fn step(
        &mut self,
        waiters: &mut Vec<Waiter>,
        op: &mut WordOp,
        me: usize,
        spurious: bool,
    ) -> (wish: Wish)
        requires
            step_fits(old(self).mem(old(waiters)@), *old(op), me as int),
        ensures
            (final(self).mem(final(waiters)@), *final(op)) == word_next(
                old(self).mem(old(waiters)@),
                *old(op),
                me as int,
                spurious,
            ),
            wish == word_wish(old(self).mem(old(waiters)@), *old(op), me as int, spurious),
    {
        let hit = !spurious && self.state == op.state;
        proof {
            lemma_word_bits(self.state);
            lemma_word_bits(op.state);
        }
        match op.stage {
            WordStage::Idle => Wish::Go,
            WordStage::Held => Wish::Go,
            WordStage::Fast => {
                if !spurious && self.state == 0 {
                    self.state = LOCKED_BIT;
                    op.stage = WordStage::Held;
                } else {
                    op.wait = SpinWait::new();
                    op.stage = WordStage::Load;
                }
                Wish::Go
            },
            WordStage::Load => {
                op.state = self.state;
                Self::decide_lock(op)
            },
            WordStage::Acquire => {
                if hit {
                    self.state = op.state | LOCKED_BIT;
                    op.stage = WordStage::Held;
                    return Wish::Go;
                }
                op.state = self.state;
                Self::decide_lock(op)
            },
            WordStage::Enqueue => {
                let head = op.state.queue_head();
                waiters[me].parker.prepare_park();
                match head {
                    None => {
                        waiters[me].queue_tail = Some(me);
                        waiters[me].prev = None;
                    },
                    Some(_) => {
                        waiters[me].queue_tail = None;
                        waiters[me].prev = None;
                        waiters[me].next = head;
                    },
                }
                if hit {
                    self.state = op.state.with_queue_head(me);
                    op.stage = WordStage::Asleep;
                    return Wish::Go;
                }
                op.state = self.state;
                Self::decide_lock(op)
            },
            WordStage::Asleep => {
                if waiters[me].parker.park() {
                    return Wish::Sleep;
                }
                op.wait.reset();
                op.stage = WordStage::Load;
                Wish::Go
            },
            WordStage::Release => {
                let more = self.unlock();
                op.stage = if more {
                    WordStage::UnlockLoad
                } else {
                    WordStage::Idle
                };
                Wish::Go
            },
            WordStage::UnlockLoad => {
                op.state = self.state;
                Self::decide_unlock(op);
                Wish::Go
            },
            WordStage::GrabQueue => {
                if hit {
                    self.state = op.state | QUEUE_LOCKED_BIT;
                    op.stage = WordStage::Scan;
                } else {
                    op.state = self.state;
                    Self::decide_unlock(op);
                }
                Wish::Go
            },
            WordStage::Scan => {
                if let Some(head) = op.state.queue_head() {
                    let tail: usize = scan(waiters, head);
                    let last = waiters[tail].prev.is_none();
                    waiters[head].queue_tail = Some(tail);
                    op.tail = tail;
                    op.stage = if op.state.is_locked() {
                        WordStage::DropQueue
                    } else if last {
                        WordStage::TakeLast
                    } else {
                        WordStage::TakeTail
                    };
                }
                Wish::Go
            },
            WordStage::DropQueue => {
                if hit {
                    self.state = op.state & !QUEUE_LOCKED_BIT;
                    op.stage = WordStage::Idle;
                } else {
                    op.state = self.state;
                    op.stage = WordStage::Scan;
                }
                Wish::Go
            },
            WordStage::TakeLast => {
                if hit {
                    self.state = op.state & LOCKED_BIT;
                    op.stage = WordStage::Wake;
                } else {
                    op.state = self.state;
                    if self.state.queue_head().is_some() {
                        op.stage = WordStage::Scan;
                    }
                }
                Wish::Go
            },
            WordStage::TakeTail => {
                if let Some(head) = op.state.queue_head() {
                    let new_tail = waiters[op.tail].prev;
                    waiters[head].queue_tail = new_tail;
                    self.state = self.state & !QUEUE_LOCKED_BIT;
                    op.stage = WordStage::Wake;
                }
                Wish::Go
            },
            WordStage::Wake => {
                let _handle = waiters[op.tail].parker.unpark_lock();
                op.stage = WordStage::Idle;
                Wish::Wake(op.tail)
            },
        }
    }

    /// What a thread that wants the lock does once it has read the word.
    fn decide_lock(op: &mut WordOp) -> (wish: Wish)
        ensures
            *final(op) == old(op).decide_lock(),
            wish == lock_wish(*old(op)),
    {
        // Grab the lock if it isn't locked, even if there is a queue on it
        if !op.state.is_locked() {
            op.stage = WordStage::Acquire;
            return Wish::Go;
        }
        // If there is no queue, try spinning a few times
        if op.state.queue_head().is_none() {
            let spin = op.wait.spin();
            if let Spin::Exhausted = spin {
                op.stage = WordStage::Enqueue;
                return Wish::Go;
            }
            op.stage = WordStage::Load;
            if let Spin::Yield = spin {
                return Wish::Yield;
            }
            return Wish::Go;
        }
        op.stage = WordStage::Enqueue;
        Wish::Go
    }

    /// What a thread that has unlocked does once it has read the word.
    fn decide_unlock(op: &mut WordOp)
        ensures
            *final(op) == old(op).decide_unlock(),
    {
        // If the queue is locked then another thread is already taking care of waking up
        // a thread
        if op.state.is_queue_locked() || op.state.queue_head().is_none() {
            op.stage = WordStage::Idle;
        } else {
            op.stage = WordStage::GrabQueue;
        }
    }
}

/// Something that a thread does with the lock.
pub enum WordEvent {
    /// A thread that neither has nor wants the lock begins to lock it.
    Lock(int),
    /// A thread that has the lock begins to unlock it.
    Unlock(int),
    /// A thread takes its next step; a change of the word may fail for no reason.
    Step(int, bool),
}

impl WordSys {
    /// The event can happen.
    pub open spec fn allows(self, event: WordEvent) -> bool {
        match event {
            WordEvent::Lock(i) => 0 <= i < self.ops.len() && self.ops[i].stage is Idle,
            WordEvent::Unlock(i) => 0 <= i < self.ops.len() && self.ops[i].stage is Held,
            WordEvent::Step(i, _) => 0 <= i < self.ops.len(),
        }
    }

    /// What the event makes of the lock.
    pub open spec fn after(self, event: WordEvent) -> WordSys {
        match event {
            WordEvent::Lock(i) => WordSys {
                ops: self.ops.update(i, WordOp { stage: WordStage::Fast, ..self.ops[i] }),
                ..self
            },
            WordEvent::Unlock(i) => WordSys {
                ops: self.ops.update(i, WordOp { stage: WordStage::Release, ..self.ops[i] }),
                ..self
            },
            WordEvent::Step(i, spurious) => self.step(i, spurious),
        }
    }

    /// All events of the schedule can happen, one after the other.
    pub open spec fn allows_all(self, schedule: Seq<WordEvent>) -> bool
        decreases schedule.len(),
    {
        schedule.len() > 0 ==> self.allows(schedule[0]) && self.after(schedule[0]).allows_all(
            schedule.skip(1),
        )
    }

    /// What the events of the schedule make of the lock, one after the other.
    pub open spec fn after_all(self, schedule: Seq<WordEvent>) -> WordSys
        decreases schedule.len(),
    {
        if schedule.len() == 0 {
            self
        } else {
            self.after(schedule[0]).after_all(schedule.skip(1))
        }
    }
}

/// Every event keeps the lock safe and leaves somebody at work on it.
pub proof fn law_word_event(s: WordSys, event: WordEvent)
    requires
        s.safe(),
        s.live(),
        s.allows(event),
    ensures
        s.after(event).safe(),
        s.after(event).live(),
{
    let s2 = s.after(event);
    match event {
        WordEvent::Step(i, spurious) => {
            lemma_step_keeps_safe(s, i, spurious);
            lemma_step_keeps_live(s, i, spurious);
        },
        WordEvent::Lock(i) => {
            lemma_begin_keeps(s, s2, i);
        },
        WordEvent::Unlock(i) => {
            lemma_begin_keeps(s, s2, i);
        },
    }
}

/// Where a thread only makes up its mind, the lock stays as it is.
proof fn lemma_begin_keeps(s: WordSys, s2: WordSys, i: int)
    requires
        s.safe(),
        s.live(),
        0 <= i < s.ops.len(),
        s2 == s.after(WordEvent::Lock(i)) && s.ops[i].stage is Idle || s2 == s.after(
            WordEvent::Unlock(i),
        ) && s.ops[i].stage is Held,
    ensures
        s2.safe(),
        s2.live(),
{
    assert(s.op_ok(i));
    assert forall|q: int| 0 <= q < s2.queue.len() implies #[trigger] s2.queued(q) by {
        assert(s.queued(q));
    }
    assert forall|j: int| 0 <= j < s2.ops.len() implies #[trigger] s2.op_ok(j) by {
        assert(s.op_ok(j));
    }
    assert forall|j: int, k: int| 0 <= j < k < s2.ops.len() implies #[trigger] s2.apart(j, k) by {
        assert(s.apart(j, k));
    }
    if locked(s.mem.word) {
        let h = choose|h: int| 0 <= h < s.ops.len() && holds(#[trigger] s.ops[h]);
        assert(holds(s2.ops[h]));
    }
    if queue_locked(s.mem.word) {
        let h = choose|h: int| 0 <= h < s.ops.len() && holds_queue(#[trigger] s.ops[h]);
        assert(holds_queue(s2.ops[h]));
    }
    assert forall|j: int| 0 <= j < s2.ops.len() implies #[trigger] s2.accounted(j) by {
        assert(s.accounted(j));
        if s.being_woken(j) {
            let k = choose|k: int|
                0 <= k < s.ops.len() && (#[trigger] s.ops[k]).stage is Wake && s.ops[k].tail == j;
            assert(s2.ops[k].stage is Wake && s2.ops[k].tail == j);
        }
    }
    if !locked(s.mem.word) && s.queue.len() > 0 {
        let r = choose|r: int| 0 <= r < s.ops.len() && #[trigger] s.rousing(r);
        assert(s2.rousing(r));
    }
}

/// A free lock that nobody uses yet is safe, and nobody waits for it.
pub proof fn law_word_begins(threads: nat)
    requires
        4 * (threads + 1) <= usize::MAX,
    ensures
        WordSys::begin(threads).safe(),
        WordSys::begin(threads).live(),
{
}

/// Whatever threads do with the lock, and in whatever order their steps come, the lock
/// stays safe and somebody stays at work on it.
pub proof fn law_any_word_schedule(s: WordSys, schedule: Seq<WordEvent>)
    requires
        s.safe(),
        s.live(),
        s.allows_all(schedule),
    ensures
        s.after_all(schedule).safe(),
        s.after_all(schedule).live(),
    decreases schedule.len(),
{
    if schedule.len() > 0 {
        law_word_event(s, schedule[0]);
        law_any_word_schedule(s.after(schedule[0]), schedule.skip(1));
    }
}

/// No two threads hold the lock, and the word says that it is held exactly while one
/// does.
pub proof fn law_word_exclusion(threads: nat, schedule: Seq<WordEvent>, i: int, j: int)
    requires
        4 * (threads + 1) <= usize::MAX,
        WordSys::begin(threads).allows_all(schedule),
        0 <= i < threads,
        0 <= j < threads,
    ensures
        ({
            let s = WordSys::begin(threads).after_all(schedule);
            &&& holds(s.ops[i]) && holds(s.ops[j]) ==> i == j
            &&& locked(s.mem.word) <==> s.has_holder()
        }),
{
    let s0 = WordSys::begin(threads);
    let s = s0.after_all(schedule);
    law_word_begins(threads);
    law_any_word_schedule(s0, schedule);
    lemma_threads_stay(s0, schedule);
    if i < j {
        assert(s.apart(i, j));
    } else if j < i {
        assert(s.apart(j, i));
    }
    if s.has_holder() {
        let h = choose|h: int| 0 <= h < s.ops.len() && holds(#[trigger] s.ops[h]);
        assert(s.op_ok(h));
    }
}

proof fn lemma_threads_stay(s: WordSys, schedule: Seq<WordEvent>)
    requires
        s.allows_all(schedule),
    ensures
        s.after_all(schedule).ops.len() == s.ops.len(),
    decreases schedule.len(),
{
    if schedule.len() > 0 {
        lemma_threads_stay(s.after(schedule[0]), schedule.skip(1));
    }
}

/// From the moment at which a thread has the lock until it unlocks it, whatever the threads do
/// and in whatever order, it has the lock, and no other thread gets it.
pub proof fn law_held_until_unlocked(s: WordSys, schedule: Seq<WordEvent>, i: int, j: int)
    requires
        s.safe(),
        s.live(),
        s.allows_all(schedule),
        0 <= i < s.ops.len(),
        0 <= j < s.ops.len(),
        i != j,
        s.ops[i].stage is Held,
        forall|k: int| 0 <= k < schedule.len() ==> #[trigger] schedule[k] != WordEvent::Unlock(i),
    ensures
        s.after_all(schedule).ops[i].stage is Held,
        !holds(s.after_all(schedule).ops[j]),
    decreases schedule.len(),
{
    if i < j {
        assert(s.apart(i, j));
    } else {
        assert(s.apart(j, i));
    }
    if schedule.len() > 0 {
        let s1 = s.after(schedule[0]);
        law_word_event(s, schedule[0]);
        assert(s1.ops[i].stage is Held);
        assert forall|k: int| 0 <= k < schedule.skip(1).len() implies #[trigger] schedule.skip(
            1,
        )[k] != WordEvent::Unlock(i) by {
            assert(schedule.skip(1)[k] == schedule[k + 1]);
        }
        law_held_until_unlocked(s1, schedule.skip(1), i, j);
    }
}

/// A thread that wants the lock while it is free and nobody waits for it gets it without
/// parking or yielding, by its next step or, where a change of the word fails for no reason,
/// by a later one.
pub proof fn law_free_lock_is_taken(m: WordMem, op: WordOp, me: int, spurious: bool)
    requires
        m.word == 0,
        op.stage is Fast || op.stage is Load || (op.stage is Acquire && op.state == 0),
    ensures
        ({
            let (m2, op2) = word_next(m, op, me, spurious);
            &&& word_wish(m, op, me, spurious) is Go
            &&& op2.stage is Held || op2.stage is Load || (op2.stage is Acquire && op2.state == 0)
            &&& !spurious && op.stage !is Load ==> op2.stage is Held && m2.word == 1
            &&& op2.stage !is Held ==> m2 == m
        }),
{
    lemma_clear_word();
}

proof fn lemma_clear_word()
    ensures
        !locked(0),
        queue_head(0) is None,
{
}

/// Waiters are served in the order in which they came: one that joins the queue goes to
/// its front, and one that leaves it is the one at its end, which its remover is about to
/// wake up.
pub proof fn law_oldest_first(s: WordSys, i: int, spurious: bool)
    requires
        s.safe(),
        0 <= i < s.ops.len(),
    ensures
        ({
            let s2 = s.step(i, spurious);
            ||| s2.queue == s.queue
            ||| s2.queue == seq![i] + s.queue && s2.ops[i].stage is Asleep
            ||| s2.queue == s.queue.drop_last() && s2.ops[i].stage is Wake && s2.ops[i].tail
                == s.queue.last()
        }),
{
    assert(s.op_ok(i));
}

/// A thread that sleeps is in the queue, or somebody is about to wake it up; and while
/// the lock is free and somebody waits for it, somebody is at work on it.
pub proof fn law_nobody_forgotten(threads: nat, schedule: Seq<WordEvent>, i: int)
    requires
        4 * (threads + 1) <= usize::MAX,
        WordSys::begin(threads).allows_all(schedule),
        0 <= i < threads,
    ensures
        ({
            let s = WordSys::begin(threads).after_all(schedule);
            &&& s.ops[i].stage is Asleep && s.mem.waiters[i].parker.futex != 0 ==> s.queue.contains(
                i,
            ) || s.being_woken(i)
            &&& !locked(s.mem.word) && s.queue.len() > 0 ==> s.has_rouser()
        }),
{
    let s0 = WordSys::begin(threads);
    let s = s0.after_all(schedule);
    law_word_begins(threads);
    law_any_word_schedule(s0, schedule);
    lemma_threads_stay(s0, schedule);
    assert(s.accounted(i));
}

/// With the lock to itself, a thread that has unlocked wakes up the oldest waiter.
pub proof fn law_unlock_wakes_oldest(s: WordSys)
    requires
        s.safe(),
        !locked(s.mem.word),
        !queue_locked(s.mem.word),
        s.queue.len() > 0,
    ensures
        roused(s.mem).1 == Some(s.queue.last() as usize),
        queue_head(roused(s.mem).0.word) == (if s.queue.len() == 1 {
            None::<usize>
        } else {
            Some(s.queue[0] as usize)
        }),
{
    assert(s.queued(0));
    lemma_queue_fits(s);
    assert(s.mem.waiters =~= Seq::new(s.ops.len(), |k: int| filled_in(s, 0, 0, k)));
    lemma_scan_chain(s, s.mem.waiters, 0, 0, s.mem.waiters.len());
    let last = s.queue.len() - 1;
    assert(s.queued(last));
    lemma_index_of(s, last);
    assert(s.queue.contains(s.queue.last()));
    if s.queue.len() > 1 {
        assert(s.queue[0] != s.queue[last]);
    }
}

/// Where the queue is in order, it can be followed from any waiter before the mark.
proof fn lemma_chain_ok(s: WordSys, ws: Seq<Waiter>, from: int, fuel: nat)
    requires
        s.safe(),
        ws.len() == s.mem.waiters.len(),
        0 <= from <= s.mark < s.queue.len(),
        fuel >= s.queue.len() - from,
        forall|j: int|
            0 <= j < ws.len() ==> (#[trigger] ws[j]).queue_tail == s.mem.waiters[j].queue_tail
                && ws[j].next == s.mem.waiters[j].next,
    ensures
        chain_ok(ws, s.queue[from], fuel),
    decreases s.mark - from,
{
    let c = s.queue[from];
    assert(s.queued(from));
    assert(s.queued(s.queue.len() - 1));
    assert(ws[c].queue_tail == s.mem.waiters[c].queue_tail);
    if from < s.mark {
        assert(s.queued(from + 1));
        let n = s.queue[from + 1];
        let ws2 = ws.update(n, Waiter { prev: Some(c as usize), ..ws[n] });
        lemma_chain_ok(s, ws2, from + 1, (fuel - 1) as nat);
    }
}

/// On a safe lock every thread can take its next step.
pub proof fn law_step_fits(s: WordSys, i: int)
    requires
        s.safe(),
        0 <= i < s.ops.len(),
    ensures
        step_fits(s.mem, s.ops[i], i),
{
    assert(s.op_ok(i));
    let op = s.ops[i];
    if op.stage is Scan {
        let j = choose|j: int|
            0 <= j <= s.mark && #[trigger] s.queue[j] == queue_head(op.state)->0;
        lemma_queue_fits(s);
        lemma_chain_ok(s, s.mem.waiters, j, s.mem.waiters.len());
    } else if op.stage is TakeTail {
        assert(s.queued(s.mark));
        assert(s.queued(s.queue.len() - 1));
    }
}

/// A lock with all threads that use it.
pub struct WordThreads {
    lock: WordLock,
    waiters: Vec<Waiter>,
    ops: Vec<WordOp>,
    queue: Ghost<Seq<int>>,
    mark: Ghost<int>,
}

impl WordThreads {
    /// The lock and what every thread is about to do with it.
    pub closed spec fn sys(&self) -> WordSys {
        WordSys {
            mem: self.lock.mem(self.waiters@),
            ops: self.ops@,
            queue: self.queue@,
            mark: self.mark@,
        }
    }

    /// The lock is safe, and somebody is at work on it.
    pub open spec fn wf(&self) -> bool {
        self.sys().safe() && self.sys().live()
    }

    /// A free lock that `threads` threads use.
    pub fn new(threads: usize) -> (all: WordThreads)
        requires
            4 * (threads + 1) <= usize::MAX,
        ensures
            all.wf(),
            all.sys() == WordSys::begin(threads as nat),
    {
        let mut waiters: Vec<Waiter> = Vec::new();
        let mut ops: Vec<WordOp> = Vec::new();
        for i in 0..threads
            invariant
                waiters@ =~= Seq::new(i as nat, |k: int| Waiter::fresh()),
                ops@ =~= Seq::new(i as nat, |k: int| WordOp::idle()),
        {
            waiters.push(Waiter::new());
            ops.push(
                WordOp { stage: WordStage::Idle, state: 0, wait: SpinWait::new(), tail: 0 },
            );
        }
        proof {
            law_word_begins(threads as nat);
        }
        WordThreads {
            lock: WordLock::new(),
            waiters,
            ops,
            queue: Ghost(Seq::empty()),
            mark: Ghost(0),
        }
    }

    /// Thread `i` begins to lock. Does nothing if it has or wants the lock already, or
    /// still unlocks it.
    pub fn begin_lock(&mut self, i: usize)
        requires
            old(self).wf(),
            i < old(self).sys().ops.len(),
        ensures
            final(self).wf(),
            final(self).sys() == (if old(self).sys().ops[i as int].stage is Idle {
                old(self).sys().after(WordEvent::Lock(i as int))
            } else {
                old(self).sys()
            }),
    {
        if let WordStage::Idle = self.ops[i].stage {
            let ghost s = self.sys();
            self.ops[i].stage = WordStage::Fast;
            proof {
                law_word_event(s, WordEvent::Lock(i as int));
                assert(self.sys() =~= s.after(WordEvent::Lock(i as int)));
            }
        }
    }

    /// Thread `i` begins to unlock. Does nothing if it does not have the lock.
    pub fn begin_unlock(&mut self, i: usize)
        requires
            old(self).wf(),
            i < old(self).sys().ops.len(),
        ensures
            final(self).wf(),
            final(self).sys() == (if old(self).sys().ops[i as int].stage is Held {
                old(self).sys().after(WordEvent::Unlock(i as int))
            } else {
                old(self).sys()
            }),
    {
        if let WordStage::Held = self.ops[i].stage {
            let ghost s = self.sys();
            self.ops[i].stage = WordStage::Release;
            proof {
                law_word_event(s, WordEvent::Unlock(i as int));
                assert(self.sys() =~= s.after(WordEvent::Unlock(i as int)));
            }
        }
    }

    /// Thread `i` takes its next step. Returns what it is to do before it goes on.
    pub fn step(&mut self, i: usize, spurious: bool) -> (wish: Wish)
        requires
            old(self).wf(),
            i < old(self).sys().ops.len(),
        ensures
            final(self).wf(),
            final(self).sys() == old(self).sys().after(WordEvent::Step(i as int, spurious)),
            wish == word_wish(
                old(self).sys().mem,
                old(self).sys().ops[i as int],
                i as int,
                spurious,
            ),
    {
        let ghost s = self.sys();
        proof {
            law_step_fits(s, i as int);
            law_word_event(s, WordEvent::Step(i as int, spurious));
        }
        let mut op = self.ops[i];
        let wish = self.lock.step(&mut self.waiters, &mut op, i, spurious);
        self.ops[i] = op;
        proof {
            self.queue@ = s.step(i as int, spurious).queue;
            self.mark@ = s.step(i as int, spurious).mark;
            assert(self.sys() =~= s.step(i as int, spurious));
        }
        wish
    }

    /// Whether thread `i` holds the lock.
    pub fn has_lock(&self, i: usize) -> (yes: bool)
        requires
            self.wf(),
            i < self.sys().ops.len(),
        ensures
            yes == holds(self.sys().ops[i as int]),
    {
        match self.ops[i].stage {
            WordStage::Held => true,
            WordStage::Release => true,
            _ => false,
        }
    }

    /// Whether thread `i` sleeps until it is woken up.
    pub fn sleeps(&self, i: usize) -> (yes: bool)
        requires
            self.wf(),
            i < self.sys().ops.len(),
        ensures
            yes == (self.sys().ops[i as int].stage is Asleep && self.sys().mem.waiters[i as
                int].parker.futex != 0),
    {
        if let WordStage::Asleep = self.ops[i].stage {
            self.waiters[i].parker.park()
        } else {
            false
        }
    }
}

} // verus!
