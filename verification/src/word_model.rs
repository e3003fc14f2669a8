//! What each shared access of locking and unlocking a word-sized lock does.
//!
//! Threads that find the lock held wait in a queue that is threaded through their own
//! records. A new waiter puts itself at the front without any lock; whoever takes a
//! waiter off the end holds the queue lock. Only then are the links towards the front
//! filled in.

use vstd::prelude::*;

use crate::parker::ThreadParker;
use crate::spin_wait::SpinWait;

verus! {

/// Set in the word while a thread holds the lock.
pub const LOCKED_BIT: usize = 1;

/// Set in the word while a thread works on the queue of waiters.
pub const QUEUE_LOCKED_BIT: usize = 2;

/// The bits of the word that say which waiter is at the front of the queue.
pub const QUEUE_MASK: usize = !3;

/// Whether the word says that the lock is held.
pub open spec fn locked(word: usize) -> bool {
    word as int % 2 == 1
}

/// Whether the word says that the queue is being worked on.
pub open spec fn queue_locked(word: usize) -> bool {
    word as int / 2 % 2 == 1
}

/// The waiter at the front of the queue, if there is one.
pub open spec fn queue_head(word: usize) -> Option<usize> {
    if word / 4 == 0 {
        None
    } else {
        Some((word / 4 - 1) as usize)
    }
}

/// The word with the waiter put at the front of the queue.
pub open spec fn with_queue_head(word: usize, waiter: int) -> int {
    word as int % 4 + 4 * (waiter + 1)
}

pub proof fn lemma_word_bits(word: usize)
    ensures
        (word & LOCKED_BIT != 0) <==> locked(word),
        (word & QUEUE_LOCKED_BIT != 0) <==> queue_locked(word),
        (word & QUEUE_MASK) == word - word as int % 4,
        (word & !QUEUE_MASK) == word as int % 4,
        (word | LOCKED_BIT) == (if locked(word) {
            word as int
        } else {
            word + 1
        }),
        (word | QUEUE_LOCKED_BIT) == (if queue_locked(word) {
            word as int
        } else {
            word + 2
        }),
        (word & !QUEUE_LOCKED_BIT) == (if queue_locked(word) {
            word - 2
        } else {
            word as int
        }),
        (word & LOCKED_BIT) == word as int % 2,
{
    assert(!3usize & 3usize == 0usize && !(!3usize) == 3usize) by (bit_vector);
    assert(word & 1usize == word % 2usize && (word & 2usize != 0usize <==> word / 2usize % 2usize
        == 1usize) && word & !3usize == word - word % 4usize && word & 3usize == word % 4usize && (
    word % 2usize == 1usize ==> word | 1usize == word) && (word % 2usize == 0usize ==> (word
        | 1usize) == word + 1) && (word / 2usize % 2usize == 1usize ==> word | 2usize == word) && (
    word / 2usize % 2usize == 0usize ==> (word | 2usize) == word + 2) && (word / 2usize % 2usize
        == 1usize ==> (word & !2usize) == word - 2) && (word / 2usize % 2usize == 0usize ==> word
        & !2usize == word)) by (bit_vector);
}

/// A thread's record in the queue of waiters.
#[derive(Debug)]
pub struct Waiter {
    pub parker: ThreadParker,
    /// The waiter at the end of the queue, as far as this waiter knows of it: the links
    /// towards the front are filled in from here to there.
    pub queue_tail: Option<usize>,
    /// The waiter before this one, nearer to the front.
    pub prev: Option<usize>,
    /// The waiter behind this one, nearer to the end.
    pub next: Option<usize>,
}

impl Waiter {
    /// The record of a thread that does not wait.
    pub open spec fn fresh() -> Waiter {
        Waiter { parker: ThreadParker { futex: 0 }, queue_tail: None, prev: None, next: None }
    }

    /// The record as it is made ready to be put at the front, before `head`.
    pub open spec fn prepared(self, me: int, head: Option<usize>) -> Waiter {
        if head is None {
            Waiter {
                parker: ThreadParker { futex: 1 },
                queue_tail: Some(me as usize),
                prev: None,
                next: self.next,
            }
        } else {
            Waiter {
                parker: ThreadParker { futex: 1 },
                queue_tail: None,
                prev: None,
                next: head,
            }
        }
    }
}

/// What a thread does next about the lock.
#[derive(Clone, Copy, Debug, PartialEq, Eq, Structural)]
pub enum WordStage {
    /// Nothing: it neither has nor wants the lock.
    Idle,
    /// Take the lock if the word is all clear.
    Fast,
    /// Read the word, to lock.
    Load,
    /// Set the locked bit.
    Acquire,
    /// Put itself at the front of the queue.
    Enqueue,
    /// Look whether it has been woken up.
    Asleep,
    /// Nothing: it has the lock.
    Held,
    /// Clear the locked bit.
    Release,
    /// Read the word, after unlocking.
    UnlockLoad,
    /// Lock the queue.
    GrabQueue,
    /// Fill in links of the queue and find its end.
    Scan,
    /// Unlock the queue, as the lock is held again.
    DropQueue,
    /// Take the only waiter off the queue and unlock the queue.
    TakeLast,
    /// Take the waiter at the end off the queue and unlock the queue.
    TakeTail,
    /// Wake up the waiter that was taken off.
    Wake,
}

/// A thread's dealings with the lock.
#[derive(Clone, Copy, Debug, PartialEq, Eq, Structural)]
pub struct WordOp {
    pub stage: WordStage,
    /// The word as last read.
    pub state: usize,
    pub wait: SpinWait,
    /// The waiter found at the end of the queue.
    pub tail: usize,
}

impl WordOp {
    /// A thread that neither has nor wants the lock.
    pub open spec fn idle() -> WordOp {
        WordOp { stage: WordStage::Idle, state: 0, wait: SpinWait { counter: 0 }, tail: 0 }
    }

    /// What a thread that wants the lock does once it has read the word.
    pub open spec fn decide_lock(self) -> WordOp {
        if !locked(self.state) {
            WordOp { stage: WordStage::Acquire, ..self }
        } else if queue_head(self.state) is None && !self.wait.exhausted() {
            WordOp { wait: self.wait.spun(), stage: WordStage::Load, ..self }
        } else {
            WordOp { stage: WordStage::Enqueue, ..self }
        }
    }

    /// What a thread that has unlocked does once it has read the word.
    pub open spec fn decide_unlock(self) -> WordOp {
        if queue_locked(self.state) || queue_head(self.state) is None {
            WordOp { stage: WordStage::Idle, ..self }
        } else {
            WordOp { stage: WordStage::GrabQueue, ..self }
        }
    }
}

/// The word and the records of the threads that may wait for it.
#[verifier::ext_equal]
pub struct WordMem {
    pub word: usize,
    pub waiters: Seq<Waiter>,
}

impl WordMem {
    /// The memory with a record replaced.
    pub open spec fn with(self, i: int, waiter: Waiter) -> WordMem {
        WordMem { waiters: self.waiters.update(i, waiter), ..self }
    }
}

/// Follows the queue from `current` towards the end, filling in the links towards the
/// front, up to a waiter that knows the end. Returns the records and the end.
pub open spec fn scan_chain(waiters: Seq<Waiter>, current: int, fuel: nat) -> (Seq<Waiter>, usize)
    decreases fuel,
{
    let waiter = waiters[current];
    if fuel == 0 || waiter.queue_tail is Some {
        (waiters, waiter.queue_tail->0)
    } else {
        let next = waiter.next->0 as int;
        scan_chain(
            waiters.update(next, Waiter { prev: Some(current as usize), ..waiters[next] }),
            next,
            (fuel - 1) as nat,
        )
    }
}

/// The memory and the thread after the thread's next access. `spurious` says that a
/// change of the word which may fail for no reason does so this time.
pub open spec fn word_next(m: WordMem, op: WordOp, me: int, spurious: bool) -> (WordMem, WordOp) {
    let hit = !spurious && m.word == op.state;
    match op.stage {
        WordStage::Idle => (m, op),
        WordStage::Fast => if !spurious && m.word == 0 {
            (WordMem { word: 1, ..m }, WordOp { stage: WordStage::Held, ..op })
        } else {
            (m, WordOp { wait: SpinWait { counter: 0 }, stage: WordStage::Load, ..op })
        },
        WordStage::Load => (m, (WordOp { state: m.word, ..op }).decide_lock()),
        WordStage::Acquire => if hit {
            (
                WordMem { word: (op.state + 1) as usize, ..m },
                WordOp { stage: WordStage::Held, ..op },
            )
        } else {
            (m, (WordOp { state: m.word, ..op }).decide_lock())
        },
        WordStage::Enqueue => {
            let m1 = m.with(me, m.waiters[me].prepared(me, queue_head(op.state)));
            if hit {
                (
                    WordMem { word: with_queue_head(op.state, me) as usize, ..m1 },
                    WordOp { stage: WordStage::Asleep, ..op },
                )
            } else {
                (m1, (WordOp { state: m.word, ..op }).decide_lock())
            }
        },
        WordStage::Asleep => if m.waiters[me].parker.futex != 0 {
            (m, op)
        } else {
            (m, WordOp { wait: SpinWait { counter: 0 }, stage: WordStage::Load, ..op })
        },
        WordStage::Held => (m, op),
        WordStage::Release => (
            WordMem { word: (m.word - 1) as usize, ..m },
            if queue_locked(m.word) || queue_head(m.word) is None {
                WordOp { stage: WordStage::Idle, ..op }
            } else {
                WordOp { stage: WordStage::UnlockLoad, ..op }
            },
        ),
        WordStage::UnlockLoad => (m, (WordOp { state: m.word, ..op }).decide_unlock()),
        WordStage::GrabQueue => if hit {
            (
                WordMem { word: (op.state + 2) as usize, ..m },
                WordOp { stage: WordStage::Scan, ..op },
            )
        } else {
            (m, (WordOp { state: m.word, ..op }).decide_unlock())
        },
        WordStage::Scan => {
            let head = queue_head(op.state)->0 as int;
            let (scanned, tail) = scan_chain(m.waiters, head, m.waiters.len());
            (
                WordMem {
                    waiters: scanned.update(
                        head,
                        Waiter { queue_tail: Some(tail), ..scanned[head] },
                    ),
                    ..m
                },
                WordOp {
                    tail,
                    stage: if locked(op.state) {
                        WordStage::DropQueue
                    } else if scanned[tail as int].prev is None {
                        WordStage::TakeLast
                    } else {
                        WordStage::TakeTail
                    },
                    ..op
                },
            )
        },
        WordStage::DropQueue => if hit {
            (
                WordMem {
                    word: (if queue_locked(op.state) {
                        op.state - 2
                    } else {
                        op.state as int
                    }) as usize,
                    ..m
                },
                WordOp { stage: WordStage::Idle, ..op },
            )
        } else {
            (m, WordOp { state: m.word, stage: WordStage::Scan, ..op })
        },
        WordStage::TakeLast => if hit {
            (
                WordMem { word: (op.state as int % 2) as usize, ..m },
                WordOp { stage: WordStage::Wake, ..op },
            )
        } else if queue_head(m.word) is None {
            (m, WordOp { state: m.word, ..op })
        } else {
            (m, WordOp { state: m.word, stage: WordStage::Scan, ..op })
        },
        WordStage::TakeTail => {
            let head = queue_head(op.state)->0 as int;
            (
                WordMem {
                    word: (if queue_locked(m.word) {
                        m.word - 2
                    } else {
                        m.word as int
                    }) as usize,
                    waiters: m.waiters.update(
                        head,
                        Waiter { queue_tail: m.waiters[op.tail as int].prev, ..m.waiters[head] },
                    ),
                },
                WordOp { stage: WordStage::Wake, ..op },
            )
        },
        WordStage::Wake => {
            let w = m.waiters[op.tail as int];
            (
                m.with(op.tail as int, Waiter { parker: ThreadParker { futex: 0 }, ..w }),
                WordOp { stage: WordStage::Idle, ..op },
            )
        },
    }
}

/// What a thread is to do before its next step.
#[derive(Clone, Copy, Debug, PartialEq, Eq, Structural)]
pub enum Wish {
    /// Nothing.
    Go,
    /// Yield the processor.
    Yield,
    /// Sleep until woken up.
    Sleep,
    /// Wake up the thread of this record.
    Wake(usize),
}

/// What a thread is to do after its next access and before the one after that.
pub open spec fn word_wish(m: WordMem, op: WordOp, me: int, spurious: bool) -> Wish {
    let missed = spurious || m.word != op.state;
    match op.stage {
        WordStage::Load => lock_wish(WordOp { state: m.word, ..op }),
        WordStage::Acquire => if missed {
            lock_wish(WordOp { state: m.word, ..op })
        } else {
            Wish::Go
        },
        WordStage::Enqueue => if missed {
            lock_wish(WordOp { state: m.word, ..op })
        } else {
            Wish::Go
        },
        WordStage::Asleep => if m.waiters[me].parker.futex != 0 {
            Wish::Sleep
        } else {
            Wish::Go
        },
        WordStage::Wake => Wish::Wake(op.tail),
        _ => Wish::Go,
    }
}

/// What a thread that wants the lock is to do once it has read the word.
pub open spec fn lock_wish(op: WordOp) -> Wish {
    if locked(op.state) && queue_head(op.state) is None && op.wait.spin_yields() {
        Wish::Yield
    } else {
        Wish::Go
    }
}

} // verus!
