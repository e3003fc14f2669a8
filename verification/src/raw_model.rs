//! What each shared access of locking and unlocking a raw mutex does.
//!
//! Threads that find the mutex held for long are parked on its key. What is done with the
//! queue of the key while its bucket is locked counts as one access: within it, the state
//! of the mutex is read or written once.

use vstd::prelude::*;

use crate::spin_wait::SpinWait;

verus! {

/// This bit is set in the state of a mutex when that mutex is locked by some thread.
pub const LOCKED_BIT: u8 = 0b01;

/// This bit is set in the state of a mutex just before parking a thread. A thread is being
/// parked if it wants to lock the mutex, but it is currently being held by some other
/// thread.
pub const PARKED_BIT: u8 = 0b10;

/// The value of the token used to indicate that the target thread should attempt to lock
/// the mutex again as soon as it is unparked.
pub const TOKEN_NORMAL: usize = 0;

/// The value of the token used to indicate that the mutex is being handed off to the target
/// thread directly without unlocking it.
pub const TOKEN_HANDOFF: usize = 1;

/// Whether the state says that the mutex is locked.
pub open spec fn is_locked(state: u8) -> bool {
    state % 2 == 1
}

/// Whether the state says that threads are parked or about to park.
pub open spec fn is_contended(state: u8) -> bool {
    state / 2 % 2 == 1
}

pub proof fn lemma_state_bits(state: u8)
    ensures
        (state & LOCKED_BIT != 0) <==> is_locked(state),
        (state & PARKED_BIT != 0) <==> is_contended(state),
        !is_locked(state) ==> (state | LOCKED_BIT) == state + 1,
        !is_contended(state) ==> (state | PARKED_BIT) == state + 2,
        is_contended(state) ==> (state | PARKED_BIT) == state,
        LOCKED_BIT | PARKED_BIT == 3,
{
    assert(((state & 1u8 != 0) <==> state % 2u8 == 1u8) && ((state & 2u8 != 0) <==> state / 2u8 % 2u8
        == 1u8) && (state % 2u8 == 0u8 ==> (state | 1u8) == state + 1) && (state / 2u8 % 2u8 == 0u8
        ==> (state | 2u8) == state + 2) && (state / 2u8 % 2u8 == 1u8 ==> (state | 2u8) == state)
        && 1u8 | 2u8 == 3u8) by (bit_vector);
}

/// What a thread does next about the mutex.
#[derive(Clone, Copy, Debug, PartialEq, Eq, Structural)]
pub enum RawStage {
    /// Nothing: it neither has nor wants the mutex.
    Idle,
    /// Take the mutex if its state is all clear.
    Fast,
    /// Read the state, to lock.
    Load,
    /// Set the locked bit.
    Acquire,
    /// Set the parked bit.
    SetParked,
    /// Get parked, if the mutex still is locked and threads may be parked.
    Park,
    /// Look whether it has been unparked.
    Parked,
    /// Nothing: it has the mutex.
    Held,
    /// Clear the locked bit, if nobody is parked.
    Unlock,
    /// Unpark a thread, and unlock the mutex or hand it over.
    UnlockSlow,
    /// Read the state, to lock only if that can be done at once.
    TryLoad,
    /// Set the locked bit, or give up.
    TryAcquire,
    /// Read the state, to have the parked bit set.
    MarkLoad,
    /// Set the parked bit of a locked mutex.
    Mark,
}

/// A thread's dealings with the mutex.
#[derive(Clone, Copy, Debug, PartialEq, Eq, Structural)]
pub struct RawOp {
    pub stage: RawStage,
    /// The state as last read.
    pub state: u8,
    pub wait: SpinWait,
    /// Whether the last marking found the mutex locked.
    pub marked: bool,
}

impl RawOp {
    /// A thread that neither has nor wants the mutex.
    pub open spec fn idle() -> RawOp {
        RawOp { stage: RawStage::Idle, state: 0, wait: SpinWait { counter: 0 }, marked: false }
    }

    /// What a thread that wants the mutex does once it has read the state.
    pub open spec fn decide_lock(self) -> RawOp {
        if !is_locked(self.state) {
            RawOp { stage: RawStage::Acquire, ..self }
        } else if !is_contended(self.state) && !self.wait.exhausted() {
            RawOp { wait: self.wait.spun(), stage: RawStage::Load, ..self }
        } else if !is_contended(self.state) {
            RawOp { stage: RawStage::SetParked, ..self }
        } else {
            RawOp { stage: RawStage::Park, ..self }
        }
    }

    /// What a thread that was not to wait does once it has read the state.
    pub open spec fn decide_try(self) -> RawOp {
        if is_locked(self.state) {
            RawOp { stage: RawStage::Idle, ..self }
        } else {
            RawOp { stage: RawStage::TryAcquire, ..self }
        }
    }

    /// What a thread that has the parked bit set does once it has read the state.
    pub open spec fn decide_mark(self) -> RawOp {
        if is_locked(self.state) {
            RawOp { stage: RawStage::Mark, ..self }
        } else {
            RawOp { stage: RawStage::Idle, marked: false, ..self }
        }
    }

    /// What a thread does that was parked in vain, or unparked without the mutex.
    pub open spec fn spin_again(self) -> RawOp {
        RawOp { wait: self.wait.spun(), stage: RawStage::Load, ..self }
    }
}

/// The state of the mutex, the threads that are parked on its key, and for each thread
/// whether it is to sleep and the token it was unparked with.
#[verifier::ext_equal]
pub struct RawMem {
    pub state: u8,
    pub queue: Seq<usize>,
    pub asleep: Seq<bool>,
    pub tokens: Seq<usize>,
}

/// The memory and the thread after the thread's next access. `spurious` says that a change
/// of the state which may fail for no reason does so this time, and `fair` that an unlock
/// is to be fair this time.
pub open spec fn raw_next(
    m: RawMem,
    op: RawOp,
    me: int,
    spurious: bool,
    fair: bool,
) -> (RawMem, RawOp) {
    let hit = !spurious && m.state == op.state;
    match op.stage {
        RawStage::Idle => (m, op),
        RawStage::Fast => if !spurious && m.state == 0 {
            (RawMem { state: LOCKED_BIT, ..m }, RawOp { stage: RawStage::Held, ..op })
        } else {
            (m, RawOp { wait: SpinWait { counter: 0 }, stage: RawStage::Load, ..op })
        },
        RawStage::Load => (m, (RawOp { state: m.state, ..op }).decide_lock()),
        RawStage::Acquire => if hit {
            (
                RawMem { state: (op.state + 1) as u8, ..m },
                RawOp { stage: RawStage::Held, ..op },
            )
        } else {
            (m, (RawOp { state: m.state, ..op }).decide_lock())
        },
        RawStage::SetParked => if hit {
            (
                RawMem { state: (op.state + 2) as u8, ..m },
                RawOp { stage: RawStage::Park, ..op },
            )
        } else {
            (m, (RawOp { state: m.state, ..op }).decide_lock())
        },
        RawStage::Park => if m.state == 3 {
            (
                RawMem {
                    queue: m.queue.push(me as usize),
                    asleep: m.asleep.update(me, true),
                    ..m
                },
                RawOp { stage: RawStage::Parked, ..op },
            )
        } else {
            (m, op.spin_again())
        },
        RawStage::Parked => if m.asleep[me] {
            (m, op)
        } else if m.tokens[me] == TOKEN_HANDOFF {
            (m, RawOp { stage: RawStage::Held, ..op })
        } else {
            (m, op.spin_again())
        },
        RawStage::Held => (m, op),
        RawStage::Unlock => if m.state == LOCKED_BIT {
            (RawMem { state: 0, ..m }, RawOp { stage: RawStage::Idle, ..op })
        } else {
            (m, RawOp { stage: RawStage::UnlockSlow, ..op })
        },
        RawStage::UnlockSlow => (
            if m.queue.len() == 0 {
                RawMem { state: 0, ..m }
            } else {
                let t = m.queue[0] as int;
                let more = m.queue.len() > 1;
                RawMem {
                    state: if fair {
                        if more {
                            m.state
                        } else {
                            LOCKED_BIT
                        }
                    } else {
                        if more {
                            PARKED_BIT
                        } else {
                            0
                        }
                    },
                    queue: m.queue.skip(1),
                    asleep: m.asleep.update(t, false),
                    tokens: m.tokens.update(
                        t,
                        if fair {
                            TOKEN_HANDOFF
                        } else {
                            TOKEN_NORMAL
                        },
                    ),
                }
            },
            RawOp { stage: RawStage::Idle, ..op },
        ),
        RawStage::TryLoad => (m, (RawOp { state: m.state, ..op }).decide_try()),
        RawStage::TryAcquire => if hit {
            (
                RawMem { state: (op.state + 1) as u8, ..m },
                RawOp { stage: RawStage::Held, ..op },
            )
        } else {
            (m, (RawOp { state: m.state, ..op }).decide_try())
        },
        RawStage::MarkLoad => (m, (RawOp { state: m.state, ..op }).decide_mark()),
        RawStage::Mark => if hit {
            (
                RawMem {
                    state: if is_contended(op.state) {
                        op.state
                    } else {
                        (op.state + 2) as u8
                    },
                    ..m
                },
                RawOp { stage: RawStage::Idle, marked: true, ..op },
            )
        } else {
            (m, (RawOp { state: m.state, ..op }).decide_mark())
        },
    }
}

/// What a thread is to do after an access, before its next one.
#[derive(Clone, Copy, Debug, PartialEq, Eq, Structural)]
pub enum RawWish {
    /// Nothing.
    Go,
    /// Yield the processor.
    Yield,
    /// Sleep until unparked.
    Sleep,
    /// Wake up the thread.
    Wake(usize),
}

/// What a thread that wants the mutex is to do once it has read the state.
pub open spec fn raw_lock_wish(op: RawOp) -> RawWish {
    if is_locked(op.state) && !is_contended(op.state) && op.wait.spin_yields() {
        RawWish::Yield
    } else {
        RawWish::Go
    }
}

/// What a thread is to do that spins once more.
pub open spec fn spin_wish(op: RawOp) -> RawWish {
    if op.wait.spin_yields() {
        RawWish::Yield
    } else {
        RawWish::Go
    }
}

/// What a thread is to do after its next access and before the one after that.
pub open spec fn raw_wish(m: RawMem, op: RawOp, me: int, spurious: bool) -> RawWish {
    let missed = spurious || m.state != op.state;
    match op.stage {
        RawStage::Load => raw_lock_wish(RawOp { state: m.state, ..op }),
        RawStage::Acquire => if missed {
            raw_lock_wish(RawOp { state: m.state, ..op })
        } else {
            RawWish::Go
        },
        RawStage::SetParked => if missed {
            raw_lock_wish(RawOp { state: m.state, ..op })
        } else {
            RawWish::Go
        },
        RawStage::Park => if m.state == 3 {
            RawWish::Go
        } else {
            spin_wish(op)
        },
        RawStage::Parked => if m.asleep[me] {
            RawWish::Sleep
        } else if m.tokens[me] == TOKEN_HANDOFF {
            RawWish::Go
        } else {
            spin_wish(op)
        },
        RawStage::UnlockSlow => if m.queue.len() > 0 {
            RawWish::Wake(m.queue[0])
        } else {
            RawWish::Go
        },
        _ => RawWish::Go,
    }
}

} // verus!
