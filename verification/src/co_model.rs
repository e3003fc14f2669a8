//! What each shared access of a push and of a pop does to a chunked queue.
//!
//! A push or a pop is a run of accesses to the words that the ends, the chunks and
//! the slots share between threads, with decisions in between. Its state between
//! two accesses is a [`PushOp`] or a [`PopOp`]; [`push_next`] and [`pop_next`] say
//! what the next access does. Other operations may take any number of steps
//! between two steps of one operation.

use vstd::prelude::*;

use crate::backoff::Backoff;
use crate::chunk::{has_next, lap, num, off, pos, ChunkModel, Segment, Slot, DESTROY, READ, WRITE};

verus! {

/// The words that operations on one queue share, and everything ever pushed.
#[verifier::ext_equal]
pub struct Mem<T> {
    pub head: Segment,
    pub tail: Segment,
    pub chunks: Seq<ChunkModel<T>>,
    pub pushed: Seq<T>,
}

impl<T> Mem<T> {
    /// The words of a queue to which nothing was ever pushed.
    pub open spec fn empty() -> Mem<T> {
        Mem {
            head: Segment { index: 0, chunk: None },
            tail: Segment { index: 0, chunk: None },
            chunks: Seq::empty(),
            pushed: Seq::empty(),
        }
    }

    /// The slot at a position.
    pub open spec fn slot(self, p: int) -> Slot<T> {
        self.chunks[lap(p)].slots[off(p)]
    }

    /// The memory with the slot at a position replaced.
    pub open spec fn with_slot(self, p: int, slot: Slot<T>) -> Mem<T> {
        Mem {
            chunks: self.chunks.update(lap(p), self.chunks[lap(p)].with_slot(off(p), slot)),
            ..self
        }
    }

    /// The tail index can still be moved on.
    pub open spec fn has_room(self) -> bool {
        self.tail.index <= usize::MAX - 4
    }

    /// The tail index can be moved on by this many pushes.
    pub open spec fn has_room_for(self, pushes: nat) -> bool {
        self.tail.index + 4 * pushes <= usize::MAX - 4
    }
}

/// What a push does next.
#[derive(Clone, Copy, Debug, PartialEq, Eq, Structural)]
pub enum PushStage {
    /// Read the tail index.
    LoadIndex,
    /// Read the tail chunk.
    LoadChunk,
    /// Put in the first chunk if there still is none.
    Install,
    /// Let the head know of the first chunk.
    PublishHead,
    /// Claim the position by moving the tail index past it.
    Advance,
    /// Read the tail chunk after a failed claim.
    Reload,
    /// Make a new chunk the tail chunk.
    StoreTailChunk,
    /// Move the tail index into the new chunk.
    StoreTailIndex,
    /// Link the new chunk behind the old one.
    LinkNext,
    /// Write the value into the claimed slot.
    Write,
    /// Mark the slot as written.
    Mark,
    /// Nothing: the push is over.
    Done,
}

/// A push under way.
#[derive(Debug)]
pub struct PushOp<T> {
    pub stage: PushStage,
    pub item: Option<T>,
    pub backoff: Backoff,
    /// The tail index as last read.
    pub tail: usize,
    /// The tail chunk as last read.
    pub chunk: Option<usize>,
    /// Whether a chunk stands by for when this push fills the last slot.
    pub spare: bool,
    /// The chunk put in behind the full one.
    pub next: Option<usize>,
}

impl<T> PushOp<T> {
    /// A push that has not read anything yet.
    pub open spec fn start(item: T) -> PushOp<T> {
        PushOp {
            stage: PushStage::LoadIndex,
            item: Some(item),
            backoff: Backoff { step: 0 },
            tail: 0,
            chunk: None,
            spare: false,
            next: None,
        }
    }

    /// The position that the push works on.
    pub open spec fn at(self) -> int {
        pos(self.tail)
    }

    /// What follows a read of the tail index and then of the tail chunk.
    pub open spec fn decide(self) -> PushOp<T> {
        if off(self.at()) == 31 {
            PushOp { backoff: self.backoff.napped(), stage: PushStage::LoadIndex, ..self }
        } else {
            PushOp {
                spare: self.spare || off(self.at()) == 30,
                stage: if self.chunk is None {
                    PushStage::Install
                } else {
                    PushStage::Advance
                },
                ..self
            }
        }
    }
}

/// The memory and the push after the push's next access. `spurious` says that a
/// claim which may fail for no reason does so this time.
pub open spec fn push_next<T>(m: Mem<T>, op: PushOp<T>, spurious: bool) -> (Mem<T>, PushOp<T>) {
    match op.stage {
        PushStage::LoadIndex => (
            m,
            PushOp { tail: m.tail.index, stage: PushStage::LoadChunk, ..op },
        ),
        PushStage::LoadChunk => (m, (PushOp { chunk: m.tail.chunk, ..op }).decide()),
        PushStage::Reload => (
            m,
            (PushOp { chunk: m.tail.chunk, backoff: op.backoff.spun(), ..op }).decide(),
        ),
        PushStage::Install => if m.tail.chunk is None {
            let id = m.chunks.len() as usize;
            (
                Mem {
                    chunks: m.chunks.push(ChunkModel::fresh()),
                    tail: Segment { chunk: Some(id), ..m.tail },
                    ..m
                },
                PushOp { chunk: Some(id), stage: PushStage::PublishHead, ..op },
            )
        } else {
            (m, PushOp { spare: true, stage: PushStage::LoadIndex, ..op })
        },
        PushStage::PublishHead => (
            Mem { head: Segment { chunk: op.chunk, ..m.head }, ..m },
            PushOp { stage: PushStage::Advance, ..op },
        ),
        PushStage::Advance => if !spurious && m.tail.index == op.tail {
            (
                Mem {
                    tail: Segment { index: (op.tail + 2) as usize, ..m.tail },
                    pushed: m.pushed.push(op.item->0),
                    ..m
                },
                PushOp {
                    stage: if off(op.at()) == 30 {
                        PushStage::StoreTailChunk
                    } else {
                        PushStage::Write
                    },
                    ..op
                },
            )
        } else {
            (m, PushOp { tail: m.tail.index, stage: PushStage::Reload, ..op })
        },
        PushStage::StoreTailChunk => {
            let id = m.chunks.len() as usize;
            (
                Mem {
                    chunks: m.chunks.push(ChunkModel::fresh()),
                    tail: Segment { chunk: Some(id), ..m.tail },
                    ..m
                },
                PushOp {
                    next: Some(id),
                    spare: false,
                    stage: PushStage::StoreTailIndex,
                    ..op
                },
            )
        },
        PushStage::StoreTailIndex => (
            Mem { tail: Segment { index: (op.tail + 4) as usize, ..m.tail }, ..m },
            PushOp { stage: PushStage::LinkNext, ..op },
        ),
        PushStage::LinkNext => {
            let c = op.chunk->0 as int;
            (
                Mem {
                    chunks: m.chunks.update(c, ChunkModel { next: op.next, ..m.chunks[c] }),
                    ..m
                },
                PushOp { stage: PushStage::Write, ..op },
            )
        },
        PushStage::Write => (
            m.with_slot(op.at(), Slot { value: op.item, ..m.slot(op.at()) }),
            PushOp { item: None, stage: PushStage::Mark, ..op },
        ),
        PushStage::Mark => (
            m.with_slot(
                op.at(),
                Slot { state: m.slot(op.at()).state | WRITE, ..m.slot(op.at()) },
            ),
            PushOp { stage: PushStage::Done, ..op },
        ),
        PushStage::Done => (m, op),
    }
}

/// Whether the push's next access ends in a nap for which the processor is to be
/// yielded.
pub open spec fn push_yields<T>(m: Mem<T>, op: PushOp<T>) -> bool {
    &&& op.stage is LoadChunk || op.stage is Reload
    &&& off(op.at()) == 31
    &&& (if op.stage is Reload {
        op.backoff.spun()
    } else {
        op.backoff
    }).nap_yields()
}

/// What a pop does next.
#[derive(Clone, Copy, Debug, PartialEq, Eq, Structural)]
pub enum PopStage {
    /// Read the head index.
    LoadIndex,
    /// Read the head chunk.
    LoadChunk,
    /// Read the tail index, to see whether there is a value.
    LoadTail,
    /// Claim the position by moving the head index past it.
    Advance,
    /// Read the head chunk after a failed claim.
    Reload,
    /// Look for the chunk behind the one whose last slot was claimed.
    WaitNext,
    /// See whether that chunk has a successor too.
    PeekNext,
    /// Make it the head chunk.
    StoreHeadChunk,
    /// Move the head index into it.
    StoreHeadIndex,
    /// Look for the value in the claimed slot.
    WaitWrite,
    /// Take the value.
    Read,
    /// Mark the slot as read.
    MarkRead,
    /// See whether a slot of the finished chunk has been read. The last slot has: its reader
    /// began the end of the chunk. Once all have been read, free the chunk.
    DestroyCheck,
    /// Leave the rest of the chunk's end to that slot's reader.
    DestroyMark,
    /// Nothing: the pop is over.
    Done,
}

/// A pop under way.
#[derive(Debug)]
pub struct PopOp<T> {
    pub stage: PopStage,
    pub backoff: Backoff,
    /// The backoff of the wait that the pop is in.
    pub wait: Backoff,
    /// The head index as last read.
    pub head: usize,
    /// The head chunk as last read.
    pub chunk: Option<usize>,
    /// The index word that claims the position.
    pub new_head: usize,
    /// The chunk behind the one that is finished.
    pub next: Option<usize>,
    /// The index word that enters that chunk.
    pub next_head: usize,
    /// The slot that the end of the chunk has come to.
    pub scan: usize,
    /// The value taken.
    pub item: Option<T>,
    /// Whether this pop has freed its chunk.
    pub ended: bool,
}

impl<T> PopOp<T> {
    /// A pop that has not read anything yet.
    pub open spec fn start() -> PopOp<T> {
        PopOp {
            stage: PopStage::LoadIndex,
            backoff: Backoff { step: 0 },
            wait: Backoff { step: 0 },
            head: 0,
            chunk: None,
            new_head: 0,
            next: None,
            next_head: 0,
            scan: 0,
            item: None,
            ended: false,
        }
    }

    /// The position that the pop works on.
    pub open spec fn at(self) -> int {
        pos(self.head)
    }

    /// What follows once the pop knows that the position holds a value.
    pub open spec fn claim_or_retry(self) -> PopOp<T> {
        if self.chunk is None {
            PopOp { backoff: self.backoff.napped(), stage: PopStage::LoadIndex, ..self }
        } else {
            PopOp { stage: PopStage::Advance, ..self }
        }
    }

    /// What follows a read of the head index and then of the head chunk.
    pub open spec fn decide(self) -> PopOp<T> {
        if off(self.at()) == 31 {
            PopOp { backoff: self.backoff.napped(), stage: PopStage::LoadIndex, ..self }
        } else {
            let op = PopOp { new_head: (self.head + 2) as usize, ..self };
            if has_next(self.head) {
                op.claim_or_retry()
            } else {
                PopOp { stage: PopStage::LoadTail, ..op }
            }
        }
    }

    /// The end of a pop that needs to end a chunk from slot `scan` on.
    pub open spec fn destroy_from(self, scan: int) -> PopOp<T> {
        PopOp { scan: scan as usize, stage: PopStage::DestroyCheck, ..self }
    }
}

/// The memory and the pop after the pop's next access. `spurious` says that a
/// claim which may fail for no reason does so this time.
pub open spec fn pop_next<T>(m: Mem<T>, op: PopOp<T>, spurious: bool) -> (Mem<T>, PopOp<T>) {
    match op.stage {
        PopStage::LoadIndex => (
            m,
            PopOp { head: m.head.index, stage: PopStage::LoadChunk, ..op },
        ),
        PopStage::LoadChunk => (m, (PopOp { chunk: m.head.chunk, ..op }).decide()),
        PopStage::Reload => (
            m,
            (PopOp { chunk: m.head.chunk, backoff: op.backoff.spun(), ..op }).decide(),
        ),
        PopStage::LoadTail => {
            let t = pos(m.tail.index);
            if op.at() == t {
                (m, PopOp { stage: PopStage::Done, ..op })
            } else if lap(op.at()) != lap(t) {
                (m, (PopOp { new_head: (op.new_head + 1) as usize, ..op }).claim_or_retry())
            } else {
                (m, op.claim_or_retry())
            }
        },
        PopStage::Advance => if !spurious && m.head.index == op.head {
            (
                Mem { head: Segment { index: op.new_head, ..m.head }, ..m },
                PopOp {
                    wait: Backoff { step: 0 },
                    stage: if off(op.at()) == 30 {
                        PopStage::WaitNext
                    } else {
                        PopStage::WaitWrite
                    },
                    ..op
                },
            )
        } else {
            (m, PopOp { head: m.head.index, stage: PopStage::Reload, ..op })
        },
        PopStage::WaitNext => if m.chunks[op.chunk->0 as int].next is Some {
            (
                m,
                PopOp {
                    next: m.chunks[op.chunk->0 as int].next,
                    stage: PopStage::PeekNext,
                    ..op
                },
            )
        } else {
            (m, PopOp { wait: op.wait.napped(), ..op })
        },
        PopStage::PeekNext => (
            m,
            PopOp {
                next_head: (2 * (op.at() + 2) + if m.chunks[op.next->0 as int].next is Some {
                    1int
                } else {
                    0int
                }) as usize,
                stage: PopStage::StoreHeadChunk,
                ..op
            },
        ),
        PopStage::StoreHeadChunk => (
            Mem { head: Segment { chunk: op.next, ..m.head }, ..m },
            PopOp { stage: PopStage::StoreHeadIndex, ..op },
        ),
        PopStage::StoreHeadIndex => (
            Mem { head: Segment { index: op.next_head, ..m.head }, ..m },
            PopOp { wait: Backoff { step: 0 }, stage: PopStage::WaitWrite, ..op },
        ),
        PopStage::WaitWrite => if m.slot(op.at()).written() {
            (m, PopOp { stage: PopStage::Read, ..op })
        } else {
            (m, PopOp { wait: op.wait.napped(), ..op })
        },
        PopStage::Read => {
            let taken = PopOp { item: m.slot(op.at()).value, ..op };
            (
                m.with_slot(op.at(), Slot { value: None, ..m.slot(op.at()) }),
                if off(op.at()) == 30 {
                    taken.destroy_from(0)
                } else {
                    PopOp { stage: PopStage::MarkRead, ..taken }
                },
            )
        },
        PopStage::MarkRead => (
            m.with_slot(
                op.at(),
                Slot { state: m.slot(op.at()).state | READ, ..m.slot(op.at()) },
            ),
            if m.slot(op.at()).destroying() {
                op.destroy_from(off(op.at()) + 1)
            } else {
                PopOp { stage: PopStage::Done, ..op }
            },
        ),
        PopStage::DestroyCheck => if op.scan >= 30 {
            let c = op.chunk->0 as int;
            (
                Mem { chunks: m.chunks.update(c, m.chunks[c].gone()), ..m },
                PopOp { ended: true, stage: PopStage::Done, ..op },
            )
        } else if m.chunks[op.chunk->0 as int].slots[op.scan as int].read() {
            (m, PopOp { scan: (op.scan + 1) as usize, ..op })
        } else {
            (m, PopOp { stage: PopStage::DestroyMark, ..op })
        },
        PopStage::DestroyMark => {
            let c = op.chunk->0 as int;
            let slot = m.chunks[c].slots[op.scan as int];
            (
                Mem {
                    chunks: m.chunks.update(
                        c,
                        m.chunks[c].with_slot(
                            op.scan as int,
                            Slot { state: slot.state | DESTROY, ..slot },
                        ),
                    ),
                    ..m
                },
                if slot.read() {
                    PopOp { scan: (op.scan + 1) as usize, stage: PopStage::DestroyCheck, ..op }
                } else {
                    PopOp { stage: PopStage::Done, ..op }
                },
            )
        },
        PopStage::Done => (m, op),
    }
}

/// Whether the pop's next access ends in a nap for which the processor is to be
/// yielded.
pub open spec fn pop_yields<T>(m: Mem<T>, op: PopOp<T>) -> bool {
    match op.stage {
        PopStage::LoadChunk => (off(op.at()) == 31 || (has_next(op.head) && m.head.chunk is None))
            && op.backoff.nap_yields(),
        PopStage::Reload => (off(op.at()) == 31 || (has_next(op.head) && m.head.chunk is None))
            && op.backoff.spun().nap_yields(),
        PopStage::LoadTail => op.at() != pos(m.tail.index) && op.chunk is None
            && op.backoff.nap_yields(),
        PopStage::WaitNext => m.chunks[op.chunk->0 as int].next is None && op.wait.nap_yields(),
        PopStage::WaitWrite => !m.slot(op.at()).written() && op.wait.nap_yields(),
        _ => false,
    }
}

/// What a count of the values does next.
#[derive(Clone, Copy, Debug, PartialEq, Eq, Structural)]
pub enum LenStage {
    /// Read the tail index.
    LoadTail,
    /// Read the head index.
    LoadHead,
    /// Read the tail index again, to see whether the two go together.
    CheckTail,
    /// Nothing: the count is over.
    Done,
}

/// A count of the values under way.
#[derive(Clone, Copy, Debug, PartialEq, Eq, Structural)]
pub struct LenOp {
    pub stage: LenStage,
    /// The tail index as last read.
    pub tail: usize,
    /// The head index as last read.
    pub head: usize,
    /// How many values there were.
    pub count: usize,
}

impl LenOp {
    /// A count that has not read anything yet.
    pub open spec fn start() -> LenOp {
        LenOp { stage: LenStage::LoadTail, tail: 0, head: 0, count: 0 }
    }

    /// The head has not gone back behind where it was read.
    pub open spec fn ok<T>(self, m: Mem<T>) -> bool {
        self.stage is CheckTail ==> pos(self.head) <= pos(m.head.index)
    }
}

/// The count after its next read.
pub open spec fn len_next<T>(m: Mem<T>, op: LenOp) -> LenOp {
    match op.stage {
        LenStage::LoadTail => LenOp { tail: m.tail.index, stage: LenStage::LoadHead, ..op },
        LenStage::LoadHead => LenOp { head: m.head.index, stage: LenStage::CheckTail, ..op },
        LenStage::CheckTail => if m.tail.index == op.tail {
            LenOp {
                count: (num(pos(op.tail)) - num(pos(op.head))) as usize,
                stage: LenStage::Done,
                ..op
            }
        } else {
            LenOp { stage: LenStage::LoadTail, ..op }
        },
        LenStage::Done => op,
    }
}

} // verus!
