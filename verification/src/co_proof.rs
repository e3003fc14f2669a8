//! What holds of a chunked queue while any number of pushes and pops are under way.

use vstd::prelude::*;

use crate::chunk::{has_next, lap, lemma_num_order, lemma_state_bits, num, off, pos, ChunkModel, Slot};
use crate::co_model::{pop_next, push_next, Mem, PopOp, PopStage, PushOp, PushStage};

verus! {

/// The shared words fit together.
pub open spec fn mem_ok<T>(m: Mem<T>) -> bool {
    let n = m.chunks.len();
    &&& pos(m.head.index) <= pos(m.tail.index)
    &&& !has_next(m.tail.index)
    &&& (forall|k: int|
        0 <= k < n && !(#[trigger] m.chunks[k]).ended ==> m.chunks[k].slots.len() == 31)
    &&& (forall|k: int|
        0 <= k < n && (#[trigger] m.chunks[k]).ended ==> 32 * (k + 1) <= pos(m.head.index))
    &&& (forall|k: int, i: int| 0 <= k < n && 0 <= i < 31 ==> #[trigger] slot_ok(m, k, i))
    &&& n == 0 ==> m.tail.chunk is None && m.head.chunk is None && m.tail.index == 0
        && m.head.index == 0
    &&& n > 0 ==> {
        &&& m.tail.chunk == Some((n - 1) as usize)
        &&& n <= usize::MAX
        &&& lap(pos(m.tail.index)) == n - 1 || (off(pos(m.tail.index)) == 31 && lap(
            pos(m.tail.index),
        ) == n - 2)
    }
    &&& m.head.chunk is None ==> m.head.index == 0
    &&& m.head.chunk matches Some(h) ==> {
        &&& h < n
        &&& h == lap(pos(m.head.index)) || (off(pos(m.head.index)) == 31 && h == lap(
            pos(m.head.index),
        ) + 1 && h <= lap(pos(m.tail.index)))
    }
    &&& has_next(m.head.index) ==> lap(pos(m.head.index)) < lap(pos(m.tail.index))
    &&& (forall|k: int|
        0 <= k < n && (#[trigger] m.chunks[k]).next is Some ==> m.chunks[k].next == Some(
            (k + 1) as usize,
        ) && k + 1 < n && k + 1 <= lap(pos(m.tail.index)))
    &&& m.pushed.len() == num(pos(m.tail.index))
    &&& (forall|p: int|
        pos(m.tail.index) <= p < 32 * n && off(p) != 31 ==> !(#[trigger] m.slot(p)).written())
    &&& (forall|p: int|
        pos(m.head.index) <= p < pos(m.tail.index) && off(p) != 31 && (#[trigger] m.slot(
            p,
        )).written() ==> m.slot(p).value == Some(m.pushed[num(p)]))
}

/// The first slots of a chunk have been read.
pub open spec fn all_read<T>(c: ChunkModel<T>, n: int) -> bool {
    forall|j: int| 0 <= j < n ==> (#[trigger] c.slots[j]).read()
}

/// No slot says that its reader is to end the chunk.
pub open spec fn no_mark<T>(c: ChunkModel<T>) -> bool {
    forall|j: int| 0 <= j < 31 ==> !(#[trigger] c.slots[j]).destroying()
}

/// No reader that is still to come is to end the chunk.
pub open spec fn no_heir<T>(c: ChunkModel<T>) -> bool {
    forall|j: int| 0 <= j < 31 && (#[trigger] c.slots[j]).destroying() ==> c.slots[j].read()
}

/// What the marks of a slot say is true, as long as its chunk is there.
pub open spec fn slot_ok<T>(m: Mem<T>, k: int, i: int) -> bool {
    let c = m.chunks[k];
    !c.ended ==> {
        &&& c.slots[i].read() ==> c.slots[i].written() && i < 30 && 32 * k + i < pos(m.head.index)
        &&& c.slots[i].destroying() ==> {
            &&& i < 30
            &&& 32 * (k + 1) <= pos(m.head.index)
            &&& c.slots[30].written()
            &&& all_read(c, i)
        }
    }
}

/// A push that has claimed its position and not yet marked the slot as written.
pub open spec fn push_claims<T>(op: PushOp<T>) -> bool {
    match op.stage {
        PushStage::StoreTailChunk => true,
        PushStage::StoreTailIndex => true,
        PushStage::LinkNext => true,
        PushStage::Write => true,
        PushStage::Mark => true,
        _ => false,
    }
}

/// A push that a position belongs to.
pub open spec fn push_owns<T>(op: PushOp<T>) -> bool {
    push_claims(op) || op.stage is Done
}

/// A push that has claimed the last slot of the tail chunk and not yet moved the
/// tail index into a new chunk.
pub open spec fn push_closes<T>(op: PushOp<T>) -> bool {
    op.stage is StoreTailChunk || op.stage is StoreTailIndex
}

/// What a push under way knows of the memory.
pub open spec fn push_ok<T>(m: Mem<T>, op: PushOp<T>) -> bool {
    let p = op.at();
    let n = m.chunks.len();
    let ready = {
        &&& off(p) != 31
        &&& off(p) == 30 ==> op.spare
    };
    let behind = {
        &&& op.item is Some
        &&& p <= pos(m.tail.index)
        &&& !has_next(op.tail)
    };
    let claims = {
        &&& !has_next(op.tail)
        &&& off(p) != 31
        &&& p < pos(m.tail.index)
        &&& op.chunk == Some(lap(p) as usize)
        &&& lap(p) < n
        &&& !m.chunks[lap(p)].ended
        &&& !m.slot(p).written()
    };
    let carries = op.item == Some(m.pushed[num(p)]);
    match op.stage {
        PushStage::LoadIndex => op.item is Some,
        PushStage::LoadChunk => behind,
        PushStage::Reload => behind,
        PushStage::Install => behind && ready,
        PushStage::PublishHead => behind && op.tail == 0 && op.chunk == Some(0usize) && n >= 1
            && m.head.chunk is None,
        PushStage::Advance => behind && ready && (op.chunk matches Some(c) && c < n && (op.tail
            == m.tail.index ==> c == lap(p))),
        PushStage::StoreTailChunk => claims && carries && off(p) == 30 && op.spare
            && m.tail.index == op.tail + 2 && n == lap(p) + 1,
        PushStage::StoreTailIndex => claims && carries && off(p) == 30 && m.tail.index == op.tail
            + 2 && n == lap(p) + 2 && op.next == Some((lap(p) + 1) as usize),
        PushStage::LinkNext => claims && carries && off(p) == 30 && lap(p) + 1 < n && op.next
            == Some((lap(p) + 1) as usize) && lap(p) + 1 <= lap(pos(m.tail.index)),
        PushStage::Write => claims && carries,
        PushStage::Mark => claims && m.slot(p).value == Some(m.pushed[num(p)]),
        PushStage::Done => !has_next(op.tail) && off(p) != 31 && p < pos(m.tail.index),
    }
}

/// A pop that has claimed its position and not yet taken the value.
pub open spec fn pop_claims<T>(op: PopOp<T>) -> bool {
    match op.stage {
        PopStage::WaitNext => true,
        PopStage::PeekNext => true,
        PopStage::StoreHeadChunk => true,
        PopStage::StoreHeadIndex => true,
        PopStage::WaitWrite => true,
        PopStage::Read => true,
        _ => false,
    }
}

/// A pop that has taken a value, whether or not it is over.
pub open spec fn pop_took<T>(op: PopOp<T>) -> bool {
    op.item is Some
}

/// A pop that a position belongs to.
pub open spec fn pop_owns<T>(op: PopOp<T>) -> bool {
    pop_claims(op) || pop_took(op)
}

/// A pop that has claimed the last slot of the head chunk and not yet moved the
/// head index into the next.
pub open spec fn pop_closes<T>(op: PopOp<T>) -> bool {
    match op.stage {
        PopStage::WaitNext => true,
        PopStage::PeekNext => true,
        PopStage::StoreHeadChunk => true,
        PopStage::StoreHeadIndex => true,
        _ => false,
    }
}

/// What a pop under way knows of the memory.
pub open spec fn pop_ok<T>(m: Mem<T>, op: PopOp<T>) -> bool {
    let p = op.at();
    let n = m.chunks.len();
    let behind = {
        &&& op.item is None
        &&& !op.ended
        &&& p <= pos(m.head.index)
        &&& has_next(op.head) ==> lap(p) < lap(pos(m.tail.index))
    };
    let chunk_known = op.chunk matches Some(c) ==> c < n && m.head.chunk is Some && (op.head
        == m.head.index ==> c == lap(p));
    let claims = {
        &&& op.item is None
        &&& off(p) != 31
        &&& p < pos(m.head.index)
        &&& op.chunk == Some(lap(p) as usize)
        &&& lap(p) < n
        &&& m.slot(p).written() ==> m.slot(p).value == Some(m.pushed[num(p)])
        &&& !m.chunks[lap(p)].ended
        &&& !m.slot(p).read()
        &&& off(p) == 30 ==> no_mark(m.chunks[lap(p)])
        &&& !op.ended
    };
    let closes = off(p) == 30 && pos(m.head.index) == p + 1 && pos(op.new_head) == p + 1;
    let next_known = op.next == Some((lap(p) + 1) as usize) && lap(p) + 1 < n && lap(p) + 1 <= lap(
        pos(m.tail.index),
    );
    let next_head_known = pos(op.next_head) == p + 2 && (has_next(op.next_head) ==> lap(p) + 1
        < lap(pos(m.tail.index)));
    let took = {
        &&& off(p) != 31
        &&& p < pos(m.head.index)
        &&& lap(p) < n
        &&& op.chunk == Some(lap(p) as usize)
        &&& op.item == Some(m.pushed[num(p)])
    };
    let ends = {
        let c = m.chunks[lap(p)];
        &&& took
        &&& !op.ended
        &&& !c.ended
        &&& 32 * (lap(p) + 1) <= pos(m.head.index)
        &&& op.scan <= 30
        &&& c.slots[30].written()
        &&& all_read(c, op.scan as int)
        &&& no_heir(c)
    };
    match op.stage {
        PopStage::LoadIndex => op.item is None && !op.ended,
        PopStage::LoadChunk => behind,
        PopStage::Reload => behind,
        PopStage::LoadTail => behind && off(p) != 31 && chunk_known && !has_next(op.head)
            && op.new_head == op.head + 2,
        PopStage::Advance => {
            &&& behind
            &&& off(p) != 31
            &&& chunk_known
            &&& op.chunk is Some
            &&& pos(op.new_head) == p + 1
            &&& p < pos(m.tail.index)
            &&& has_next(op.new_head) ==> lap(p) < lap(pos(m.tail.index))
        },
        PopStage::WaitNext => claims && closes && m.head.chunk == op.chunk,
        PopStage::PeekNext => claims && closes && m.head.chunk == op.chunk && next_known,
        PopStage::StoreHeadChunk => claims && closes && m.head.chunk == op.chunk && next_known
            && next_head_known,
        PopStage::StoreHeadIndex => claims && closes && m.head.chunk == op.next && next_known
            && next_head_known,
        PopStage::WaitWrite => claims && (off(p) == 30 ==> p + 2 <= pos(m.head.index)),
        PopStage::Read => claims && (off(p) == 30 ==> p + 2 <= pos(m.head.index)) && m.slot(
            p,
        ).written(),
        PopStage::MarkRead => took && off(p) < 30 && !op.ended && !m.chunks[lap(p)].ended
            && !m.slot(p).read() && m.slot(p).written(),
        PopStage::DestroyCheck => ends,
        PopStage::DestroyMark => ends && op.scan < 30,
        PopStage::Done => {
            &&& op.item is Some ==> took
            &&& op.ended ==> took && m.chunks[lap(p)].ended
        },
    }
}

/// Two pushes do not claim one position, nor do both put in the first chunk.
pub open spec fn pushes_apart<T>(a: PushOp<T>, b: PushOp<T>) -> bool {
    &&& !(push_owns(a) && push_owns(b) && a.at() == b.at())
    &&& !(a.stage is PublishHead && b.stage is PublishHead)
}

/// A pop that has claimed its position and not yet marked it as read.
pub open spec fn pop_reads<T>(op: PopOp<T>) -> bool {
    pop_claims(op) || op.stage is MarkRead
}

/// A pop that is about to end its chunk.
pub open spec fn pop_ends<T>(op: PopOp<T>) -> bool {
    op.stage is DestroyCheck || op.stage is DestroyMark
}

/// A pop that has the last slot of its chunk and has yet to begin the chunk's end.
pub open spec fn pop_will_end<T>(op: PopOp<T>) -> bool {
    pop_claims(op) && off(op.at()) == 30
}

/// Two pops do not claim one position, nor end one chunk.
pub open spec fn pops_apart<T>(a: PopOp<T>, b: PopOp<T>) -> bool {
    &&& !(pop_owns(a) && pop_owns(b) && a.at() == b.at())
    &&& !(pop_ends(a) && pop_ends(b) && lap(a.at()) == lap(b.at()))
    &&& !(pop_ends(a) && pop_will_end(b) && lap(a.at()) == lap(b.at()))
    &&& !(pop_will_end(a) && pop_ends(b) && lap(a.at()) == lap(b.at()))
    &&& !(a.ended && b.ended && lap(a.at()) == lap(b.at()))
}

/// A queue with the pushes and pops that are, or were, under way on it.
#[verifier::ext_equal]
pub struct Sys<T> {
    pub mem: Mem<T>,
    pub pushes: Seq<PushOp<T>>,
    pub pops: Seq<PopOp<T>>,
}

impl<T> Sys<T> {
    /// Nothing has gone wrong.
    pub open spec fn safe(self) -> bool {
        &&& mem_ok(self.mem)
        &&& (forall|i: int| 0 <= i < self.pushes.len() ==> push_ok(self.mem, #[trigger] self.pushes[i]))
        &&& (forall|i: int| 0 <= i < self.pops.len() ==> pop_ok(self.mem, #[trigger] self.pops[i]))
        &&& (forall|i: int, j: int|
            0 <= i < j < self.pushes.len() ==> pushes_apart(
                #[trigger] self.pushes[i],
                #[trigger] self.pushes[j],
            ))
        &&& (forall|i: int, j: int|
            0 <= i < j < self.pops.len() ==> pops_apart(
                #[trigger] self.pops[i],
                #[trigger] self.pops[j],
            ))
    }

    /// The next access of push `i`.
    pub open spec fn step_push(self, i: int, spurious: bool) -> Sys<T> {
        let (mem, op) = push_next(self.mem, self.pushes[i], spurious);
        Sys { mem, pushes: self.pushes.update(i, op), ..self }
    }

    /// The next access of pop `i`.
    pub open spec fn step_pop(self, i: int, spurious: bool) -> Sys<T> {
        let (mem, op) = pop_next(self.mem, self.pops[i], spurious);
        Sys { mem, pops: self.pops.update(i, op), ..self }
    }
}

/// Replacing one slot leaves the others.
proof fn lemma_with_slot<T>(m: Mem<T>, p: int, slot: Slot<T>)
    requires
        0 <= p,
        lap(p) < m.chunks.len(),
        off(p) != 31,
        !m.chunks[lap(p)].ended,
        m.chunks[lap(p)].slots.len() == 31,
    ensures
        m.with_slot(p, slot).chunks.len() == m.chunks.len(),
        forall|k: int|
            0 <= k < m.chunks.len() ==> (#[trigger] m.with_slot(p, slot).chunks[k]).slots.len()
                == m.chunks[k].slots.len() && m.with_slot(p, slot).chunks[k].next
                == m.chunks[k].next && m.with_slot(p, slot).chunks[k].ended == m.chunks[k].ended,
        forall|k: int, i: int|
            0 <= k < m.chunks.len() && 0 <= i < 31 ==> #[trigger] m.with_slot(
                p,
                slot,
            ).chunks[k].slots[i] == (if k == lap(p) && i == off(p) {
                slot
            } else {
                m.chunks[k].slots[i]
            }),
        forall|q: int|
            0 <= q && lap(q) < m.chunks.len() && off(q) != 31 ==> #[trigger] m.with_slot(
                p,
                slot,
            ).slot(q) == (if q == p {
                slot
            } else {
                m.slot(q)
            }),
{
    let m2 = m.with_slot(p, slot);
    assert forall|q: int| 0 <= q && lap(q) < m.chunks.len() && off(q) != 31 implies #[trigger] m2.slot(
        q,
    ) == (if q == p {
        slot
    } else {
        m.slot(q)
    }) by {
        if lap(q) == lap(p) {
            if off(q) == off(p) {
                assert(q == p);
            }
        }
    }
}

/// A fresh chunk at the end holds nothing and leaves the others.
proof fn lemma_fresh_chunk<T>(m: Mem<T>, m2: Mem<T>)
    requires
        m2.chunks == m.chunks.push(ChunkModel::fresh()),
    ensures
        forall|q: int| 0 <= q && lap(q) < m.chunks.len() ==> #[trigger] m2.slot(q) == m.slot(q),
        forall|q: int|
            0 <= q && lap(q) == m.chunks.len() && off(q) != 31 ==> !(#[trigger] m2.slot(q)).written(),
        forall|i: int| 0 <= i < 31 ==> #[trigger] m2.chunks[m.chunks.len() as int].slots[i]
            == Slot::<T>::unused(),
        !Slot::<T>::unused().read(),
        !Slot::<T>::unused().destroying(),
{
    lemma_state_bits(0);
    assert forall|q: int| 0 <= q && lap(q) == m.chunks.len() && off(q) != 31 implies !(
    #[trigger] m2.slot(q)).written() by {
        assert(m2.chunks[lap(q)] == ChunkModel::<T>::fresh());
        assert(m2.slot(q) == Slot::<T>::unused());
    }
}

/// Where the slots are as they were and the head has not gone back, the marks stay true.
proof fn lemma_marks_stay<T>(m: Mem<T>, m2: Mem<T>)
    requires
        forall|k: int, i: int|
            0 <= k < m.chunks.len() && 0 <= i < 31 ==> #[trigger] slot_ok(m, k, i),
        m2.chunks.len() == m.chunks.len(),
        forall|k: int|
            0 <= k < m.chunks.len() ==> (#[trigger] m2.chunks[k]).ended == m.chunks[k].ended
                && m2.chunks[k].slots == m.chunks[k].slots,
        pos(m2.head.index) >= pos(m.head.index),
    ensures
        forall|k: int, i: int|
            0 <= k < m2.chunks.len() && 0 <= i < 31 ==> #[trigger] slot_ok(m2, k, i),
{
    assert forall|k: int, i: int|
        0 <= k < m2.chunks.len() && 0 <= i < 31 implies #[trigger] slot_ok(m2, k, i) by {
        assert(slot_ok(m, k, i));
        let (c, c2) = (m.chunks[k], m2.chunks[k]);
        assert(c2.slots == c.slots);
        if !c.ended && c.slots[i].destroying() {
            assert forall|j: int| 0 <= j < i implies (#[trigger] c2.slots[j]).read() by {
                assert(c.slots[j].read());
            }
        }
    }
}

/// Where one slot is replaced by one with true marks that are no fewer, the marks stay true.
proof fn lemma_marks_grow<T>(m: Mem<T>, p: int, slot: Slot<T>)
    requires
        forall|k: int, i: int|
            0 <= k < m.chunks.len() && 0 <= i < 31 ==> #[trigger] slot_ok(m, k, i),
        0 <= p,
        lap(p) < m.chunks.len(),
        off(p) != 31,
        !m.chunks[lap(p)].ended,
        m.chunks[lap(p)].slots.len() == 31,
        m.slot(p).read() ==> slot.read(),
        m.slot(p).written() ==> slot.written(),
        slot.read() ==> slot.written() && off(p) < 30 && p < pos(m.head.index),
        slot.destroying() ==> m.slot(p).destroying() || (off(p) < 30 && 32 * (lap(p) + 1) <= pos(
            m.head.index,
        ) && m.chunks[lap(p)].slots[30].written() && all_read(m.chunks[lap(p)], off(p))),
    ensures
        forall|k: int, i: int|
            0 <= k < m.chunks.len() && 0 <= i < 31 ==> #[trigger] slot_ok(
                m.with_slot(p, slot),
                k,
                i,
            ),
{
    let m2 = m.with_slot(p, slot);
    lemma_with_slot(m, p, slot);
    assert forall|k: int, i: int|
        0 <= k < m2.chunks.len() && 0 <= i < 31 implies #[trigger] slot_ok(m2, k, i) by {
        assert(slot_ok(m, k, i));
        let (c, c2) = (m.chunks[k], m2.chunks[k]);
        assert(c2.slots[i] == (if k == lap(p) && i == off(p) {
            slot
        } else {
            c.slots[i]
        }));
        assert(c2.slots[30] == (if k == lap(p) && 30 == off(p) {
            slot
        } else {
            c.slots[30]
        }));
        if !c.ended && c2.slots[i].destroying() {
            assert forall|j: int| 0 <= j < i implies (#[trigger] c2.slots[j]).read() by {
                assert(c.slots[j].read());
                assert(c2.slots[j] == (if k == lap(p) && j == off(p) {
                    slot
                } else {
                    c.slots[j]
                }));
            }
        }
    }
}

/// A fresh chunk has true marks.
proof fn lemma_marks_fresh<T>(m: Mem<T>, m2: Mem<T>)
    requires
        forall|k: int, i: int|
            0 <= k < m.chunks.len() && 0 <= i < 31 ==> #[trigger] slot_ok(m, k, i),
        m2.chunks == m.chunks.push(ChunkModel::fresh()),
        m2.head == m.head,
    ensures
        forall|k: int, i: int|
            0 <= k < m2.chunks.len() && 0 <= i < 31 ==> #[trigger] slot_ok(m2, k, i),
{
    lemma_fresh_chunk(m, m2);
    assert forall|k: int, i: int|
        0 <= k < m2.chunks.len() && 0 <= i < 31 implies #[trigger] slot_ok(m2, k, i) by {
        if k < m.chunks.len() {
            assert(slot_ok(m, k, i));
            assert(m2.chunks[k] == m.chunks[k]);
        } else {
            assert(m2.chunks[k].slots[i] == Slot::<T>::unused());
        }
    }
}

proof fn lemma_push_self<T>(m: Mem<T>, op: PushOp<T>, spurious: bool)
    requires
        mem_ok(m),
        push_ok(m, op),
        m.has_room(),
    ensures
        mem_ok(push_next(m, op, spurious).0),
        push_ok(push_next(m, op, spurious).0, push_next(m, op, spurious).1),
{
    let (m2, op2) = push_next(m, op, spurious);
    let p = op.at();
    match op.stage {
        PushStage::Install => {
            if m.tail.chunk is None {
                lemma_fresh_chunk(m, m2);
                lemma_marks_fresh(m, m2);
                assert(mem_ok(m2));
            }
        },
        PushStage::PublishHead => {
            assert forall|q: int| m2.slot(q) == m.slot(q) by {}
            lemma_marks_stay(m, m2);
            assert(mem_ok(m2));
        },
        PushStage::Advance => {
            if !spurious && m.tail.index == op.tail {
                lemma_marks_stay(m, m2);
                assert(m2.pushed[num(p)] == op.item->0);
                assert forall|q: int| m2.slot(q) == m.slot(q) by {}
                assert forall|q: int|
                    pos(m2.head.index) <= q < pos(m2.tail.index) && off(q) != 31
                        && #[trigger] m2.slot(q).written() implies m2.slot(q).value == Some(
                    m2.pushed[num(q)],
                ) by {
                    assert(m2.slot(q) == m.slot(q));
                    if q == p {
                        assert(!m.slot(p).written());
                    } else {
                        lemma_num_order(q, p);
                    }
                }
                assert(mem_ok(m2));
            }
        },
        PushStage::StoreTailChunk => {
            lemma_fresh_chunk(m, m2);
            lemma_marks_fresh(m, m2);
            assert(mem_ok(m2));
        },
        PushStage::StoreTailIndex => {
            assert forall|q: int| m2.slot(q) == m.slot(q) by {}
            lemma_marks_stay(m, m2);
            assert(pos(m2.tail.index) == pos(m.tail.index) + 1);
            assert(mem_ok(m2));
        },
        PushStage::LinkNext => {
            assert forall|q: int| 0 <= q && lap(q) < m.chunks.len() implies m2.slot(q) == m.slot(q) by {}
            lemma_marks_stay(m, m2);
            assert(mem_ok(m2));
        },
        PushStage::Write => {
            lemma_with_slot(m, p, Slot { value: op.item, ..m.slot(p) });
            assert(slot_ok(m, lap(p), off(p)));
            lemma_marks_grow(m, p, Slot { value: op.item, ..m.slot(p) });
            assert(mem_ok(m2));
        },
        PushStage::Mark => {
            lemma_state_bits(m.slot(p).state);
            lemma_with_slot(m, p, Slot { state: m.slot(p).state | 1, ..m.slot(p) });
            assert(slot_ok(m, lap(p), off(p)));
            lemma_marks_grow(m, p, Slot { state: m.slot(p).state | 1, ..m.slot(p) });
            assert(mem_ok(m2));
        },
        _ => {},
    }
}

proof fn lemma_push_beside_push<T>(m: Mem<T>, op: PushOp<T>, spurious: bool, other: PushOp<T>)
    requires
        mem_ok(m),
        push_ok(m, op),
        push_ok(m, other),
        pushes_apart(op, other) || pushes_apart(other, op),
        m.has_room(),
    ensures
        push_ok(push_next(m, op, spurious).0, other),
        pushes_apart(push_next(m, op, spurious).1, other),
        pushes_apart(other, push_next(m, op, spurious).1),
{
    let (m2, op2) = push_next(m, op, spurious);
    let p = op.at();
    let q = other.at();
    match op.stage {
        PushStage::Install => {
            if m.tail.chunk is None {
                lemma_fresh_chunk(m, m2);
            }
        },
        PushStage::Advance => {
            if !spurious && m.tail.index == op.tail {
                assert(m2.slot(q) == m.slot(q));
                if push_claims(other) {
                    lemma_num_order(q, p);
                }
            }
        },
        PushStage::StoreTailChunk => {
            lemma_fresh_chunk(m, m2);
        },
        PushStage::LinkNext => {
            assert(lap(q) < m.chunks.len() ==> m2.slot(q) == m.slot(q));
        },
        PushStage::Write => {
            lemma_with_slot(m, p, Slot { value: op.item, ..m.slot(p) });
        },
        PushStage::Mark => {
            lemma_state_bits(m.slot(p).state);
            lemma_with_slot(m, p, Slot { state: m.slot(p).state | 1, ..m.slot(p) });
        },
        _ => {
            assert(m2.slot(q) == m.slot(q));
        },
    }
}

proof fn lemma_push_beside_pop<T>(m: Mem<T>, op: PushOp<T>, spurious: bool, other: PopOp<T>)
    requires
        mem_ok(m),
        push_ok(m, op),
        pop_ok(m, other),
        m.has_room(),
    ensures
        pop_ok(push_next(m, op, spurious).0, other),
{
    let (m2, op2) = push_next(m, op, spurious);
    let p = op.at();
    let q = other.at();
    match op.stage {
        PushStage::Install => {
            if m.tail.chunk is None {
                lemma_fresh_chunk(m, m2);
            }
        },
        PushStage::Advance => {
            if !spurious && m.tail.index == op.tail {
                assert(m2.slot(q) == m.slot(q));
                if pop_owns(other) {
                    lemma_num_order(q, p);
                }
            }
        },
        PushStage::StoreTailChunk => {
            lemma_fresh_chunk(m, m2);
        },
        PushStage::LinkNext => {
            assert(lap(q) < m.chunks.len() ==> m2.slot(q) == m.slot(q));
        },
        PushStage::Write => {
            lemma_with_slot(m, p, Slot { value: op.item, ..m.slot(p) });
        },
        PushStage::Mark => {
            lemma_state_bits(m.slot(p).state);
            lemma_with_slot(m, p, Slot { state: m.slot(p).state | 1, ..m.slot(p) });
        },
        _ => {
            assert(m2.slot(q) == m.slot(q));
        },
    }
}

/// Every step of a push keeps the queue safe.
pub proof fn lemma_push_keeps_safe<T>(s: Sys<T>, i: int, spurious: bool)
    requires
        s.safe(),
        s.mem.has_room(),
        0 <= i < s.pushes.len(),
    ensures
        s.step_push(i, spurious).safe(),
{
    let s2 = s.step_push(i, spurious);
    lemma_push_self(s.mem, s.pushes[i], spurious);
    assert forall|j: int| 0 <= j < s2.pushes.len() implies push_ok(s2.mem, #[trigger] s2.pushes[j]) by {
        if j != i {
            lemma_push_beside_push(s.mem, s.pushes[i], spurious, s.pushes[j]);
        }
    }
    assert forall|j: int| 0 <= j < s2.pops.len() implies pop_ok(s2.mem, #[trigger] s2.pops[j]) by {
        lemma_push_beside_pop(s.mem, s.pushes[i], spurious, s.pops[j]);
    }
    assert forall|j: int, k: int| 0 <= j < k < s2.pushes.len() implies pushes_apart(
        #[trigger] s2.pushes[j],
        #[trigger] s2.pushes[k],
    ) by {
        if j == i {
            lemma_push_beside_push(s.mem, s.pushes[i], spurious, s.pushes[k]);
        } else if k == i {
            lemma_push_beside_push(s.mem, s.pushes[i], spurious, s.pushes[j]);
        }
    }
}

/// Marking a slot as read, or its chunk as to be destroyed, touches neither value
/// nor write mark.
proof fn lemma_flag_slot<T>(m: Mem<T>, c: int, i: int, state: usize)
    requires
        mem_ok(m),
        0 <= c < m.chunks.len(),
        0 <= i < 30,
        !m.chunks[c].ended,
        ({
            let slot = m.chunks[c].slots[i];
            let marked = Slot::<T> { state, ..slot };
            &&& marked.written() == slot.written()
            &&& slot.read() ==> marked.read()
            &&& marked.read() ==> slot.written() && 32 * c + i < pos(m.head.index)
            &&& marked.destroying() ==> slot.destroying() || (32 * (c + 1) <= pos(m.head.index)
                && m.chunks[c].slots[30].written() && all_read(m.chunks[c], i))
        }),
    ensures
        ({
            let m2 = Mem {
                chunks: m.chunks.update(
                    c,
                    m.chunks[c].with_slot(i, Slot { state, ..m.chunks[c].slots[i] }),
                ),
                ..m
            };
            &&& mem_ok(m2)
            &&& (forall|q: int|
                0 <= q && lap(q) < m.chunks.len() && off(q) != 31 ==> (#[trigger] m2.slot(q)).value
                    == m.slot(q).value && m2.slot(q).written() == m.slot(q).written() && (q != 32 * c
                    + i ==> m2.slot(q) == m.slot(q)))
            &&& (forall|k: int|
                0 <= k < m.chunks.len() ==> (#[trigger] m2.chunks[k]).ended == m.chunks[k].ended
                    && m2.chunks[k].next == m.chunks[k].next)
            &&& (forall|k: int, j: int|
                0 <= k < m.chunks.len() && 0 <= j < 31 ==> (#[trigger] m2.chunks[k].slots[j]) == (
                if k == c && j == i {
                    Slot { state, ..m.chunks[c].slots[i] }
                } else {
                    m.chunks[k].slots[j]
                }))
        }),
{
    let p = 32 * c + i;
    assert(lap(p) == c && off(p) == i);
    lemma_with_slot(m, p, Slot { state, ..m.chunks[c].slots[i] });
    lemma_marks_grow(m, p, Slot { state, ..m.chunks[c].slots[i] });
    let m2 = m.with_slot(p, Slot { state, ..m.chunks[c].slots[i] });
    assert(mem_ok(m2));
}

/// Ending a chunk leaves the others.
proof fn lemma_ended<T>(m: Mem<T>, c: int)
    requires
        mem_ok(m),
        0 <= c < m.chunks.len(),
        32 * (c + 1) <= pos(m.head.index),
    ensures
        ({
            let m2 = Mem { chunks: m.chunks.update(c, m.chunks[c].gone()), ..m };
            &&& mem_ok(m2)
            &&& (forall|q: int|
                0 <= q && lap(q) < m.chunks.len() && lap(q) != c ==> #[trigger] m2.slot(q) == m.slot(
                    q,
                ))
            &&& (forall|k: int|
                0 <= k < m.chunks.len() && k != c ==> #[trigger] m2.chunks[k] == m.chunks[k])
        }),
{
    let m2 = Mem { chunks: m.chunks.update(c, m.chunks[c].gone()), ..m };
    assert forall|k: int, i: int|
        0 <= k < m2.chunks.len() && 0 <= i < 31 implies #[trigger] slot_ok(m2, k, i) by {
        assert(slot_ok(m, k, i));
    }
    assert forall|q: int| 0 <= q && lap(q) < m.chunks.len() && lap(q) != c implies #[trigger] m2.slot(
        q,
    ) == m.slot(q) by {}
    assert forall|q: int| 0 <= q && pos(m.head.index) <= q implies lap(q) != c by {}
    assert(mem_ok(m2));
}

/// The reader of a slot that says that its reader is to end the chunk is the only one to do
/// so.
proof fn lemma_heir<T>(m: Mem<T>, m2: Mem<T>, p: int)
    requires
        mem_ok(m),
        0 <= p,
        lap(p) < m.chunks.len(),
        off(p) < 30,
        !m.chunks[lap(p)].ended,
        !m.slot(p).read(),
        m.slot(p).destroying(),
        m2.chunks.len() == m.chunks.len(),
        forall|j: int|
            0 <= j < 31 ==> #[trigger] m2.chunks[lap(p)].slots[j] == (if j == off(p) {
                Slot { state: m.slot(p).state | 2, ..m.slot(p) }
            } else {
                m.chunks[lap(p)].slots[j]
            }),
    ensures
        all_read(m2.chunks[lap(p)], off(p) + 1),
        no_heir(m2.chunks[lap(p)]),
        m2.chunks[lap(p)].slots[30].written(),
        32 * (lap(p) + 1) <= pos(m.head.index),
{
    let (c, c2) = (m.chunks[lap(p)], m2.chunks[lap(p)]);
    lemma_state_bits(m.slot(p).state);
    assert(slot_ok(m, lap(p), off(p)));
    assert forall|j: int| 0 <= j < off(p) + 1 implies (#[trigger] c2.slots[j]).read() by {
        if j < off(p) {
            assert(c.slots[j].read());
        }
    }
    assert forall|j: int| 0 <= j < 31 && (#[trigger] c2.slots[j]).destroying() implies c2.slots[j].read() by {
        if j < off(p) {
            assert(c.slots[j].read());
        } else if j > off(p) {
            assert(slot_ok(m, lap(p), j));
            assert(c.slots[off(p)].read());
        }
    }
    assert(c2.slots[30] == c.slots[30]);
}

proof fn lemma_pop_self<T>(m: Mem<T>, op: PopOp<T>, spurious: bool)
    requires
        mem_ok(m),
        pop_ok(m, op),
        m.has_room(),
    ensures
        mem_ok(pop_next(m, op, spurious).0),
        pop_ok(pop_next(m, op, spurious).0, pop_next(m, op, spurious).1),
{
    let (m2, op2) = pop_next(m, op, spurious);
    let p = op.at();
    match op.stage {
        PopStage::LoadTail => {},
        PopStage::Advance => {
            if !spurious && m.head.index == op.head {
                assert forall|q: int| m2.slot(q) == m.slot(q) by {}
                lemma_marks_stay(m, m2);
                assert(mem_ok(m2));
                assert(slot_ok(m, lap(p), off(p)));
                assert forall|j: int| 0 <= j < 31 implies !(
                #[trigger] m2.chunks[lap(p)].slots[j]).destroying() by {
                    assert(slot_ok(m, lap(p), j));
                }
            }
        },
        PopStage::StoreHeadChunk => {
            assert forall|q: int| m2.slot(q) == m.slot(q) by {}
            lemma_marks_stay(m, m2);
            assert(mem_ok(m2));
        },
        PopStage::StoreHeadIndex => {
            assert forall|q: int| m2.slot(q) == m.slot(q) by {}
            lemma_marks_stay(m, m2);
            assert(mem_ok(m2));
        },
        PopStage::Read => {
            lemma_with_slot(m, p, Slot { value: None, ..m.slot(p) });
            assert(slot_ok(m, lap(p), off(p)));
            lemma_marks_grow(m, p, Slot { value: None, ..m.slot(p) });
            assert(mem_ok(m2));
        },
        PopStage::MarkRead => {
            lemma_state_bits(m.slot(p).state);
            lemma_flag_slot(m, lap(p), off(p), m.slot(p).state | 2);
            assert(mem_ok(m2));
            if m.slot(p).destroying() {
                lemma_heir(m, m2, p);
            }
        },
        PopStage::DestroyMark => {
            let state = m.chunks[lap(p)].slots[op.scan as int].state;
            lemma_state_bits(state);
            assert(slot_ok(m, lap(p), op.scan as int));
            lemma_flag_slot(m, lap(p), op.scan as int, state | 4);
            assert(mem_ok(m2));
        },
        PopStage::DestroyCheck => {
            if op.scan >= 30 {
                lemma_ended(m, lap(p));
            }
        },
        _ => {},
    }
}

proof fn lemma_pop_beside_pop<T>(m: Mem<T>, op: PopOp<T>, spurious: bool, other: PopOp<T>)
    requires
        mem_ok(m),
        pop_ok(m, op),
        pop_ok(m, other),
        pops_apart(op, other) || pops_apart(other, op),
        m.has_room(),
    ensures
        pop_ok(pop_next(m, op, spurious).0, other),
        pops_apart(pop_next(m, op, spurious).1, other),
        pops_apart(other, pop_next(m, op, spurious).1),
{
    let (m2, op2) = pop_next(m, op, spurious);
    let p = op.at();
    let q = other.at();
    match op.stage {
        PopStage::Read => {
            lemma_with_slot(m, p, Slot { value: None, ..m.slot(p) });
        },
        PopStage::MarkRead => {
            lemma_state_bits(m.slot(p).state);
            lemma_flag_slot(m, lap(p), off(p), m.slot(p).state | 2);
        },
        PopStage::DestroyMark => {
            let state = m.chunks[lap(p)].slots[op.scan as int].state;
            lemma_state_bits(state);
            assert(slot_ok(m, lap(p), op.scan as int));
            lemma_flag_slot(m, lap(p), op.scan as int, state | 4);
        },
        PopStage::DestroyCheck => {
            if op.scan >= 30 {
                lemma_ended(m, lap(p));
                if lap(q) == lap(p) && off(q) < 30 {
                    assert(slot_ok(m, lap(q), off(q)));
                    assert(m.chunks[lap(p)].slots[off(q)].read());
                }
            }
        },
        _ => {
            assert(m2.slot(q) == m.slot(q));
        },
    }
}

proof fn lemma_pop_beside_push<T>(m: Mem<T>, op: PopOp<T>, spurious: bool, other: PushOp<T>)
    requires
        mem_ok(m),
        pop_ok(m, op),
        push_ok(m, other),
        m.has_room(),
    ensures
        push_ok(pop_next(m, op, spurious).0, other),
{
    let (m2, op2) = pop_next(m, op, spurious);
    let p = op.at();
    let q = other.at();
    match op.stage {
        PopStage::Read => {
            lemma_with_slot(m, p, Slot { value: None, ..m.slot(p) });
        },
        PopStage::MarkRead => {
            lemma_state_bits(m.slot(p).state);
            lemma_flag_slot(m, lap(p), off(p), m.slot(p).state | 2);
        },
        PopStage::DestroyMark => {
            let state = m.chunks[lap(p)].slots[op.scan as int].state;
            lemma_state_bits(state);
            assert(slot_ok(m, lap(p), op.scan as int));
            lemma_flag_slot(m, lap(p), op.scan as int, state | 4);
        },
        PopStage::DestroyCheck => {
            if op.scan >= 30 {
                lemma_ended(m, lap(p));
                if lap(q) == lap(p) && off(q) < 30 {
                    assert(slot_ok(m, lap(q), off(q)));
                    assert(m.chunks[lap(p)].slots[off(q)].read());
                }
            }
        },
        _ => {
            assert(m2.slot(q) == m.slot(q));
        },
    }
}

/// Every step of a pop keeps the queue safe.
pub proof fn lemma_pop_keeps_safe<T>(s: Sys<T>, i: int, spurious: bool)
    requires
        s.safe(),
        s.mem.has_room(),
        0 <= i < s.pops.len(),
    ensures
        s.step_pop(i, spurious).safe(),
{
    let s2 = s.step_pop(i, spurious);
    lemma_pop_self(s.mem, s.pops[i], spurious);
    assert forall|j: int| 0 <= j < s2.pushes.len() implies push_ok(s2.mem, #[trigger] s2.pushes[j]) by {
        lemma_pop_beside_push(s.mem, s.pops[i], spurious, s.pushes[j]);
    }
    assert forall|j: int| 0 <= j < s2.pops.len() implies pop_ok(s2.mem, #[trigger] s2.pops[j]) by {
        if j != i {
            lemma_pop_beside_pop(s.mem, s.pops[i], spurious, s.pops[j]);
        }
    }
    assert forall|j: int, k: int| 0 <= j < k < s2.pops.len() implies pops_apart(
        #[trigger] s2.pops[j],
        #[trigger] s2.pops[k],
    ) by {
        if j == i {
            lemma_pop_beside_pop(s.mem, s.pops[i], spurious, s.pops[k]);
        } else if k == i {
            lemma_pop_beside_pop(s.mem, s.pops[i], spurious, s.pops[j]);
        }
    }
}

impl<T> Sys<T> {
    /// Some push is between filling the tail chunk and moving on to a new one.
    pub open spec fn some_push_closes(self) -> bool {
        exists|i: int| 0 <= i < self.pushes.len() && push_closes(#[trigger] self.pushes[i])
    }

    /// Some push has claimed position `p` and not yet marked it as written.
    pub open spec fn some_push_claims(self, p: int) -> bool {
        exists|i: int|
            0 <= i < self.pushes.len() && push_claims(#[trigger] self.pushes[i])
                && self.pushes[i].at() == p
    }

    /// Some push is about to link the chunk behind chunk `k`.
    pub open spec fn some_push_links(self, k: int) -> bool {
        exists|i: int|
            0 <= i < self.pushes.len() && ((#[trigger] self.pushes[i]).stage is StoreTailIndex
                || self.pushes[i].stage is LinkNext) && lap(self.pushes[i].at()) == k
    }

    /// Some push is about to let the head know of the first chunk.
    pub open spec fn some_push_publishes(self) -> bool {
        exists|i: int| 0 <= i < self.pushes.len() && (#[trigger] self.pushes[i]).stage is PublishHead
    }

    /// Some pop is between emptying the head chunk and moving on to the next.
    pub open spec fn some_pop_closes(self) -> bool {
        exists|i: int| 0 <= i < self.pops.len() && pop_closes(#[trigger] self.pops[i])
    }

    /// Some pop has claimed position `p` and not yet marked it as read.
    pub open spec fn some_pop_reads(self, p: int) -> bool {
        exists|i: int|
            0 <= i < self.pops.len() && pop_reads(#[trigger] self.pops[i]) && self.pops[i].at()
                == p
    }

    /// Some pop is at the end of chunk `k`, or will be.
    pub open spec fn some_pop_ends(self, k: int) -> bool {
        exists|i: int|
            0 <= i < self.pops.len() && (pop_ends(#[trigger] self.pops[i]) || pop_will_end(
                self.pops[i],
            )) && lap(self.pops[i].at()) == k
    }

    /// Whatever is unfinished in the memory, an operation under way will finish.
    pub open spec fn complete(self) -> bool {
        let m = self.mem;
        &&& off(pos(m.tail.index)) == 31 ==> self.some_push_closes()
        &&& (forall|p: int|
            0 <= p < pos(m.tail.index) && off(p) != 31 && !m.chunks[lap(p)].ended && !(
            #[trigger] m.slot(p)).written() ==> self.some_push_claims(p))
        &&& (forall|p: int|
            0 <= p < pos(m.head.index) && off(p) < 30 && !m.chunks[lap(p)].ended && !(
            #[trigger] m.slot(p)).read() ==> self.some_pop_reads(p))
        &&& (forall|k: int|
            0 <= k && 32 * (k + 1) <= pos(m.head.index) && !(#[trigger] m.chunks[k]).ended
                ==> self.some_pop_ends(k) || !no_heir(m.chunks[k]))
        &&& (forall|k: int|
            0 <= k < m.chunks.len() - 1 && (#[trigger] m.chunks[k]).next is None
                ==> self.some_push_links(k))
        &&& m.chunks.len() > 0 && m.head.chunk is None ==> self.some_push_publishes()
        &&& off(pos(m.head.index)) == 31 ==> self.some_pop_closes()
    }
}

/// Every step of a push leaves nothing unfinished without someone to finish it.
#[verifier::rlimit(40)]
pub proof fn lemma_push_keeps_complete<T>(s: Sys<T>, i: int, spurious: bool)
    requires
        s.safe(),
        s.complete(),
        s.mem.has_room(),
        0 <= i < s.pushes.len(),
    ensures
        s.step_push(i, spurious).complete(),
{
    let s2 = s.step_push(i, spurious);
    let m = s.mem;
    let m2 = s2.mem;
    let op = s.pushes[i];
    let p = op.at();
    assert(push_ok(m, op));
    lemma_push_keeps_safe(s, i, spurious);
    assert(s2.pushes[i] == push_next(m, op, spurious).1);
    if op.stage is Write {
        lemma_with_slot(m, p, Slot { value: op.item, ..m.slot(p) });
    }
    if op.stage is Mark {
        lemma_state_bits(m.slot(p).state);
        lemma_with_slot(m, p, Slot { state: m.slot(p).state | 1, ..m.slot(p) });
    }
    if m2.chunks == m.chunks.push(ChunkModel::fresh()) {
        lemma_fresh_chunk(m, m2);
    }
    if off(pos(m2.tail.index)) == 31 {
        if off(pos(m.tail.index)) == 31 {
            let w = choose|w: int| 0 <= w < s.pushes.len() && push_closes(#[trigger] s.pushes[w]);
            assert(push_closes(s2.pushes[w]));
        } else {
            assert(push_closes(s2.pushes[i]));
        }
    }
    assert forall|q: int|
        0 <= q < pos(m2.tail.index) && off(q) != 31 && !m2.chunks[lap(q)].ended && !(
        #[trigger] m2.slot(q)).written() implies s2.some_push_claims(q) by {
        if q < pos(m.tail.index) {
            assert(!m.slot(q).written());
            let w = choose|w: int|
                0 <= w < s.pushes.len() && push_claims(#[trigger] s.pushes[w])
                    && s.pushes[w].at() == q;
            assert(push_claims(s2.pushes[w]) && s2.pushes[w].at() == q);
        } else {
            assert(push_claims(s2.pushes[i]) && s2.pushes[i].at() == q);
        }
    }
    assert forall|k: int|
        0 <= k < m2.chunks.len() - 1 && (#[trigger] m2.chunks[k]).next is None implies s2.some_push_links(
        k,
    ) by {
        if k < m.chunks.len() - 1 {
            assert(m.chunks[k].next is None);
            let w = choose|w: int|
                0 <= w < s.pushes.len() && ((#[trigger] s.pushes[w]).stage is StoreTailIndex
                    || s.pushes[w].stage is LinkNext) && lap(s.pushes[w].at()) == k;
            assert((s2.pushes[w].stage is StoreTailIndex || s2.pushes[w].stage is LinkNext) && lap(
                s2.pushes[w].at(),
            ) == k);
        } else {
            assert(s2.pushes[i].stage is StoreTailIndex && lap(s2.pushes[i].at()) == k);
        }
    }
    if m2.chunks.len() > 0 && m2.head.chunk is None {
        if m.chunks.len() > 0 {
            let w = choose|w: int| 0 <= w < s.pushes.len() && (#[trigger] s.pushes[w]).stage is PublishHead;
            assert(s2.pushes[w].stage is PublishHead);
        } else {
            assert(s2.pushes[i].stage is PublishHead);
        }
    }
    if off(pos(m2.head.index)) == 31 {
        let w = choose|w: int| 0 <= w < s.pops.len() && pop_closes(#[trigger] s.pops[w]);
        assert(pop_closes(s2.pops[w]));
    }
    assert forall|q: int|
        0 <= q < pos(m2.head.index) && off(q) < 30 && !m2.chunks[lap(q)].ended && !(
        #[trigger] m2.slot(q)).read() implies s2.some_pop_reads(q) by {
        assert(!m.slot(q).read());
        let w = choose|w: int|
            0 <= w < s.pops.len() && pop_reads(#[trigger] s.pops[w]) && s.pops[w].at() == q;
        assert(pop_reads(s2.pops[w]) && s2.pops[w].at() == q);
    }
    assert forall|k: int|
        0 <= k && 32 * (k + 1) <= pos(m2.head.index) && !(#[trigger] m2.chunks[k]).ended implies s2.some_pop_ends(
        k,
    ) || !no_heir(m2.chunks[k]) by {
        assert(!m.chunks[k].ended);
        if s.some_pop_ends(k) {
            let w = choose|w: int|
                0 <= w < s.pops.len() && (pop_ends(#[trigger] s.pops[w]) || pop_will_end(
                    s.pops[w],
                )) && lap(s.pops[w].at()) == k;
            assert(s2.pops[w] == s.pops[w]);
        } else {
            let j = choose|j: int|
                0 <= j < 31 && (#[trigger] m.chunks[k].slots[j]).destroying()
                    && !m.chunks[k].slots[j].read();
            assert(m2.chunks[k].slots[j].destroying() && !m2.chunks[k].slots[j].read());
        }
    }
}

/// Every step of a pop leaves no slot that was claimed unread without someone to read it.
proof fn lemma_pop_keeps_readers<T>(s: Sys<T>, i: int, spurious: bool)
    requires
        s.safe(),
        s.complete(),
        s.mem.has_room(),
        0 <= i < s.pops.len(),
    ensures
        ({
            let s2 = s.step_pop(i, spurious);
            forall|q: int|
                0 <= q < pos(s2.mem.head.index) && off(q) < 30 && !s2.mem.chunks[lap(q)].ended && !(
                #[trigger] s2.mem.slot(q)).read() ==> s2.some_pop_reads(q)
        }),
{
    let s2 = s.step_pop(i, spurious);
    let m = s.mem;
    let m2 = s2.mem;
    let op = s.pops[i];
    let p = op.at();
    assert(pop_ok(m, op));
    lemma_pop_keeps_safe(s, i, spurious);
    assert(s2.pops[i] == pop_next(m, op, spurious).1);
    if op.stage is Read {
        lemma_with_slot(m, p, Slot { value: None, ..m.slot(p) });
    }
    if op.stage is MarkRead {
        lemma_state_bits(m.slot(p).state);
        lemma_flag_slot(m, lap(p), off(p), m.slot(p).state | 2);
    }
    if op.stage is DestroyMark {
        let state = m.chunks[lap(p)].slots[op.scan as int].state;
        lemma_state_bits(state);
        assert(slot_ok(m, lap(p), op.scan as int));
            lemma_flag_slot(m, lap(p), op.scan as int, state | 4);
    }
    if op.stage is DestroyCheck && op.scan >= 30 {
        lemma_ended(m, lap(p));
    }
    assert forall|q: int|
        0 <= q < pos(m2.head.index) && off(q) < 30 && !m2.chunks[lap(q)].ended && !(
        #[trigger] m2.slot(q)).read() implies s2.some_pop_reads(q) by {
        if q < pos(m.head.index) {
            assert(!m.slot(q).read());
            let w = choose|w: int|
                0 <= w < s.pops.len() && pop_reads(#[trigger] s.pops[w]) && s.pops[w].at() == q;
            assert(pop_ok(m, s.pops[w]));
            assert(pop_reads(s2.pops[w]) && s2.pops[w].at() == q);
        } else {
            assert(pop_reads(s2.pops[i]) && s2.pops[i].at() == q);
        }
    }
}

/// Every step of a pop leaves no chunk that is finished without someone to end it.
proof fn lemma_pop_keeps_ends<T>(s: Sys<T>, i: int, spurious: bool)
    requires
        s.safe(),
        s.complete(),
        s.mem.has_room(),
        0 <= i < s.pops.len(),
    ensures
        ({
            let s2 = s.step_pop(i, spurious);
            forall|k: int|
                0 <= k && 32 * (k + 1) <= pos(s2.mem.head.index) && !(
                #[trigger] s2.mem.chunks[k]).ended ==> s2.some_pop_ends(k) || !no_heir(
                    s2.mem.chunks[k],
                )
        }),
{
    let s2 = s.step_pop(i, spurious);
    let m = s.mem;
    let m2 = s2.mem;
    let op = s.pops[i];
    let p = op.at();
    assert(pop_ok(m, op));
    lemma_pop_keeps_safe(s, i, spurious);
    assert(s2.pops[i] == pop_next(m, op, spurious).1);
    if op.stage is Read {
        lemma_with_slot(m, p, Slot { value: None, ..m.slot(p) });
    }
    if op.stage is MarkRead {
        lemma_state_bits(m.slot(p).state);
        lemma_flag_slot(m, lap(p), off(p), m.slot(p).state | 2);
    }
    if op.stage is DestroyMark {
        let state = m.chunks[lap(p)].slots[op.scan as int].state;
        lemma_state_bits(state);
        assert(slot_ok(m, lap(p), op.scan as int));
            lemma_flag_slot(m, lap(p), op.scan as int, state | 4);
    }
    if op.stage is DestroyCheck && op.scan >= 30 {
        lemma_ended(m, lap(p));
    }
    assert forall|k: int|
        0 <= k && 32 * (k + 1) <= pos(m2.head.index) && !(#[trigger] m2.chunks[k]).ended implies s2.some_pop_ends(
        k,
    ) || !no_heir(m2.chunks[k]) by {
        if 32 * (k + 1) <= pos(m.head.index) {
            assert(!m.chunks[k].ended);
            if s.some_pop_ends(k) {
                let w = choose|w: int|
                    0 <= w < s.pops.len() && (pop_ends(#[trigger] s.pops[w]) || pop_will_end(
                        s.pops[w],
                    )) && lap(s.pops[w].at()) == k;
                assert(pop_ok(m, s.pops[w]));
                if w != i {
                    assert(s2.pops[w] == s.pops[w]);
                } else if pop_ends(s2.pops[i]) || pop_will_end(s2.pops[i]) {
                    assert(lap(s2.pops[i].at()) == k);
                } else {
                    // The rest is left to the reader of the slot just marked.
                    assert(op.stage is DestroyMark);
                    assert(m2.chunks[k].slots[op.scan as int].destroying());
                }
            } else {
                let j = choose|j: int|
                    0 <= j < 31 && (#[trigger] m.chunks[k].slots[j]).destroying()
                        && !m.chunks[k].slots[j].read();
                if m2.chunks[k].slots[j].read() {
                    assert(op.stage is MarkRead && lap(p) == k && off(p) == j);
                    assert(pop_ends(s2.pops[i]) && lap(s2.pops[i].at()) == k);
                } else {
                    assert(m2.chunks[k].slots[j].destroying());
                }
            }
        } else {
            assert(pop_will_end(s2.pops[i]) && lap(s2.pops[i].at()) == k);
        }
    }
}

/// Every step of a pop leaves nothing unfinished without someone to finish it.
#[verifier::rlimit(60)]
pub proof fn lemma_pop_keeps_complete<T>(s: Sys<T>, i: int, spurious: bool)
    requires
        s.safe(),
        s.complete(),
        s.mem.has_room(),
        0 <= i < s.pops.len(),
    ensures
        s.step_pop(i, spurious).complete(),
{
    let s2 = s.step_pop(i, spurious);
    let m = s.mem;
    let m2 = s2.mem;
    let op = s.pops[i];
    let p = op.at();
    assert(pop_ok(m, op));
    lemma_pop_keeps_safe(s, i, spurious);
    assert(s2.pops[i] == pop_next(m, op, spurious).1);
    if op.stage is Read {
        lemma_with_slot(m, p, Slot { value: None, ..m.slot(p) });
    }
    if op.stage is MarkRead {
        lemma_state_bits(m.slot(p).state);
        lemma_flag_slot(m, lap(p), off(p), m.slot(p).state | 2);
    }
    if op.stage is DestroyMark {
        let state = m.chunks[lap(p)].slots[op.scan as int].state;
        lemma_state_bits(state);
        assert(slot_ok(m, lap(p), op.scan as int));
            lemma_flag_slot(m, lap(p), op.scan as int, state | 4);
    }
    if op.stage is DestroyCheck && op.scan >= 30 {
        lemma_ended(m, lap(p));
    }
    assert forall|q: int|
        0 <= q < pos(m2.tail.index) && off(q) != 31 && !m2.chunks[lap(q)].ended && !(
        #[trigger] m2.slot(q)).written() implies s2.some_push_claims(q) by {
        assert(!m.slot(q).written());
        let w = choose|w: int|
            0 <= w < s.pushes.len() && push_claims(#[trigger] s.pushes[w]) && s.pushes[w].at() == q;
        assert(push_claims(s2.pushes[w]) && s2.pushes[w].at() == q);
    }
    assert forall|k: int|
        0 <= k < m2.chunks.len() - 1 && (#[trigger] m2.chunks[k]).next is None implies s2.some_push_links(
        k,
    ) by {
        assert(m.chunks[k].next is None);
        let w = choose|w: int|
            0 <= w < s.pushes.len() && ((#[trigger] s.pushes[w]).stage is StoreTailIndex
                || s.pushes[w].stage is LinkNext) && lap(s.pushes[w].at()) == k;
        assert((s2.pushes[w].stage is StoreTailIndex || s2.pushes[w].stage is LinkNext) && lap(
            s2.pushes[w].at(),
        ) == k);
    }
    if off(pos(m2.head.index)) == 31 {
        if off(pos(m.head.index)) == 31 {
            let w = choose|w: int| 0 <= w < s.pops.len() && pop_closes(#[trigger] s.pops[w]);
            assert(pop_ok(m, s.pops[w]));
            assert(pop_closes(s2.pops[w]));
        } else {
            assert(pop_closes(s2.pops[i]));
        }
    }
    assert(s2.complete()) by {
        lemma_pop_keeps_readers(s, i, spurious);
        lemma_pop_keeps_ends(s, i, spurious);
    }
}

} // verus!
