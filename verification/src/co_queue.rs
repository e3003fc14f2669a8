//! An unbounded first-in first-out queue made of a chain of chunks.

use std::sync::mpsc::Sender;
use std::sync::Mutex;

use vstd::prelude::*;

use crate::backoff::{Backoff, Pause};
use crate::chunk::{
    has_next, lap, lemma_index_bits, lemma_num_order, num, off, pos, Chunk, ChunkModel, Segment,
    Slot, CHUNK_CAP, DESTROY, HAS_NEXT, LAP, READ, SHIFT, WRITE,
};
use crate::channel::{
    handle_for, handle_of, listened, new_channel, one_channel, received_at, Listener, QueueState,
};
use crate::co_model::{
    len_next, pop_next, pop_yields, push_next, push_yields, LenOp, LenStage, Mem, PopOp, PopStage,
    PushOp, PushStage,
};
use crate::co_proof::{
    lemma_pop_keeps_complete, lemma_pop_keeps_safe, lemma_push_keeps_complete,
    lemma_push_keeps_safe, mem_ok, pop_ok, push_ok, slot_ok, Sys,
};

verus! {

/// No operation is under way: nothing is unfinished.
pub open spec fn quiet<T>(m: Mem<T>) -> bool {
    let s = Sys { mem: m, pushes: Seq::empty(), pops: Seq::empty() };
    s.safe() && s.complete()
}

/// The values pushed and not yet claimed by a pop, oldest first.
pub open spec fn items<T>(m: Mem<T>) -> Seq<T> {
    m.pushed.skip(num(pos(m.head.index)))
}

/// What a pop does to the values in a queue, and what it gives.
pub open spec fn popped<T>(before: Seq<T>, after: Seq<T>, item: Result<T, ()>) -> bool {
    if before.len() == 0 {
        item == Err::<T, ()>(()) && after == before
    } else {
        item == Ok::<T, ()>(before[0]) && after == before.skip(1)
    }
}

/// The queue went through these states while pops gave these items, one after the other.
pub open spec fn all_popped<T>(states: Seq<CoQueue<T>>, given: Seq<Result<T, ()>>) -> bool {
    &&& states.len() == given.len() + 1
    &&& forall|i: int|
        0 <= i < given.len() ==> popped(states[i]@, states[i + 1]@, #[trigger] given[i])
}

/// A push or a pop that was made, with what the pop gave.
pub enum CoCall<T> {
    Push(T),
    Pop(Result<T, ()>),
}

/// The queue went through these states while the calls were made, one after the other.
pub open spec fn all_called<T>(states: Seq<CoQueue<T>>, calls: Seq<CoCall<T>>) -> bool {
    &&& states.len() == calls.len() + 1
    &&& forall|i: int|
        0 <= i < calls.len() ==> match #[trigger] calls[i] {
            CoCall::Push(item) => states[i + 1]@ == states[i]@.push(item),
            CoCall::Pop(item) => popped(states[i]@, states[i + 1]@, item),
        }
}

/// How many pushes there were among the calls.
pub open spec fn push_count<T>(calls: Seq<CoCall<T>>) -> nat
    decreases calls.len(),
{
    if calls.len() == 0 {
        0
    } else {
        push_count(calls.drop_last()) + (if calls.last() is Push {
            1nat
        } else {
            0
        })
    }
}

/// How many pops that gave a value there were among the calls.
pub open spec fn pop_count<T>(calls: Seq<CoCall<T>>) -> nat
    decreases calls.len(),
{
    if calls.len() == 0 {
        0
    } else {
        pop_count(calls.drop_last()) + (match calls.last() {
            CoCall::Pop(Ok(_)) => 1nat,
            _ => 0,
        })
    }
}

/// Pops give the values of a queue in order, and fail once there is none left.
pub proof fn law_drained_in_order<T>(states: Seq<CoQueue<T>>, given: Seq<Result<T, ()>>)
    requires
        all_popped(states, given),
    ensures
        forall|i: int|
            0 <= i < given.len() ==> #[trigger] given[i] == (if i < states[0]@.len() {
                Ok::<T, ()>(states[0]@[i])
            } else {
                Err::<T, ()>(())
            }),
        given.len() <= states[0]@.len() ==> states.last()@ == states[0]@.skip(given.len() as int),
        given.len() > states[0]@.len() ==> states.last()@.len() == 0,
    decreases given.len(),
{
    if given.len() == 0 {
        assert(states[0]@.skip(0) =~= states[0]@);
    } else {
        let n = given.len() - 1;
        let (fewer, less) = (states.take(n + 1), given.take(n));
        assert forall|i: int| 0 <= i < n implies popped(
            fewer[i]@,
            fewer[i + 1]@,
            #[trigger] less[i],
        ) by {
            assert(less[i] == given[i]);
        }
        law_drained_in_order(fewer, less);
        assert(popped(states[n]@, states[n + 1]@, given[n]));
        assert(fewer.last() == states[n]);
        assert forall|i: int| 0 <= i < given.len() implies #[trigger] given[i] == (if i
            < states[0]@.len() {
            Ok::<T, ()>(states[0]@[i])
        } else {
            Err::<T, ()>(())
        }) by {
            if i < n {
                assert(less[i] == given[i]);
            }
        }
        if n < states[0]@.len() {
            assert(states[0]@.skip(n).skip(1) =~= states[0]@.skip(n + 1));
        }
    }
}

/// A value that is pushed comes out behind all that were in the queue before, after which
/// pops fail.
pub proof fn law_push_comes_last<T>(
    before: CoQueue<T>,
    item: T,
    states: Seq<CoQueue<T>>,
    given: Seq<Result<T, ()>>,
)
    requires
        all_popped(states, given),
        states[0]@ == before@.push(item),
        given.len() == before@.len() + 2,
    ensures
        states[0]@.len() == before@.len() + 1,
        forall|i: int|
            0 <= i < before@.len() ==> #[trigger] given[i] == Ok::<T, ()>(before@[i]),
        given[before@.len() as int] == Ok::<T, ()>(item),
        given[before@.len() as int + 1] == Err::<T, ()>(()),
{
    law_drained_in_order(states, given);
}

/// A queue that was empty holds as many values as were pushed, less those that were popped,
/// whatever the order of the calls.
pub proof fn law_len_counts<T>(states: Seq<CoQueue<T>>, calls: Seq<CoCall<T>>)
    requires
        all_called(states, calls),
        states[0]@.len() == 0,
    ensures
        states.last()@.len() == push_count(calls) - pop_count(calls),
    decreases calls.len(),
{
    if calls.len() > 0 {
        let n = calls.len() - 1;
        let (fewer, less) = (states.take(n + 1), calls.drop_last());
        assert forall|i: int| 0 <= i < n implies match #[trigger] less[i] {
            CoCall::Push(item) => fewer[i + 1]@ == fewer[i]@.push(item),
            CoCall::Pop(item) => popped(fewer[i]@, fewer[i + 1]@, item),
        } by {
            assert(less[i] == calls[i]);
        }
        law_len_counts(fewer, less);
        assert(fewer.last() == states[n]);
        assert(match calls[n] {
            CoCall::Push(item) => states[n + 1]@ == states[n]@.push(item),
            CoCall::Pop(item) => popped(states[n]@, states[n + 1]@, item),
        });
    }
}

/// A queue is empty exactly if it holds no value, and exactly if the next pop fails; such a
/// pop changes nothing.
pub proof fn law_empty_or_popped<T>(queue: CoQueue<T>, after: CoQueue<T>, item: Result<T, ()>)
    requires
        popped(queue@, after@, item),
    ensures
        item is Err <==> queue@.len() == 0,
        item is Err ==> after@ == queue@,
{
}

/// A queue to which values are pushed at the tail and from which they are popped
/// at the head.
#[verifier::reject_recursive_types(T)]
pub struct CoQueue<T> {
    head: Segment,
    tail: Segment,
    chunks: Vec<Chunk<T>>,
    pushed: Ghost<Seq<T>>,
    recv: Listener<T>,
    temp_tx: Sender<QueueState<T>>,
}

impl<T> View for CoQueue<T> {
    type V = Seq<T>;

    open spec fn view(&self) -> Seq<T> {
        items(self.mem())
    }
}

impl<T> CoQueue<T> {
    /// The words that operations on the queue share.
    pub closed spec fn mem(&self) -> Mem<T> {
        Mem {
            head: self.head,
            tail: self.tail,
            chunks: self.chunks@.map_values(|c: Chunk<T>| c@),
            pushed: self.pushed@,
        }
    }

    /// The two ends of the queue's channel for signals.
    pub closed spec fn ends(&self) -> (Sender<QueueState<T>>, Listener<T>) {
        (self.temp_tx, self.recv)
    }

    /// No operation is under way, the chunks hold what they should, and the indices can be
    /// moved on.
    pub open spec fn wf(&self) -> bool {
        quiet(self.mem()) && self.mem().has_room()
    }

    /// An empty queue.
    pub fn new() -> (queue: CoQueue<T>)
        ensures
            queue.wf(),
            queue@ == Seq::<T>::empty(),
            queue.mem() == Mem::<T>::empty(),
            one_channel(queue.ends()),
    {
        let (tx, recv) = new_channel();
        let queue = CoQueue {
            head: Segment::new(),
            tail: Segment::new(),
            chunks: Vec::new(),
            pushed: Ghost(Seq::empty()),
            recv,
            temp_tx: tx,
        };
        assert(queue.mem() =~= Mem::<T>::empty());
        assert(queue@ =~= Seq::<T>::empty());
        queue
    }

    /// Starts a push of `item`.
    pub fn start_push(item: T) -> (op: PushOp<T>)
        ensures
            op == PushOp::start(item),
    {
        PushOp {
            stage: PushStage::LoadIndex,
            item: Some(item),
            backoff: Backoff::new(),
            tail: 0,
            chunk: None,
            spare: false,
            next: None,
        }
    }

    /// Takes the decision that follows a read of the tail index and chunk.
    fn push_decide(op: &mut PushOp<T>) -> (yields: bool)
        ensures
            *final(op) == old(op).decide(),
            yields == (off(old(op).at()) == 31 && old(op).backoff.nap_yields()),
    {
        proof {
            lemma_index_bits(op.tail);
        }
        let offset: usize = (op.tail >> SHIFT) % LAP;
        if offset == CHUNK_CAP {
            let pause = op.backoff.nap();
            op.stage = PushStage::LoadIndex;
            return match pause {
                Pause::Yield => true,
                Pause::Spun(_) => false,
            };
        }
        if offset + 1 == CHUNK_CAP && !op.spare {
            op.spare = true;
        }
        match op.chunk {
            None => {
                op.stage = PushStage::Install;
            },
            Some(_) => {
                op.stage = PushStage::Advance;
            },
        }
        false
    }

    /// Takes one step of a push: one access to the shared words and the decision
    /// that follows it. Returns whether the processor is to be yielded before the
    /// next step. `spurious` makes a claim fail that could succeed.
    pub fn push_step(&mut self, op: &mut PushOp<T>, spurious: bool) -> (yields: bool)
        requires
            mem_ok(old(self).mem()),
            push_ok(old(self).mem(), *old(op)),
            old(self).mem().has_room(),
        ensures
            final(self).mem() == push_next(old(self).mem(), *old(op), spurious).0,
            *final(op) == push_next(old(self).mem(), *old(op), spurious).1,
            yields == push_yields(old(self).mem(), *old(op)),
            final(self).ends() == old(self).ends(),
    {
        let ghost m = self.mem();
        let ghost before = *op;
        proof {
            lemma_index_bits(op.tail);
        }
        match op.stage {
            PushStage::LoadIndex => {
                op.tail = self.tail.index;
                op.stage = PushStage::LoadChunk;
            },
            PushStage::LoadChunk => {
                op.chunk = self.tail.chunk;
                return Self::push_decide(op);
            },
            PushStage::Reload => {
                op.chunk = self.tail.chunk;
                op.backoff.spin();
                return Self::push_decide(op);
            },
            PushStage::Install => {
                if self.tail.chunk.is_none() {
                    let id: usize = self.chunks.len();
                    self.chunks.push(Chunk::new());
                    self.tail.chunk = Some(id);
                    op.chunk = Some(id);
                    op.stage = PushStage::PublishHead;
                    assert(self.mem().chunks =~= m.chunks.push(ChunkModel::fresh()));
                } else {
                    op.spare = true;
                    op.stage = PushStage::LoadIndex;
                }
            },
            PushStage::PublishHead => {
                self.head.chunk = op.chunk;
                op.stage = PushStage::Advance;
            },
            PushStage::Advance => {
                let offset: usize = (op.tail >> SHIFT) % LAP;
                if !spurious && self.tail.index == op.tail {
                    self.tail.index = op.tail + (1usize << SHIFT);
                    self.pushed = Ghost(self.pushed@.push(op.item->0));
                    if offset + 1 == CHUNK_CAP {
                        op.stage = PushStage::StoreTailChunk;
                    } else {
                        op.stage = PushStage::Write;
                    }
                } else {
                    op.tail = self.tail.index;
                    op.stage = PushStage::Reload;
                }
            },
            PushStage::StoreTailChunk => {
                let id: usize = self.chunks.len();
                self.chunks.push(Chunk::new());
                self.tail.chunk = Some(id);
                op.next = Some(id);
                op.spare = false;
                op.stage = PushStage::StoreTailIndex;
                assert(self.mem().chunks =~= m.chunks.push(ChunkModel::fresh()));
            },
            PushStage::StoreTailIndex => {
                self.tail.index = op.tail + (1usize << SHIFT) + (1usize << SHIFT);
                op.stage = PushStage::LinkNext;
            },
            PushStage::LinkNext => {
                let c: usize = op.chunk.unwrap();
                self.chunks[c].next = op.next;
                op.stage = PushStage::Write;
                assert(self.mem().chunks =~= push_next(m, before, spurious).0.chunks);
            },
            PushStage::Write => {
                let c: usize = op.chunk.unwrap();
                let offset: usize = (op.tail >> SHIFT) % LAP;
                self.chunks[c].slots[offset].value = op.item.take();
                op.stage = PushStage::Mark;
                assert(self.mem().chunks =~~= push_next(m, before, spurious).0.chunks);
            },
            PushStage::Mark => {
                let c: usize = op.chunk.unwrap();
                let offset: usize = (op.tail >> SHIFT) % LAP;
                self.chunks[c].slots[offset].state = self.chunks[c].slots[offset].state | WRITE;
                op.stage = PushStage::Done;
                assert(self.mem().chunks =~~= push_next(m, before, spurious).0.chunks);
            },
            PushStage::Done => {},
        }
        false
    }

    /// Starts a pop.
    pub fn start_pop() -> (op: PopOp<T>)
        ensures
            op == PopOp::<T>::start(),
    {
        PopOp {
            stage: PopStage::LoadIndex,
            backoff: Backoff::new(),
            wait: Backoff::new(),
            head: 0,
            chunk: None,
            new_head: 0,
            next: None,
            next_head: 0,
            scan: 0,
            item: None,
            ended: false,
        }
    }

    /// Takes the decision that follows once the position is known to hold a value.
    fn pop_claim_or_retry(op: &mut PopOp<T>) -> (yields: bool)
        ensures
            *final(op) == old(op).claim_or_retry(),
            yields == (old(op).chunk is None && old(op).backoff.nap_yields()),
    {
        match op.chunk {
            None => {
                let pause = op.backoff.nap();
                op.stage = PopStage::LoadIndex;
                match pause {
                    Pause::Yield => true,
                    Pause::Spun(_) => false,
                }
            },
            Some(_) => {
                op.stage = PopStage::Advance;
                false
            },
        }
    }

    /// Takes the decision that follows a read of the head index and chunk.
    fn pop_decide(op: &mut PopOp<T>) -> (yields: bool)
        requires
            old(op).head <= usize::MAX - 2,
        ensures
            *final(op) == old(op).decide(),
            yields == ((off(old(op).at()) == 31 || (has_next(old(op).head) && old(op).chunk is None))
                && old(op).backoff.nap_yields()),
    {
        proof {
            lemma_index_bits(op.head);
            lemma_index_bits((op.head + 2) as usize);
        }
        let offset: usize = (op.head >> SHIFT) % LAP;
        if offset == CHUNK_CAP {
            let pause = op.backoff.nap();
            op.stage = PopStage::LoadIndex;
            return match pause {
                Pause::Yield => true,
                Pause::Spun(_) => false,
            };
        }
        op.new_head = op.head + (1usize << SHIFT);
        if op.new_head & HAS_NEXT == 0 {
            op.stage = PopStage::LoadTail;
            false
        } else {
            Self::pop_claim_or_retry(op)
        }
    }

    /// Takes one step of a pop: one access to the shared words and the decision
    /// that follows it. Returns whether the processor is to be yielded before the
    /// next step. `spurious` makes a claim fail that could succeed.
    pub fn pop_step(&mut self, op: &mut PopOp<T>, spurious: bool) -> (yields: bool)
        requires
            mem_ok(old(self).mem()),
            pop_ok(old(self).mem(), *old(op)),
            old(self).mem().has_room(),
        ensures
            final(self).mem() == pop_next(old(self).mem(), *old(op), spurious).0,
            *final(op) == pop_next(old(self).mem(), *old(op), spurious).1,
            yields == pop_yields(old(self).mem(), *old(op)),
            final(self).ends() == old(self).ends(),
    {
        let ghost m = self.mem();
        let ghost before = *op;
        proof {
            lemma_index_bits(op.head);
            lemma_index_bits(op.new_head);
            lemma_index_bits(self.tail.index);
        }
        match op.stage {
            PopStage::LoadIndex => {
                op.head = self.head.index;
                op.stage = PopStage::LoadChunk;
            },
            PopStage::LoadChunk => {
                op.chunk = self.head.chunk;
                return Self::pop_decide(op);
            },
            PopStage::Reload => {
                op.chunk = self.head.chunk;
                op.backoff.spin();
                return Self::pop_decide(op);
            },
            PopStage::LoadTail => {
                let tail: usize = self.tail.index;
                if op.head >> SHIFT == tail >> SHIFT {
                    op.stage = PopStage::Done;
                } else {
                    if (op.head >> SHIFT) / LAP != (tail >> SHIFT) / LAP {
                        op.new_head = op.new_head | HAS_NEXT;
                    }
                    return Self::pop_claim_or_retry(op);
                }
            },
            PopStage::Advance => {
                let offset: usize = (op.head >> SHIFT) % LAP;
                if !spurious && self.head.index == op.head {
                    self.head.index = op.new_head;
                    op.wait.reset();
                    if offset + 1 == CHUNK_CAP {
                        op.stage = PopStage::WaitNext;
                    } else {
                        op.stage = PopStage::WaitWrite;
                    }
                } else {
                    op.head = self.head.index;
                    op.stage = PopStage::Reload;
                }
            },
            PopStage::WaitNext => {
                let c: usize = op.chunk.unwrap();
                match self.chunks[c].wait_next(&mut op.wait) {
                    Ok(next) => {
                        op.next = Some(next);
                        op.stage = PopStage::PeekNext;
                    },
                    Err(Pause::Yield) => {
                        return true;
                    },
                    Err(Pause::Spun(_)) => {},
                }
            },
            PopStage::PeekNext => {
                let next: usize = op.next.unwrap();
                let next_head: usize = (op.new_head & !HAS_NEXT).wrapping_add(1usize << SHIFT);
                proof {
                    lemma_index_bits(next_head);
                }
                if self.chunks[next].next.is_some() {
                    op.next_head = next_head | HAS_NEXT;
                } else {
                    op.next_head = next_head;
                }
                op.stage = PopStage::StoreHeadChunk;
            },
            PopStage::StoreHeadChunk => {
                self.head.chunk = op.next;
                op.stage = PopStage::StoreHeadIndex;
            },
            PopStage::StoreHeadIndex => {
                self.head.index = op.next_head;
                op.wait.reset();
                op.stage = PopStage::WaitWrite;
            },
            PopStage::WaitWrite => {
                let c: usize = op.chunk.unwrap();
                let offset: usize = (op.head >> SHIFT) % LAP;
                match self.chunks[c].slots[offset].wait_write(&mut op.wait) {
                    None => {
                        op.stage = PopStage::Read;
                    },
                    Some(Pause::Yield) => {
                        return true;
                    },
                    Some(Pause::Spun(_)) => {},
                }
            },
            PopStage::Read => {
                let c: usize = op.chunk.unwrap();
                let offset: usize = (op.head >> SHIFT) % LAP;
                op.item = self.chunks[c].slots[offset].value.take();
                if offset + 1 == CHUNK_CAP {
                    op.scan = 0;
                    op.stage = PopStage::DestroyCheck;
                } else {
                    op.stage = PopStage::MarkRead;
                }
                assert(self.mem().chunks =~~= pop_next(m, before, spurious).0.chunks);
            },
            PopStage::MarkRead => {
                let c: usize = op.chunk.unwrap();
                let offset: usize = (op.head >> SHIFT) % LAP;
                let state: usize = self.chunks[c].slots[offset].state;
                self.chunks[c].slots[offset].state = state | READ;
                if state & DESTROY != 0 {
                    op.scan = offset + 1;
                    op.stage = PopStage::DestroyCheck;
                } else {
                    op.stage = PopStage::Done;
                }
                assert(self.mem().chunks =~~= pop_next(m, before, spurious).0.chunks);
            },
            PopStage::DestroyCheck => {
                let c: usize = op.chunk.unwrap();
                if op.scan + 1 >= CHUNK_CAP {
                    self.chunks[c].destroy();
                    op.ended = true;
                    op.stage = PopStage::Done;
                    assert(self.mem().chunks =~~= pop_next(m, before, spurious).0.chunks);
                } else if self.chunks[c].slots[op.scan].state & READ == 0 {
                    op.stage = PopStage::DestroyMark;
                } else {
                    op.scan = op.scan + 1;
                }
            },
            PopStage::DestroyMark => {
                let c: usize = op.chunk.unwrap();
                let scan: usize = op.scan;
                let state: usize = self.chunks[c].slots[scan].state;
                self.chunks[c].slots[scan].state = state | DESTROY;
                if state & READ == 0 {
                    op.stage = PopStage::Done;
                } else {
                    op.scan = scan + 1;
                    op.stage = PopStage::DestroyCheck;
                }
                assert(self.mem().chunks =~~= pop_next(m, before, spurious).0.chunks);
            },
            PopStage::Done => {},
        }
        false
    }

    /// Puts `item` at the end of the queue.
    pub fn push(&mut self, item: T)
        requires
            old(self).wf(),
            old(self).mem().has_room_for(1),
        ensures
            final(self).wf(),
            final(self)@ == old(self)@.push(item),
            final(self).ends() == old(self).ends(),
            final(self).mem().pushed == old(self).mem().pushed.push(item),
            forall|n: nat|
                #![trigger final(self).mem().has_room_for(n)]
                old(self).mem().has_room_for(n + 1) ==> final(self).mem().has_room_for(n),
    {
        let ghost m0 = self.mem();
        let ghost item0 = item;
        let mut op = Self::start_push(item);
        let mut done: bool = false;
        while !done
            invariant
                self.ends() == old(self).ends(),
                lone_push(self.mem(), op).safe(),
                lone_push(self.mem(), op).complete(),
                m0.has_room_for(1),
                self.mem().tail.index <= m0.tail.index + 4,
                push_progress(m0, item0, self.mem(), op),
                done == (op.stage is Done),
            decreases push_rank(op.stage),
        {
            let ghost s = lone_push(self.mem(), op);
            assert(push_ok(s.mem, s.pushes[0]));
            self.push_step(&mut op, false);
            proof {
                lemma_push_keeps_safe(s, 0, false);
                lemma_push_keeps_complete(s, 0, false);
                assert(s.step_push(0, false) =~= lone_push(self.mem(), op));
            }
            done = match op.stage {
                PushStage::Done => true,
                _ => false,
            };
        }
        proof {
            lemma_push_over(self.mem(), op);
            assert(self@ =~= items(m0).push(item0));
        }
    }

    /// Whether the tail index can be moved on by this many pushes.
    pub fn has_room_for(&self, pushes: usize) -> (room: bool)
        ensures
            room == self.mem().has_room_for(pushes as nat),
    {
        pushes <= (usize::MAX - 4) / 4 && self.tail.index <= usize::MAX - 4 - 4 * pushes
    }

    /// Whether both ends are at one position: with nothing under way, whether the
    /// queue holds no value.
    pub fn is_empty(&self) -> (empty: bool)
        ensures
            empty == (pos(self.mem().head.index) == pos(self.mem().tail.index)),
            self.wf() ==> empty == (self@.len() == 0),
    {
        proof {
            lemma_index_bits(self.head.index);
            lemma_index_bits(self.tail.index);
        }
        self.head.index >> SHIFT == self.tail.index >> SHIFT
    }

    /// How many values are in the queue.
    pub fn len(&self) -> (count: usize)
        requires
            mem_ok(self.mem()),
        ensures
            count == self@.len(),
    {
        length_between(self.tail.index, self.head.index)
    }

    /// Starts to count the values while pushes and pops may be under way.
    pub fn start_len() -> (op: LenOp)
        ensures
            op == LenOp::start(),
    {
        LenOp { stage: LenStage::LoadTail, tail: 0, head: 0, count: 0 }
    }

    /// Takes one step of the counting: one read of an index, and what follows from it.
    pub fn len_step(&self, op: &mut LenOp)
        requires
            mem_ok(self.mem()),
            old(op).ok(self.mem()),
        ensures
            *final(op) == len_next(self.mem(), *old(op)),
            final(op).ok(self.mem()),
    {
        match op.stage {
            LenStage::LoadTail => {
                op.tail = self.tail.index;
                op.stage = LenStage::LoadHead;
            },
            LenStage::LoadHead => {
                op.head = self.head.index;
                op.stage = LenStage::CheckTail;
            },
            LenStage::CheckTail => {
                // If the tail index didn't change, we've got consistent indices to work with.
                if self.tail.index == op.tail {
                    op.count = length_between(op.tail, op.head);
                    op.stage = LenStage::Done;
                } else {
                    op.stage = LenStage::LoadTail;
                }
            },
            LenStage::Done => {},
        }
    }

    /// A handle by which to send this queue's iterator and stream a signal.
    pub fn sender(&self) -> (sender: Mutex<Sender<QueueState<T>>>)
        ensures
            handle_of(self.ends().0, sender),
    {
        handle_for(&self.temp_tx)
    }

    /// The signal that was sent and not yet looked at, if there is one.
    pub(crate) fn signal(&mut self) -> (signal: Option<QueueState<T>>)
        ensures
            received_at(old(self).ends().1.end(), signal),
            listened(old(self).ends().1, final(self).ends().1, seq![signal]),
            final(self).ends().0 == old(self).ends().0,
            final(self).mem() == old(self).mem(),
    {
        self.recv.look()
    }

    /// Takes the queue apart: walks from head to tail and hands out every value
    /// that is still in the queue, in order.
    pub fn into_remaining(self) -> (rest: Vec<T>)
        requires
            self.wf(),
        ensures
            rest@ == self@,
    {
        let ghost m = self.mem();
        let mut queue = self;
        let mut rest: Vec<T> = Vec::new();
        proof {
            lemma_index_bits(queue.head.index);
            lemma_index_bits(queue.tail.index);
            lemma_quiet_slots(m);
        }
        let mut head: usize = queue.head.index & !((1usize << SHIFT) - 1);
        let tail: usize = queue.tail.index & !((1usize << SHIFT) - 1);
        let mut chunk: Option<usize> = queue.head.chunk;
        while head != tail
            invariant
                quiet(m),
                queue.mem().chunks.len() == m.chunks.len(),
                tail == m.tail.index,
                !has_next(head),
                pos(m.head.index) <= pos(head) <= pos(tail),
                pos(head) < pos(tail) ==> chunk == Some(lap(pos(head)) as usize),
                forall|k: int|
                    0 <= k < m.chunks.len() ==> (#[trigger] queue.mem().chunks[k]).next
                        == m.chunks[k].next && queue.mem().chunks[k].slots.len()
                        == m.chunks[k].slots.len(),
                forall|p: int|
                    pos(head) <= p < pos(tail) && off(p) != 31 ==> #[trigger] queue.mem().slot(p)
                        == m.slot(p),
                forall|p: int|
                    pos(m.head.index) <= p < pos(m.tail.index) && off(p) != 31 ==> (
                    #[trigger] m.slot(p)).value == Some(m.pushed[num(p)]),
                rest@ == m.pushed.subrange(num(pos(m.head.index)), num(pos(head))),
            decreases tail - head,
        {
            proof {
                lemma_index_bits(head);
            }
            let offset: usize = (head >> SHIFT) % LAP;
            let c: usize = chunk.unwrap();
            let ghost before = queue.mem();
            let ghost p = pos(head);
            if offset < CHUNK_CAP {
                proof {
                    lemma_num_order(p, pos(tail));
                    assert(before.slot(p) == m.slot(p));
                    assert(before.chunks[c as int].slots.len() == m.chunks[c as int].slots.len());
                    assert(!m.chunks[c as int].ended);
                }
                match queue.chunks[c].slots[offset].value.take() {
                    Some(value) => {
                        rest.push(value);
                    },
                    None => {
                        assert(false);
                    },
                }
                proof {
                    let now = queue.mem();
                    assert(now.chunks =~~= before.with_slot(
                        p,
                        Slot { value: None, ..before.slot(p) },
                    ).chunks);
                    assert forall|q: int| p < q < pos(tail) && off(q) != 31 implies
                        #[trigger] now.slot(q) == m.slot(q) by {
                        assert(before.slot(q) == m.slot(q));
                        if lap(q) == lap(p) {
                            assert(off(q) != off(p));
                        }
                    }
                    assert forall|k: int| 0 <= k < m.chunks.len() implies (
                    #[trigger] now.chunks[k]).next == m.chunks[k].next
                        && now.chunks[k].slots.len() == m.chunks[k].slots.len() by {
                        assert(before.chunks[k].next == m.chunks[k].next);
                    }
                    assert(rest@ =~= m.pushed.subrange(
                        num(pos(m.head.index)),
                        num(p + 1),
                    ));
                }
            } else {
                proof {
                    assert(before.chunks[c as int].next == m.chunks[c as int].next);
                    lemma_quiet_links(m, c as int);
                }
                chunk = queue.chunks[c].next;
            }
            head = head.wrapping_add(1usize << SHIFT);
        }
        proof {
            assert(rest@ =~= items(m));
        }
        rest
    }

    /// Takes the value at the front of the queue. Fails if the queue is empty.
    pub fn pop(&mut self) -> (item: Result<T, ()>)
        requires
            old(self).wf(),
        ensures
            final(self).wf(),
            popped(old(self)@, final(self)@, item),
            final(self).ends() == old(self).ends(),
            final(self).mem().pushed == old(self).mem().pushed,
            final(self).mem().tail == old(self).mem().tail,
    {
        let ghost m0 = self.mem();
        let mut op = Self::start_pop();
        let mut done: bool = false;
        while !done
            invariant
                self.ends() == old(self).ends(),
                lone_pop(self.mem(), op).safe(),
                lone_pop(self.mem(), op).complete(),
                quiet(m0),
                m0.has_room(),
                pop_progress(m0, self.mem(), op),
                done == (op.stage is Done),
            decreases pop_rank(op.stage), 31 - op.scan,
        {
            let ghost s = lone_pop(self.mem(), op);
            assert(pop_ok(s.mem, s.pops[0]));
            self.pop_step(&mut op, false);
            proof {
                lemma_pop_keeps_safe(s, 0, false);
                lemma_pop_keeps_complete(s, 0, false);
                assert(s.step_pop(0, false) =~= lone_pop(self.mem(), op));
                lemma_pop_progress(m0, s.mem, s.pops[0]);
                assert(pop_ok(self.mem(), lone_pop(self.mem(), op).pops[0]));
            }
            done = match op.stage {
                PopStage::Done => true,
                _ => false,
            };
        }
        proof {
            lemma_pop_over(self.mem(), op);
            assert(pop_ok(self.mem(), lone_pop(self.mem(), op).pops[0]));
            if items(m0).len() == 0 {
                assert(items(self.mem()) =~= items(m0));
            } else {
                assert(items(self.mem()) =~= items(m0).skip(1));
            }
        }
        match op.item {
            Some(item) => Ok(item),
            None => Err(()),
        }
    }
}

/// The number of values between two index words.
pub fn length_between(tail: usize, head: usize) -> (count: usize)
    requires
        pos(head) <= pos(tail),
    ensures
        count == num(pos(tail)) - num(pos(head)),
{
    proof {
        lemma_index_bits(tail);
        lemma_index_bits(head);
    }
    // Erase the lower bits.
    let tail: usize = tail & !((1usize << SHIFT) - 1);
    let head: usize = head & !((1usize << SHIFT) - 1);
    proof {
        lemma_index_bits(tail);
        lemma_index_bits(head);
    }
    // Rotate the indices so that the head falls into the first chunk.
    let turn: usize = (head >> SHIFT) / LAP;
    let base: usize = turn * LAP;
    assert(base <= head / 2usize ==> base << 1usize == 2 * base) by (bit_vector);
    let tail: usize = tail.wrapping_sub(base << SHIFT);
    let head: usize = head.wrapping_sub(base << SHIFT);
    proof {
        lemma_index_bits(tail);
        lemma_index_bits(head);
    }
    // Remove the lower bits.
    let mut tail: usize = tail >> SHIFT;
    let mut head: usize = head >> SHIFT;
    // Fix up indices that fall onto end marks.
    if tail == CHUNK_CAP {
        tail = tail + 1;
    }
    if head == CHUNK_CAP {
        head = 0;
        tail = tail - LAP;
    }
    // The difference less the number of end marks in between.
    tail - head - tail / LAP
}

/// With nothing under way, every value between the ends is in its slot.
pub proof fn lemma_quiet_slots<T>(m: Mem<T>)
    requires
        quiet(m),
    ensures
        off(pos(m.head.index)) != 31,
        off(pos(m.tail.index)) != 31,
        pos(m.head.index) < pos(m.tail.index) ==> m.head.chunk == Some(
            lap(pos(m.head.index)) as usize,
        ),
        forall|p: int|
            pos(m.head.index) <= p < pos(m.tail.index) && off(p) != 31 ==> (#[trigger] m.slot(
                p,
            )).value == Some(m.pushed[num(p)]),
{
    let s = Sys { mem: m, pushes: Seq::<PushOp<T>>::empty(), pops: Seq::<PopOp<T>>::empty() };
    assert(!s.some_push_closes());
    assert(!s.some_pop_closes());
    assert(!s.some_push_publishes());
    assert forall|p: int|
        pos(m.head.index) <= p < pos(m.tail.index) && off(p) != 31 implies (#[trigger] m.slot(
        p,
    )).value == Some(m.pushed[num(p)]) by {
        assert(!s.some_push_claims(p));
    }
}

/// With nothing under way, every chunk that the head has left behind has been freed, and no
/// other.
pub proof fn law_finished_chunks_are_freed<T>(m: Mem<T>, k: int)
    requires
        quiet(m),
        0 <= k < m.chunks.len(),
    ensures
        m.chunks[k].ended <==> 32 * (k + 1) <= pos(m.head.index),
{
    let s = Sys { mem: m, pushes: Seq::<PushOp<T>>::empty(), pops: Seq::<PopOp<T>>::empty() };
    if 32 * (k + 1) <= pos(m.head.index) && !m.chunks[k].ended {
        assert(!s.some_pop_ends(k));
        let j = choose|j: int|
            0 <= j < 31 && (#[trigger] m.chunks[k].slots[j]).destroying()
                && !m.chunks[k].slots[j].read();
        assert(slot_ok(m, k, j));
        let p = 32 * k + j;
        assert(lap(p) == k && off(p) == j);
        assert(!m.slot(p).read());
        assert(!s.some_pop_reads(p));
    }
}

/// With nothing under way, every chunk but the last is linked to the next.
proof fn lemma_quiet_links<T>(m: Mem<T>, k: int)
    requires
        quiet(m),
        0 <= k < m.chunks.len() - 1,
    ensures
        m.chunks[k].next == Some((k + 1) as usize),
{
    let s = Sys { mem: m, pushes: Seq::<PushOp<T>>::empty(), pops: Seq::<PopOp<T>>::empty() };
    assert(!s.some_push_links(k));
}

/// A queue with nothing but one push under way.
spec fn lone_push<T>(m: Mem<T>, op: PushOp<T>) -> Sys<T> {
    Sys { mem: m, pushes: seq![op], pops: Seq::empty() }
}

/// A queue with nothing but one pop under way.
spec fn lone_pop<T>(m: Mem<T>, op: PopOp<T>) -> Sys<T> {
    Sys { mem: m, pushes: Seq::empty(), pops: seq![op] }
}

/// How many steps a push is from its end when nothing else is under way.
spec fn push_rank(stage: PushStage) -> nat {
    match stage {
        PushStage::LoadIndex => 11,
        PushStage::LoadChunk => 10,
        PushStage::Install => 9,
        PushStage::PublishHead => 8,
        PushStage::Advance => 7,
        PushStage::Reload => 12,
        PushStage::StoreTailChunk => 6,
        PushStage::StoreTailIndex => 5,
        PushStage::LinkNext => 4,
        PushStage::Write => 3,
        PushStage::Mark => 2,
        PushStage::Done => 1,
    }
}

/// Where a push of `item` onto `m0` has come when nothing else is under way.
spec fn push_progress<T>(m0: Mem<T>, item: T, m: Mem<T>, op: PushOp<T>) -> bool {
    &&& m.head.index == m0.head.index
    &&& if push_rank(op.stage) >= 7 {
        &&& m.pushed == m0.pushed
        &&& op.item == Some(item)
        &&& m.tail.index == m0.tail.index
        &&& off(pos(m.tail.index)) != 31
        &&& op.stage !is Reload
        &&& op.stage !is LoadIndex ==> op.tail == m.tail.index
        &&& op.stage is Install ==> m.tail.chunk is None
    } else {
        &&& m.pushed == m0.pushed.push(item)
        &&& op.tail == m0.tail.index
    }
}

/// Once its push is over, a queue is quiet again.
proof fn lemma_push_over<T>(m: Mem<T>, op: PushOp<T>)
    requires
        lone_push(m, op).safe(),
        lone_push(m, op).complete(),
        op.stage is Done,
    ensures
        quiet(m),
{
    let s = lone_push(m, op);
    let q = Sys { mem: m, pushes: Seq::<PushOp<T>>::empty(), pops: Seq::<PopOp<T>>::empty() };
    assert(s.pushes.len() == 1 && s.pushes[0] == op);
    assert(!s.some_push_closes());
    assert(!s.some_push_publishes());
    assert forall|p: int| !s.some_push_claims(p) by {}
    assert forall|k: int| !s.some_push_links(k) by {}
    assert(q.safe());
    assert(q.complete());
}

/// How near its end a pop is when nothing else is under way.
spec fn pop_rank(stage: PopStage) -> nat {
    match stage {
        PopStage::LoadIndex => 14,
        PopStage::LoadChunk => 13,
        PopStage::LoadTail => 12,
        PopStage::Advance => 11,
        PopStage::Reload => 15,
        PopStage::WaitNext => 10,
        PopStage::PeekNext => 9,
        PopStage::StoreHeadChunk => 8,
        PopStage::StoreHeadIndex => 7,
        PopStage::WaitWrite => 6,
        PopStage::Read => 5,
        PopStage::MarkRead => 4,
        PopStage::DestroyCheck => 3,
        PopStage::DestroyMark => 2,
        PopStage::Done => 1,
    }
}

/// Where a pop from `m0` has come when nothing else is under way.
spec fn pop_progress<T>(m0: Mem<T>, m: Mem<T>, op: PopOp<T>) -> bool {
    &&& m.pushed == m0.pushed
    &&& m.tail == m0.tail
    &&& if op.stage is Done && op.item is None {
        m.head.index == m0.head.index && items(m0).len() == 0
    } else if pop_rank(op.stage) >= 11 {
        &&& m.head.index == m0.head.index
        &&& off(pos(m.head.index)) != 31
        &&& op.stage !is Reload
        &&& op.stage !is LoadIndex ==> op.head == m.head.index
        &&& op.stage is LoadTail ==> op.chunk == m.head.chunk
    } else {
        &&& op.at() == pos(m0.head.index)
        &&& num(pos(m.head.index)) == num(pos(m0.head.index)) + 1
        &&& op.stage is DestroyMark ==> !m.chunks[op.chunk->0 as int].slots[op.scan as int].read()
    }
}

/// A pop alone on a queue never waits and never starts over.
proof fn lemma_pop_progress<T>(m0: Mem<T>, m: Mem<T>, op: PopOp<T>)
    requires
        quiet(m0),
        lone_pop(m, op).safe(),
        lone_pop(m, op).complete(),
        pop_progress(m0, m, op),
        op.stage !is Done,
    ensures
        ({
            let (m2, op2) = pop_next(m, op, false);
            &&& pop_progress(m0, m2, op2)
            &&& pop_rank(op2.stage) < pop_rank(op.stage) || (pop_rank(op2.stage) == pop_rank(
                op.stage,
            ) && op.scan < op2.scan <= 31)
        }),
{
    let s = lone_pop(m, op);
    let (m2, op2) = pop_next(m, op, false);
    assert(pop_ok(m, s.pops[0]));
    assert(!s.some_push_closes());
    assert(!s.some_push_publishes());
    assert forall|p: int| !s.some_push_claims(p) by {}
    assert forall|k: int| !s.some_push_links(k) by {}
    assert(m.chunks.len() > 0 ==> m.head.chunk is Some);
    if op.stage is WaitNext {
        assert(m.chunks[lap(op.at())].next is Some);
    }
    if op.stage is WaitWrite {
        assert(m.slot(op.at()).written());
    }
}

/// Once its pop is over, a queue is quiet again.
proof fn lemma_pop_over<T>(m: Mem<T>, op: PopOp<T>)
    requires
        lone_pop(m, op).safe(),
        lone_pop(m, op).complete(),
        op.stage is Done,
    ensures
        quiet(m),
{
    let s = lone_pop(m, op);
    let q = Sys { mem: m, pushes: Seq::<PushOp<T>>::empty(), pops: Seq::<PopOp<T>>::empty() };
    assert(s.pops.len() == 1 && s.pops[0] == op);
    assert(!s.some_push_closes());
    assert(!s.some_push_publishes());
    assert(!s.some_pop_closes());
    assert forall|p: int| !s.some_push_claims(p) by {}
    assert forall|k: int| !s.some_push_links(k) by {}
    assert(q.safe());
    assert(q.complete());
}

} // verus!
