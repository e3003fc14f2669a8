//! What pushes, pops and counts of a chunked queue come to: a thread that is left alone gets
//! through, and does to the values what it should.

use vstd::prelude::*;

use crate::chunk::{has_next, lap, lemma_num_order, num, off, pos};
use crate::co_model::{
    len_next, pop_next, pop_yields, push_next, push_yields, LenOp, Mem, PopOp, PopStage, PushOp,
    PushStage,
};
use crate::co_proof::{
    mem_ok, pop_claims, pop_closes, pop_ok, pop_owns, push_closes, push_ok, push_owns,
};
use crate::co_queue::items;
use crate::interleave::{law_event_keeps_wf, Event, Run};

verus! {

/// The queue after so many steps of one push, while all others stand still and no claim fails
/// for no reason.
pub open spec fn push_alone<T>(r: Run<T>, i: int, steps: nat) -> Run<T>
    decreases steps,
{
    if steps == 0 {
        r
    } else {
        push_alone(r.after(Event::StepPush(i, false)), i, (steps - 1) as nat)
    }
}

/// The queue after so many steps of one pop, while all others stand still and no claim fails
/// for no reason.
pub open spec fn pop_alone<T>(r: Run<T>, i: int, steps: nat) -> Run<T>
    decreases steps,
{
    if steps == 0 {
        r
    } else {
        pop_alone(r.after(Event::StepPop(i, false)), i, (steps - 1) as nat)
    }
}

/// How many steps a push is from its end, if it is left alone.
spec fn push_left<T>(m: Mem<T>, op: PushOp<T>) -> nat {
    let fresh = op.tail == m.tail.index;
    match op.stage {
        PushStage::LoadIndex => 10,
        PushStage::LoadChunk => if fresh {
            9
        } else {
            13
        },
        PushStage::Reload => if fresh {
            9
        } else {
            13
        },
        PushStage::Install => if m.tail.chunk is Some {
            11
        } else if fresh {
            8
        } else {
            12
        },
        PushStage::PublishHead => if fresh {
            7
        } else {
            11
        },
        PushStage::Advance => if fresh {
            6
        } else {
            10
        },
        PushStage::StoreTailChunk => 5,
        PushStage::StoreTailIndex => 4,
        PushStage::LinkNext => 3,
        PushStage::Write => 2,
        PushStage::Mark => 1,
        PushStage::Done => 0,
    }
}

proof fn lemma_push_left<T>(m: Mem<T>, op: PushOp<T>)
    requires
        !has_next(m.tail.index),
        push_ok(m, op),
        m.has_room_for(1),
        op.stage !is Done,
        off(pos(m.tail.index)) != 31 || push_closes(op),
    ensures
        ({
            let (m1, op1) = push_next(m, op, false);
            &&& push_left(m1, op1) < push_left(m, op)
            &&& off(pos(m1.tail.index)) != 31 || push_closes(op1)
            &&& m1.head.index == m.head.index
            &&& push_owns(op) ==> push_owns(op1) && m1.pushed == m.pushed
            &&& !push_owns(op) && !push_owns(op1) ==> m1.pushed == m.pushed && m1.tail.index
                == m.tail.index
            &&& !push_owns(op) && push_owns(op1) ==> m1.pushed == m.pushed.push(op.item->0)
            &&& !push_owns(op) && push_owns(op1) ==> m1.tail.index == m.tail.index + 2
            &&& push_owns(op) && !push_closes(op) ==> m1.tail.index == m.tail.index
                && !push_closes(op1)
            &&& op.stage is StoreTailChunk ==> m1.tail.index == m.tail.index
            &&& op.stage is StoreTailIndex ==> m1.tail.index == m.tail.index + 2 && !push_closes(
                op1,
            )
        }),
{
}

/// A push that is left alone comes to its end within a few steps, unless another push is between
/// two chunks: its value is the last that was pushed then, and nothing else has changed.
pub proof fn law_lone_push_ends<T>(r: Run<T>, i: int)
    requires
        r.wf(),
        0 <= i < r.sys.pushes.len(),
        r.sys.mem.has_room_for(2),
        off(pos(r.sys.mem.tail.index)) != 31 || push_closes(r.sys.pushes[i]),
    ensures
        ({
            let r2 = push_alone(r, i, 13);
            &&& r2.wf()
            &&& r2.sys.pushes[i].stage is Done
            &&& r2.sys.mem.pushed == (if push_owns(r.sys.pushes[i]) {
                r.sys.mem.pushed
            } else {
                r.sys.mem.pushed.push(r.given[i])
            })
            &&& r2.sys.mem.head.index == r.sys.mem.head.index
            &&& r2.sys.pops == r.sys.pops
            &&& r2.sys.pushes == r.sys.pushes.update(i, r2.sys.pushes[i])
        }),
{
    assert(push_ok(r.sys.mem, r.sys.pushes[i]));
    lemma_lone_push(r, i, 13, r.sys.mem.tail.index as int);
}

proof fn lemma_lone_push<T>(r: Run<T>, i: int, steps: nat, from: int)
    requires
        r.wf(),
        0 <= i < r.sys.pushes.len(),
        from + 12 <= usize::MAX,
        r.sys.mem.tail.index <= (if !push_owns(r.sys.pushes[i]) {
            from
        } else if push_closes(r.sys.pushes[i]) {
            from + 2
        } else {
            from + 4
        }),
        off(pos(r.sys.mem.tail.index)) != 31 || push_closes(r.sys.pushes[i]),
        push_left(r.sys.mem, r.sys.pushes[i]) <= steps,
    ensures
        ({
            let r2 = push_alone(r, i, steps);
            &&& r2.wf()
            &&& r2.sys.pushes[i].stage is Done
            &&& r2.sys.mem.pushed == (if push_owns(r.sys.pushes[i]) {
                r.sys.mem.pushed
            } else {
                r.sys.mem.pushed.push(r.given[i])
            })
            &&& r2.sys.mem.head.index == r.sys.mem.head.index
            &&& r2.sys.pops == r.sys.pops
            &&& r2.sys.pushes == r.sys.pushes.update(i, r2.sys.pushes[i])
        }),
    decreases steps,
{
    if steps == 0 {
        assert(r.sys.pushes =~= r.sys.pushes.update(i, r.sys.pushes[i]));
    } else {
        let r1 = r.after(Event::StepPush(i, false));
        law_event_keeps_wf(r, Event::StepPush(i, false));
        if r.sys.pushes[i].stage is Done {
            assert(r1.sys.pushes =~= r.sys.pushes);
        } else {
            assert(push_ok(r.sys.mem, r.sys.pushes[i]));
            assert(r.push_kept(i));
            lemma_push_left(r.sys.mem, r.sys.pushes[i]);
        }
        lemma_lone_push(r1, i, (steps - 1) as nat, from);
        let r2 = push_alone(r, i, steps);
        assert(r2.sys.pushes =~= r.sys.pushes.update(i, r2.sys.pushes[i]));
    }
}

/// The pop has not found out yet whether there is a value for it.
pub open spec fn searching(stage: PopStage) -> bool {
    match stage {
        PopStage::LoadIndex => true,
        PopStage::LoadChunk => true,
        PopStage::LoadTail => true,
        PopStage::Advance => true,
        PopStage::Reload => true,
        _ => false,
    }
}

/// No push is under way, and no other pop is between two chunks.
pub open spec fn only_pop<T>(r: Run<T>, i: int) -> bool {
    &&& forall|j: int|
        0 <= j < r.sys.pushes.len() ==> (#[trigger] r.sys.pushes[j]).stage is Done
    &&& forall|j: int|
        0 <= j < r.sys.pops.len() && j != i ==> !pop_closes(#[trigger] r.sys.pops[j])
}

/// How many steps a pop is from its end, if it is left alone.
spec fn pop_left<T>(m: Mem<T>, op: PopOp<T>) -> nat {
    let fresh = op.head == m.head.index;
    match op.stage {
        PopStage::LoadIndex => 74,
        PopStage::LoadChunk => if fresh {
            73
        } else {
            76
        },
        PopStage::Reload => if fresh {
            73
        } else {
            76
        },
        PopStage::LoadTail => if fresh && (op.chunk is Some || op.at() == pos(m.tail.index)) {
            72
        } else {
            75
        },
        PopStage::Advance => if fresh {
            71
        } else {
            74
        },
        PopStage::WaitNext => 70,
        PopStage::PeekNext => 69,
        PopStage::StoreHeadChunk => 68,
        PopStage::StoreHeadIndex => 67,
        PopStage::WaitWrite => 66,
        PopStage::Read => 65,
        PopStage::MarkRead => 64,
        PopStage::DestroyCheck => if op.scan <= 30 {
            (2 * (31 - op.scan) + 1) as nat
        } else {
            1
        },
        PopStage::DestroyMark => if op.scan <= 30 {
            (2 * (31 - op.scan)) as nat
        } else {
            0
        },
        PopStage::Done => 0,
    }
}

proof fn lemma_pop_left<T>(r: Run<T>, i: int)
    requires
        r.wf(),
        0 <= i < r.sys.pops.len(),
        r.sys.pops[i].stage !is Done,
        only_pop(r, i),
    ensures
        ({
            let r1 = r.after(Event::StepPop(i, false));
            let (op, op1) = (r.sys.pops[i], r1.sys.pops[i]);
            let (m, m1) = (r.sys.mem, r1.sys.mem);
            &&& pop_left(m1, op1) < pop_left(m, op)
            &&& r1.sys.pushes == r.sys.pushes
            &&& r1.sys.pops == r.sys.pops.update(i, op1)
            &&& m1.pushed == m.pushed
            &&& m1.tail == m.tail
            &&& !searching(op.stage) ==> !searching(op1.stage) && op1.at() == op.at() && num(
                pos(m1.head.index),
            ) == num(pos(m.head.index))
            &&& searching(op.stage) && searching(op1.stage) ==> m1.head.index == m.head.index
            &&& searching(op.stage) && !searching(op1.stage) ==> if items(m).len() == 0 {
                op1.stage is Done && op1.item is None && m1.head.index == m.head.index
            } else {
                op1.at() == pos(m.head.index) && num(pos(m1.head.index)) == num(
                    pos(m.head.index),
                ) + 1 && pop_claims(op1)
            }
        }),
{
    let s = r.sys;
    let (m, op) = (s.mem, s.pops[i]);
    assert(pop_ok(m, op));
    assert(mem_ok(m));
    assert(!s.some_push_closes());
    assert(!s.some_push_publishes());
    assert forall|p: int| !s.some_push_claims(p) by {}
    assert forall|k: int| !s.some_push_links(k) by {}
    assert(off(pos(m.tail.index)) != 31);
    if off(pos(m.head.index)) == 31 {
        assert(s.some_pop_closes());
        assert(pop_closes(op));
    }
    if pos(m.head.index) < pos(m.tail.index) && off(pos(m.head.index)) != 31 {
        lemma_num_order(pos(m.head.index), pos(m.tail.index));
    }
    if pop_closes(op) {
        let k = lap(op.at());
        assert(m.chunks[k].next is None ==> k == m.chunks.len() - 1);
        assert(pos(m.tail.index) >= pos(m.head.index));
    }
    if op.stage is WaitWrite {
        assert(m.slot(op.at()).written());
    }
}

/// A pop that is left alone while no push is under way comes to its end: it gives the first
/// value in the queue and takes it out, or nothing if there is none. Nothing else has changed.
pub proof fn law_lone_pop_ends<T>(r: Run<T>, i: int)
    requires
        r.wf(),
        0 <= i < r.sys.pops.len(),
        only_pop(r, i),
    ensures
        ({
            let r2 = pop_alone(r, i, 76);
            let (m, m2) = (r.sys.mem, r2.sys.mem);
            &&& r2.wf()
            &&& r2.sys.pops[i].stage is Done
            &&& m2.pushed == m.pushed
            &&& r2.sys.pushes == r.sys.pushes
            &&& r2.sys.pops == r.sys.pops.update(i, r2.sys.pops[i])
            &&& searching(r.sys.pops[i].stage) ==> if items(m).len() == 0 {
                r2.sys.pops[i].item is None && items(m2) == items(m)
            } else {
                r2.sys.pops[i].item == Some(items(m)[0]) && items(m2) == items(m).skip(1)
            }
            &&& pop_owns(r.sys.pops[i]) ==> r2.sys.pops[i].item == Some(
                m.pushed[num(r.sys.pops[i].at())],
            ) && items(m2) == items(m)
        }),
{
    let (m, op) = (r.sys.mem, r.sys.pops[i]);
    assert(pop_ok(m, op));
    lemma_lone_pop(r, i, 76);
    let m2 = pop_alone(r, i, 76).sys.mem;
    assert(mem_ok(m));
    if searching(op.stage) && items(m).len() > 0 {
        assert(items(m2) =~= items(m).skip(1));
    }
}

#[verifier::rlimit(40)]
#[verifier::spinoff_prover]
proof fn lemma_lone_pop<T>(r: Run<T>, i: int, steps: nat)
    requires
        r.wf(),
        0 <= i < r.sys.pops.len(),
        only_pop(r, i),
        pop_left(r.sys.mem, r.sys.pops[i]) <= steps,
    ensures
        ({
            let r2 = pop_alone(r, i, steps);
            let (m, m2) = (r.sys.mem, r2.sys.mem);
            let (op, op2) = (r.sys.pops[i], r2.sys.pops[i]);
            &&& r2.wf()
            &&& op2.stage is Done
            &&& m2.pushed == m.pushed
            &&& r2.sys.pushes == r.sys.pushes
            &&& r2.sys.pops == r.sys.pops.update(i, op2)
            &&& searching(op.stage) ==> if items(m).len() == 0 {
                op2.item is None && m2.head.index == m.head.index
            } else {
                &&& op2.item == Some(m.pushed[num(pos(m.head.index))])
                &&& num(pos(m2.head.index)) == num(pos(m.head.index)) + 1
            }
            &&& pop_owns(op) ==> op2.item == Some(m.pushed[num(op.at())])
            &&& !searching(op.stage) ==> num(pos(m2.head.index)) == num(pos(m.head.index))
            &&& op.stage is Done ==> m2.head.index == m.head.index && op2 == op
        }),
    decreases steps,
{
    let op = r.sys.pops[i];
    assert(pop_ok(r.sys.mem, op));
    if op.stage is Done {
        lemma_done_stays(r, i, steps);
        assert(r.sys.pops =~= r.sys.pops.update(i, op));
    } else {
        let r1 = r.after(Event::StepPop(i, false));
        law_event_keeps_wf(r, Event::StepPop(i, false));
        lemma_pop_left(r, i);
        assert forall|j: int| 0 <= j < r1.sys.pops.len() && j != i implies !pop_closes(
            #[trigger] r1.sys.pops[j],
        ) by {
            assert(r1.sys.pops[j] == r.sys.pops[j]);
        }
        assert(pop_ok(r1.sys.mem, r1.sys.pops[i]));
        lemma_lone_pop(r1, i, (steps - 1) as nat);
        let r2 = pop_alone(r, i, steps);
        assert(r2.sys.pops =~= r.sys.pops.update(i, r2.sys.pops[i]));
    }
}

proof fn lemma_done_stays<T>(r: Run<T>, i: int, steps: nat)
    requires
        0 <= i < r.sys.pops.len(),
        r.sys.pops[i].stage is Done,
    ensures
        pop_alone(r, i, steps) == r,
    decreases steps,
{
    if steps > 0 {
        assert(r.after(Event::StepPop(i, false)) =~= r);
        lemma_done_stays(r, i, (steps - 1) as nat);
    }
}

/// A step changes what is in the queue in one way alone: a push adds its own value at the end,
/// once, and a pop takes the first value, once. What all others are about stays as it was.
pub proof fn law_steps_move_one_value<T>(r: Run<T>, i: int, j: int, spurious: bool)
    requires
        r.wf(),
    ensures
        0 <= i < r.sys.pushes.len() && r.sys.mem.has_room_for(1) ==> {
            let r1 = r.after(Event::StepPush(i, spurious));
            let (op, op1) = (r.sys.pushes[i], r1.sys.pushes[i]);
            &&& items(r1.sys.mem) == (if push_owns(op1) && !push_owns(op) {
                items(r.sys.mem).push(r.given[i])
            } else {
                items(r.sys.mem)
            })
            &&& push_owns(op) ==> push_owns(op1)
            &&& r1.sys.pops == r.sys.pops
            &&& 0 <= j < r.sys.pushes.len() && j != i ==> r1.sys.pushes[j] == r.sys.pushes[j]
            &&& op.stage is Done ==> r1.sys.mem == r.sys.mem && op1 == op
        },
        0 <= i < r.sys.pops.len() ==> {
            let r1 = r.after(Event::StepPop(i, spurious));
            let (op, op1) = (r.sys.pops[i], r1.sys.pops[i]);
            &&& if pop_owns(op1) && !pop_owns(op) {
                items(r.sys.mem).len() > 0 && items(r1.sys.mem) == items(r.sys.mem).skip(1)
            } else {
                items(r1.sys.mem) == items(r.sys.mem)
            }
            &&& pop_owns(op) ==> pop_owns(op1)
            &&& op.item is Some ==> op1.item == op.item
            &&& r1.sys.pushes == r.sys.pushes
            &&& 0 <= j < r.sys.pops.len() && j != i ==> r1.sys.pops[j] == r.sys.pops[j]
            &&& op.stage is Done ==> r1.sys.mem == r.sys.mem && op1 == op
        },
{
    let m = r.sys.mem;
    assert(mem_ok(m));
    if 0 <= i < r.sys.pushes.len() && m.has_room_for(1) {
        assert(push_ok(m, r.sys.pushes[i]));
        assert(r.push_kept(i));
        lemma_push_moves_one(m, r.sys.pushes[i], r.given[i], spurious);
    }
    if 0 <= i < r.sys.pops.len() {
        assert(pop_ok(m, r.sys.pops[i]));
        lemma_pop_moves_one(m, r.sys.pops[i], spurious);
    }
}

proof fn lemma_push_moves_one<T>(m: Mem<T>, op: PushOp<T>, item: T, spurious: bool)
    requires
        push_ok(m, op),
        !push_owns(op) ==> op.item == Some(item),
        num(pos(m.head.index)) <= m.pushed.len(),
    ensures
        ({
            let (m1, op1) = push_next(m, op, spurious);
            &&& items(m1) == (if push_owns(op1) && !push_owns(op) {
                items(m).push(item)
            } else {
                items(m)
            })
            &&& push_owns(op) ==> push_owns(op1)
            &&& op.stage is Done ==> m1 == m && op1 == op
        }),
{
    let (m1, op1) = push_next(m, op, spurious);
    if push_owns(op1) && !push_owns(op) {
        assert(items(m1) =~= items(m).push(item));
    }
}

proof fn lemma_pop_moves_one<T>(m: Mem<T>, op: PopOp<T>, spurious: bool)
    requires
        pos(m.head.index) <= pos(m.tail.index),
        m.pushed.len() == num(pos(m.tail.index)),
        !has_next(m.tail.index),
        has_next(m.head.index) ==> lap(pos(m.head.index)) < lap(pos(m.tail.index)),
        pop_ok(m, op),
    ensures
        ({
            let (m1, op1) = pop_next(m, op, spurious);
            &&& if pop_owns(op1) && !pop_owns(op) {
                items(m).len() > 0 && items(m1) == items(m).skip(1)
            } else {
                items(m1) == items(m)
            }
            &&& pop_owns(op) ==> pop_owns(op1)
            &&& op.item is Some ==> op1.item == op.item
            &&& op.stage is Done ==> m1 == m && op1 == op
        }),
{
    let (m1, op1) = pop_next(m, op, spurious);
    if pop_owns(op1) && !pop_owns(op) {
        lemma_num_order(pos(m.head.index), pos(m.tail.index));
        assert(items(m1) =~= items(m).skip(1));
    }
}

/// A count that nobody disturbs is over after three reads and gives the number of values in the
/// queue.
pub proof fn law_lone_count<T>(r: Run<T>)
    requires
        r.wf(),
    ensures
        ({
            let m = r.sys.mem;
            let op = len_next(m, len_next(m, len_next(m, LenOp::start())));
            op.stage is Done && op.count == items(m).len()
        }),
{
    assert(mem_ok(r.sys.mem));
}

/// A count that is over stays as it is.
pub proof fn law_count_is_kept<T>(m: Mem<T>, op: LenOp)
    requires
        op.stage is Done,
    ensures
        len_next(m, op) == op,
{
}

/// A push or a pop asks for the processor to be yielded only where it has to wait for another
/// and has changed nothing.
pub proof fn law_yields_only_while_waiting<T>(r: Run<T>, i: int, spurious: bool)
    requires
        r.wf(),
    ensures
        0 <= i < r.sys.pushes.len() && push_yields(r.sys.mem, r.sys.pushes[i]) ==> {
            let r1 = r.after(Event::StepPush(i, spurious));
            &&& r1.sys.mem == r.sys.mem
            &&& r1.sys.pushes[i].stage is LoadIndex
        },
        0 <= i < r.sys.pops.len() && pop_yields(r.sys.mem, r.sys.pops[i]) ==> {
            let r1 = r.after(Event::StepPop(i, spurious));
            &&& r1.sys.mem == r.sys.mem
            &&& r1.sys.pops[i].stage is LoadIndex || r1.sys.pops[i].stage == r.sys.pops[i].stage
            &&& r1.sys.pops[i].item == r.sys.pops[i].item
        },
{
}

/// The step of a backoff after one more nap.
pub open spec fn after_nap(step: int) -> int {
    if step <= 10 {
        step + 1
    } else {
        step
    }
}

/// A push that finds the tail between two chunks naps and begins anew. Every nap is counted, and
/// so is every claim that failed; the processor is yielded by naps that come after seven steps
/// and by nothing else. A chunk that stands by stays so until it is put in.
pub proof fn law_push_naps<T>(r: Run<T>, i: int, spurious: bool)
    requires
        r.wf(),
        0 <= i < r.sys.pushes.len(),
    ensures
        ({
            let (op, op1) = (r.sys.pushes[i], r.after(Event::StepPush(i, spurious)).sys.pushes[i]);
            let from = if op.stage is Reload && op.backoff.step <= 6 {
                op.backoff.step + 1
            } else {
                op.backoff.step as int
            };
            let naps = (op.stage is LoadChunk || op.stage is Reload) && op1.stage is LoadIndex;
            &&& naps <==> (op.stage is LoadChunk || op.stage is Reload) && off(pos(op.tail)) == 31
            &&& op1.backoff.step == (if naps {
                after_nap(from)
            } else {
                from
            })
            &&& push_yields(r.sys.mem, op) <==> naps && from > 6
            &&& op.spare && op.stage !is StoreTailChunk ==> op1.spare
            &&& op.stage is Install && op1.stage is LoadIndex ==> op1.spare
        }),
{
    assert(push_ok(r.sys.mem, r.sys.pushes[i]));
}

/// A pop that finds the head between two chunks, or no chunk yet, naps and begins anew; one that
/// waits for the next chunk or for its value naps and looks again. Every nap is counted, and so
/// is every claim that failed; the processor is yielded by naps that come after seven steps and by
/// nothing else. Each wait begins anew.
pub proof fn law_pop_naps<T>(r: Run<T>, i: int, spurious: bool)
    requires
        r.wf(),
        0 <= i < r.sys.pops.len(),
    ensures
        ({
            let (op, op1) = (r.sys.pops[i], r.after(Event::StepPop(i, spurious)).sys.pops[i]);
            let from = if op.stage is Reload && op.backoff.step <= 6 {
                op.backoff.step + 1
            } else {
                op.backoff.step as int
            };
            let naps = op1.stage is LoadIndex;
            let waits = op1.stage is WaitNext || op1.stage is WaitWrite;
            let stays = waits && op1.stage == op.stage;
            &&& op1.backoff.step == (if naps {
                after_nap(from)
            } else {
                from
            })
            &&& stays ==> op1.wait.step == after_nap(op.wait.step as int)
            &&& waits && !stays ==> op1.wait.step == 0
            &&& pop_yields(r.sys.mem, op) <==> naps && from > 6 || stays && op.wait.step > 6
        }),
{
    assert(pop_ok(r.sys.mem, r.sys.pops[i]));
}

/// A pop that is about to claim moves the head on by one place, and notes there that there is
/// another chunk behind if it knows so: if that was noted before, or if the tail that it has read
/// is in another chunk. One that goes on to the next chunk notes whether there is one behind that.
pub proof fn law_head_notes_next_chunk<T>(r: Run<T>, i: int, spurious: bool)
    requires
        r.wf(),
        0 <= i < r.sys.pops.len(),
    ensures
        ({
            let (m, op) = (r.sys.mem, r.sys.pops[i]);
            let op1 = r.after(Event::StepPop(i, spurious)).sys.pops[i];
            &&& op1.stage is Advance ==> pos(op1.new_head) == pos(op.head) + 1
            &&& op1.stage is Advance && op.stage is LoadTail ==> (has_next(op1.new_head) <==> lap(
                pos(op.head),
            ) != lap(pos(m.tail.index)))
            &&& op.stage is PeekNext ==> pos(op1.next_head) == pos(op.head) + 2 && (has_next(
                op1.next_head,
            ) <==> m.chunks[op.next->0 as int].next is Some)
        }),
{
    assert(pop_ok(r.sys.mem, r.sys.pops[i]));
}

/// What begins has done nothing yet.
pub proof fn law_beginnings<T>(r: Run<T>, item: T)
    requires
        r.wf(),
    ensures
        ({
            let r1 = r.after(Event::BeginPush(item));
            &&& r1.sys.mem == r.sys.mem
            &&& r1.given == r.given.push(item)
            &&& !push_owns(r1.sys.pushes.last())
            &&& r1.sys.pushes.last().backoff.step == 0
            &&& r1.sys.pushes.last().item == Some(item)
            &&& r1.sys.pushes.len() == r.sys.pushes.len() + 1
            &&& r1.sys.pops == r.sys.pops
        }),
        ({
            let r1 = r.after(Event::BeginPop);
            &&& r1.sys.mem == r.sys.mem
            &&& searching(r1.sys.pops.last().stage)
            &&& r1.sys.pops.last().item is None
            &&& r1.sys.pops.last().backoff.step == 0
            &&& r1.sys.pops.len() == r.sys.pops.len() + 1
            &&& r1.sys.pushes == r.sys.pushes
        }),
{
}

/// The room for pushes is what the tail index can still be moved on by: four for each push, and
/// four more that stay.
pub proof fn law_room<T>(m: Mem<T>, pushes: nat)
    ensures
        m.has_room_for(0) <==> m.tail.index <= usize::MAX - 4,
        m.has_room_for(1) <==> m.tail.index <= usize::MAX - 8,
        m.has_room_for(pushes + 1) <==> m.tail.index + 4 * pushes <= usize::MAX - 8,
        m.has_room_for(pushes + 1) ==> m.has_room_for(pushes),
{
}

/// Positions and chunks: every chunk has thirty-one places for values, and one position more
/// that holds none; the values below a position are counted so.
pub proof fn law_positions(p: int, index: usize)
    requires
        p >= 0,
    ensures
        num(0) == 0,
        num(p + 1) == num(p) + (if (p + 1) % 32 == 0 {
            0int
        } else {
            1
        }),
        0 <= off(p) < 32,
        32 * lap(p) + off(p) == p,
        2 * pos(index) + (if has_next(index) {
            1int
        } else {
            0
        }) == index,
{
}

} // verus!
