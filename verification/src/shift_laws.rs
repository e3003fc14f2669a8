//! What pushes and pops of a linked queue come to, whatever other threads do meanwhile: a pop
//! gives up only on an empty queue, and a thread that is left alone gets through.

use vstd::prelude::*;

use crate::shift_model::{ShiftPopStage, ShiftPushStage};
use crate::shift_proof::{
    law_shift_event, lemma_chain, locking, took, unlinked, ShiftEvent, ShiftSys,
};

verus! {

/// A pop that is over, or about to leave, without a value found the queue empty at the moment
/// at which it made up its mind, whatever its step was.
pub proof fn law_gives_up_only_if_empty<T>(s: ShiftSys<T>, i: int)
    requires
        s.safe(),
        0 <= i < s.pops.len(),
        !(s.pops[i].result is None && (s.pops[i].stage is Leave || s.pops[i].stage is Done)),
        ({
            let pop = s.after(ShiftEvent::StepPop(i)).pops[i];
            pop.result is None && (pop.stage is Leave || pop.stage is Done)
        }),
    ensures
        s.rest() == Seq::<T>::empty(),
        s.given == s.taken,
{
    assert(s.pop_ok(i));
    assert(s.place_ok(s.pops[i].head as int));
    lemma_chain(s);
    assert(s.rest() =~= Seq::<T>::empty());
    assert(s.given =~= s.taken);
}

/// A pop that came to its end without a value while threads took their steps in any order: at
/// some moment in between, the queue was empty.
pub proof fn law_none_means_empty_meanwhile<T>(
    s: ShiftSys<T>,
    schedule: Seq<ShiftEvent<T>>,
    i: int,
) -> (k: int)
    requires
        s.safe(),
        s.allows_all(schedule),
        0 <= i < s.pops.len(),
        !(s.pops[i].result is None && (s.pops[i].stage is Leave || s.pops[i].stage is Done)),
        s.after_all(schedule).pops[i].stage is Done,
        s.after_all(schedule).pops[i].result is None,
    ensures
        0 <= k < schedule.len(),
        s.after_all(schedule.take(k)).rest() == Seq::<T>::empty(),
    decreases schedule.len(),
{
    assert(schedule.len() > 0);
    let s1 = s.after(schedule[0]);
    law_shift_event(s, schedule[0]);
    assert(schedule.take(0) =~= Seq::<ShiftEvent<T>>::empty());
    if s1.pops[i].result is None && (s1.pops[i].stage is Leave || s1.pops[i].stage is Done) {
        law_gives_up_only_if_empty(s, i);
        0
    } else {
        let k = law_none_means_empty_meanwhile(s1, schedule.skip(1), i);
        assert(schedule.take(k + 1).skip(1) =~= schedule.skip(1).take(k));
        assert(schedule.take(k + 1)[0] == schedule[0]);
        k + 1
    }
}

/// The queue after so many steps of one push, while all others stand still.
pub open spec fn push_alone<T>(s: ShiftSys<T>, i: int, steps: nat) -> ShiftSys<T>
    decreases steps,
{
    if steps == 0 {
        s
    } else {
        push_alone(s.after(ShiftEvent::StepPush(i)), i, (steps - 1) as nat)
    }
}

/// The queue after so many steps of one pop, while all others stand still.
pub open spec fn pop_alone<T>(s: ShiftSys<T>, i: int, steps: nat) -> ShiftSys<T>
    decreases steps,
{
    if steps == 0 {
        s
    } else {
        pop_alone(s.after(ShiftEvent::StepPop(i)), i, (steps - 1) as nat)
    }
}

/// The last node is linked, but the tail has not been moved to it.
spec fn tail_lags<T>(s: ShiftSys<T>) -> bool {
    s.tail_num < s.line.len() - 1
}

/// How many steps a push that reads the tail next is from its end.
spec fn push_from_tail<T>(s: ShiftSys<T>) -> nat {
    if tail_lags(s) {
        8
    } else {
        5
    }
}

/// How many steps a push is from its end, if it is left alone.
spec fn push_left<T>(s: ShiftSys<T>, i: int) -> nat {
    let op = s.pushes[i];
    match op.stage {
        ShiftPushStage::Enter => push_from_tail(s) + 1,
        ShiftPushStage::LoadTail => push_from_tail(s),
        ShiftPushStage::LoadNext => if op.tail == s.mem.tail {
            (push_from_tail(s) - 1) as nat
        } else {
            push_from_tail(s) + 2
        },
        ShiftPushStage::Help => if op.tail == s.mem.tail {
            6
        } else {
            push_from_tail(s) + 1
        },
        ShiftPushStage::Link => if s.mem.nodes[op.tail as int].next is None {
            3
        } else {
            push_from_tail(s) + 1
        },
        ShiftPushStage::Swing => 2,
        ShiftPushStage::Leave => 1,
        ShiftPushStage::Done => 0,
    }
}

proof fn lemma_push_left<T>(s: ShiftSys<T>, i: int)
    requires
        s.safe(),
        0 <= i < s.pushes.len(),
        s.pushes[i].stage is Enter ==> s.mem.users < usize::MAX,
        s.pushes[i].stage !is Done,
    ensures
        ({
            let s1 = s.after(ShiftEvent::StepPush(i));
            &&& push_left(s1, i) < push_left(s, i)
            &&& s1.pushes[i].stage !is Enter
            &&& s1.taken == s.taken
            &&& s1.pops == s.pops
            &&& s1.vals == s.vals
            &&& s1.pushes == s.pushes.update(i, s1.pushes[i])
            &&& unlinked(s.pushes[i]) && !unlinked(s1.pushes[i]) ==> s1.given == s.given.push(
                s.vals[i],
            )
            &&& unlinked(s.pushes[i]) == unlinked(s1.pushes[i]) ==> s1.given == s.given
            &&& unlinked(s1.pushes[i]) ==> unlinked(s.pushes[i])
        }),
{
    let op = s.pushes[i];
    assert(s.push_ok(i));
    assert(s.line_ok(s.tail_num));
    assert(s.place_ok(s.mem.tail as int));
    assert(s.line_ok(s.line.len() - 1));
    assert(s.place_ok(s.line.last() as int));
    assert(s.place_ok(op.new as int));
    if op.stage is LoadNext || op.stage is Link || op.stage is Help {
        assert(s.place_ok(op.tail as int));
    }
}

/// A push that is left alone comes to its end within a few steps, whatever the others were
/// about: its value is the last in the queue then, and nothing else has changed.
pub proof fn law_lone_push_ends<T>(s: ShiftSys<T>, i: int)
    requires
        s.safe(),
        0 <= i < s.pushes.len(),
        s.mem.users < usize::MAX,
    ensures
        ({
            let s2 = push_alone(s, i, 10);
            &&& s2.safe()
            &&& s2.pushes[i].stage is Done
            &&& s2.given == (if unlinked(s.pushes[i]) {
                s.given.push(s.vals[i])
            } else {
                s.given
            })
            &&& s2.taken == s.taken
            &&& s2.pops == s.pops
            &&& s2.pushes == s.pushes.update(i, s2.pushes[i])
        }),
{
    lemma_lone_push(s, i, 10);
}

proof fn lemma_lone_push<T>(s: ShiftSys<T>, i: int, steps: nat)
    requires
        s.safe(),
        0 <= i < s.pushes.len(),
        s.pushes[i].stage is Enter ==> s.mem.users < usize::MAX,
        push_left(s, i) <= steps,
    ensures
        ({
            let s2 = push_alone(s, i, steps);
            &&& s2.safe()
            &&& s2.pushes[i].stage is Done
            &&& s2.given == (if unlinked(s.pushes[i]) {
                s.given.push(s.vals[i])
            } else {
                s.given
            })
            &&& s2.taken == s.taken
            &&& s2.pops == s.pops
            &&& s2.pushes == s.pushes.update(i, s2.pushes[i])
        }),
    decreases steps,
{
    if steps == 0 {
        assert(s.pushes =~= s.pushes.update(i, s.pushes[i]));
    } else {
        let s1 = s.after(ShiftEvent::StepPush(i));
        law_shift_event(s, ShiftEvent::StepPush(i));
        if s.pushes[i].stage is Done {
            assert(s1 =~= s);
        } else {
            lemma_push_left(s, i);
        }
        lemma_lone_push(s1, i, (steps - 1) as nat);
        assert(push_alone(s, i, steps).pushes =~= s.pushes.update(
            i,
            push_alone(s, i, steps).pushes[i],
        ));
    }
}

/// There is a value in the queue, but the tail still is where the head is.
spec fn tail_at_head<T>(s: ShiftSys<T>) -> bool {
    s.tail_num == s.taken.len() && s.line.len() > s.taken.len() + 1
}

/// How many steps a pop that reads the head next is from having a value or being over.
spec fn pop_from_head<T>(s: ShiftSys<T>) -> nat {
    if tail_at_head(s) {
        9
    } else {
        5
    }
}

/// How many steps a pop is from having a value or being over, if it is left alone.
spec fn pop_left<T>(s: ShiftSys<T>, i: int) -> nat {
    let op = s.pops[i];
    match op.stage {
        ShiftPopStage::Enter => pop_from_head(s) + 1,
        ShiftPopStage::LoadHead => pop_from_head(s),
        ShiftPopStage::LoadTail => if op.head == s.mem.head {
            (pop_from_head(s) - 1) as nat
        } else {
            pop_from_head(s) + 3
        },
        ShiftPopStage::LoadNext => if op.head != s.mem.head {
            pop_from_head(s) + 2
        } else if op.head != op.tail || s.line.len() == s.taken.len() + 1 {
            3
        } else if op.tail == s.mem.tail {
            7
        } else {
            pop_from_head(s) + 2
        },
        ShiftPopStage::Help => if op.tail == s.mem.tail {
            6
        } else {
            pop_from_head(s) + 1
        },
        ShiftPopStage::Swing => if op.head == s.mem.head {
            2
        } else {
            pop_from_head(s) + 1
        },
        ShiftPopStage::Read => 1,
        ShiftPopStage::Leave => if op.result is None {
            1
        } else {
            0
        },
        _ => 0,
    }
}

/// The pop has not found out yet whether there is a value for it.
pub open spec fn searching(stage: ShiftPopStage) -> bool {
    match stage {
        ShiftPopStage::Enter => true,
        ShiftPopStage::LoadHead => true,
        ShiftPopStage::LoadTail => true,
        ShiftPopStage::LoadNext => true,
        ShiftPopStage::Help => true,
        ShiftPopStage::Swing => true,
        _ => false,
    }
}

proof fn lemma_pop_left<T>(s: ShiftSys<T>, i: int)
    requires
        s.safe(),
        0 <= i < s.pops.len(),
        s.pops[i].stage is Enter ==> s.mem.users < usize::MAX,
        pop_left(s, i) > 0,
    ensures
        ({
            let s1 = s.after(ShiftEvent::StepPop(i));
            &&& pop_left(s1, i) < pop_left(s, i)
            &&& s1.pops[i].stage !is Enter
            &&& s1.given == s.given
            &&& s1.pushes == s.pushes
            &&& s1.pops == s.pops.update(i, s1.pops[i])
            &&& searching(s.pops[i].stage) && searching(s1.pops[i].stage) ==> s1.taken == s.taken
            &&& searching(s.pops[i].stage) && !searching(s1.pops[i].stage) ==> if s.taken.len()
                < s.given.len() {
                s1.pops[i].stage is Read && s1.taken == s.taken.push(
                    s.given[s.taken.len() as int],
                ) && s1.got[i] == s.taken.len()
            } else {
                s1.pops[i].stage is Leave && s1.pops[i].result is None && s1.taken == s.taken
            }
            &&& s.pops[i].stage is Read ==> s1.pops[i].result == Some(s.taken[s.got[i]])
                && s1.taken == s.taken
            &&& !searching(s.pops[i].stage) ==> !searching(s1.pops[i].stage)
            &&& s.pops[i].stage is Leave ==> s1.pops[i].stage is Done && s1.pops[i].result is None
                && s1.taken == s.taken
        }),
{
    let op = s.pops[i];
    let first = s.taken.len() as int;
    assert(s.pop_ok(i));
    assert(s.line_ok(s.tail_num));
    assert(s.place_ok(s.mem.tail as int));
    assert(s.line_ok(first));
    assert(s.place_ok(s.mem.head as int));
    assert(s.place_ok(op.head as int));
    if s.line.len() > first + 1 {
        assert(s.line_ok(first + 1));
        assert(s.place_ok(s.line[first + 1] as int));
    }
}

/// A pop that is left alone while it looks for a value gets the first value in the queue
/// within a few steps, whatever the others were about, or is over with nothing if there is
/// none. Nothing else has changed.
pub proof fn law_lone_pop_gets_first<T>(s: ShiftSys<T>, i: int)
    requires
        s.safe(),
        0 <= i < s.pops.len(),
        searching(s.pops[i].stage),
        s.mem.users < usize::MAX,
    ensures
        exists|steps: nat| {
            let s2 = #[trigger] pop_alone(s, i, steps);
            &&& steps <= 12
            &&& s2.safe()
            &&& s2.given == s.given
            &&& s2.pushes == s.pushes
            &&& s2.pops == s.pops.update(i, s2.pops[i])
            &&& if s.rest().len() > 0 {
                &&& s2.pops[i].result == Some(s.rest()[0])
                &&& s2.rest() == s.rest().skip(1)
            } else {
                &&& s2.pops[i].stage is Done
                &&& s2.pops[i].result is None
                &&& s2.rest() == s.rest()
            }
        },
{
    let steps = lemma_lone_pop(s, i);
    let s2 = pop_alone(s, i, steps);
    lemma_chain(s);
    lemma_chain(s2);
    if s.rest().len() > 0 {
        assert(s2.rest() =~= s.rest().skip(1));
    }
}

/// A pop that is left alone comes to where it has a value or is over.
proof fn lemma_lone_pop<T>(s: ShiftSys<T>, i: int) -> (steps: nat)
    requires
        s.safe(),
        0 <= i < s.pops.len(),
        s.pops[i].stage is Enter ==> s.mem.users < usize::MAX,
    ensures
        steps <= pop_left(s, i),
        ({
            let s2 = pop_alone(s, i, steps);
            &&& s2.safe()
            &&& s2.given == s.given
            &&& s2.pushes == s.pushes
            &&& s2.pops == s.pops.update(i, s2.pops[i])
            &&& searching(s.pops[i].stage) ==> if s.taken.len() < s.given.len() {
                &&& s2.pops[i].result == Some(s.given[s.taken.len() as int])
                &&& s2.taken == s.taken.push(s.given[s.taken.len() as int])
            } else {
                &&& s2.pops[i].stage is Done
                &&& s2.pops[i].result is None
                &&& s2.taken == s.taken
            }
            &&& s.pops[i].stage is Read ==> {
                &&& s2.pops[i].result == Some(s.taken[s.got[i]])
                &&& s2.taken == s.taken
            }
            &&& s.pops[i].stage is Leave && s.pops[i].result is None ==> {
                &&& s2.pops[i].stage is Done
                &&& s2.pops[i].result is None
                &&& s2.taken == s.taken
            }
        }),
    decreases pop_left(s, i),
{
    assert(s.pop_ok(i));
    if pop_left(s, i) == 0 {
        assert(s.pops =~= s.pops.update(i, s.pops[i]));
        0
    } else {
        let s1 = s.after(ShiftEvent::StepPop(i));
        law_shift_event(s, ShiftEvent::StepPop(i));
        lemma_pop_left(s, i);
        let steps = lemma_lone_pop(s1, i);
        assert(pop_alone(s, i, steps + 1) == pop_alone(s1, i, steps));
        assert(pop_alone(s, i, steps + 1).pops =~= s.pops.update(
            i,
            pop_alone(s, i, steps + 1).pops[i],
        ));
        steps + 1
    }
}

/// How many steps a pop that has its value is from its end, if it is left alone and the guard
/// is not locked by another.
spec fn pop_tail<T>(s: ShiftSys<T>, i: int) -> nat {
    let op = s.pops[i];
    let kept = s.mem.guard.len() + s.mem.late.len();
    match op.stage {
        ShiftPopStage::Read => kept + 10,
        ShiftPopStage::Leave => kept + 9,
        ShiftPopStage::Lock => kept + 8,
        ShiftPopStage::Keep => kept + 7,
        ShiftPopStage::Look => kept + 6,
        ShiftPopStage::Defer => 2,
        ShiftPopStage::Clear => kept + 3,
        ShiftPopStage::FreeOld => 2,
        ShiftPopStage::Release => 1,
        _ => 0,
    }
}

proof fn lemma_pop_tail<T>(s: ShiftSys<T>, i: int) -> (steps: nat)
    requires
        s.safe(),
        0 <= i < s.pops.len(),
        !searching(s.pops[i].stage),
        s.mem.locked ==> s.holder == i,
    ensures
        steps <= pop_tail(s, i),
        pop_alone(s, i, steps).safe(),
        pop_alone(s, i, steps).pops[i].stage is Done,
        pop_alone(s, i, steps).given == s.given,
        pop_alone(s, i, steps).taken == s.taken,
        s.pops[i].stage !is Read ==> pop_alone(s, i, steps).pops[i].result == s.pops[i].result,
    decreases pop_tail(s, i),
{
    assert(s.pop_ok(i));
    if s.pops[i].stage is Done {
        0
    } else {
        let s1 = s.after(ShiftEvent::StepPop(i));
        law_shift_event(s, ShiftEvent::StepPop(i));
        assert(s1.pop_ok(i));
        let steps = lemma_pop_tail(s1, i);
        assert(pop_alone(s, i, steps + 1) == pop_alone(s1, i, steps));
        steps + 1
    }
}

/// A pop that has its value is over soon if it is left alone, unless another pop has locked the
/// guard; what it gives, and what is in the queue, does not change any more.
pub proof fn law_lone_pop_ends<T>(s: ShiftSys<T>, i: int)
    requires
        s.safe(),
        0 <= i < s.pops.len(),
        !searching(s.pops[i].stage),
        s.mem.locked ==> locking(s.pops[i]),
    ensures
        exists|steps: nat| {
            let s2 = #[trigger] pop_alone(s, i, steps);
            &&& steps <= s.mem.guard.len() + s.mem.late.len() + 10
            &&& s2.pops[i].stage is Done
            &&& s2.rest() == s.rest()
            &&& s.pops[i].result is Some ==> s2.pops[i].result == s.pops[i].result
        },
{
    assert(s.pop_ok(i));
    let steps = lemma_pop_tail(s, i);
    lemma_chain(s);
    lemma_chain(pop_alone(s, i, steps));
}

/// What a pop that has taken the head off does with the old head. It goes into the guard if
/// there is room. If there is none, it waits beside the guard only while others are among the
/// nodes; if nobody is, it is freed, with all that were kept.
pub proof fn law_old_head_put_away<T>(s: ShiftSys<T>, i: int)
    requires
        s.safe(),
        0 <= i < s.pops.len(),
        s.pops[i].stage is Keep || s.pops[i].stage is Look,
    ensures
        ({
            let s1 = s.after(ShiftEvent::StepPop(i));
            let old = s.pops[i].head;
            &&& s.pops[i].stage is Keep && s.mem.guard.len() < s.mem.cap ==> {
                &&& s1.mem.guard == s.mem.guard.push(old)
                &&& s1.pops[i].stage is Release
            }
            &&& s.pops[i].stage is Keep && s.mem.guard.len() >= s.mem.cap ==> {
                &&& s1.mem == s.mem
                &&& s1.pops[i].stage is Look
            }
            &&& s.pops[i].stage is Look && s.mem.users > 0 ==> {
                let s2 = s1.after(ShiftEvent::StepPop(i));
                &&& s2.mem.late == s.mem.late.push(old)
                &&& s2.pops[i].stage is Release
            }
        }),
        s.pops[i].stage is Look && s.mem.users == 0 ==> exists|steps: nat| {
            let s2 = #[trigger] pop_alone(s, i, steps);
            &&& s2.pops[i].stage is Done
            &&& s2.mem.guard.len() == 0
            &&& s2.mem.late.len() == 0
            &&& s2.mem.free.len() == s.mem.free.len() + s.mem.guard.len() + s.mem.late.len() + 1
            &&& !s2.mem.nodes[s.pops[i].head as int].live
        },
{
    assert(s.pop_ok(i));
    if s.pops[i].stage is Look && s.mem.users == 0 {
        let s1 = s.after(ShiftEvent::StepPop(i));
        law_shift_event(s, ShiftEvent::StepPop(i));
        let steps = lemma_clears(s1, i);
        assert(pop_alone(s, i, steps + 1) == pop_alone(s1, i, steps));
    }
}

/// A pop that clears the guard empties it.
proof fn lemma_clears<T>(s: ShiftSys<T>, i: int) -> (steps: nat)
    requires
        s.safe(),
        0 <= i < s.pops.len(),
        s.pops[i].stage is Clear,
    ensures
        ({
            let s2 = pop_alone(s, i, steps);
            &&& s2.pops[i].stage is Done
            &&& s2.mem.guard.len() == 0
            &&& s2.mem.late.len() == 0
            &&& s2.mem.free.len() == s.mem.free.len() + s.mem.guard.len() + s.mem.late.len() + 1
            &&& !s2.mem.nodes[s.pops[i].head as int].live
        }),
    decreases s.mem.guard.len() + s.mem.late.len(),
{
    assert(s.pop_ok(i));
    let s1 = s.after(ShiftEvent::StepPop(i));
    law_shift_event(s, ShiftEvent::StepPop(i));
    assert(s1.pop_ok(i));
    if s.mem.guard.len() + s.mem.late.len() == 0 {
        let s2 = s1.after(ShiftEvent::StepPop(i));
        law_shift_event(s1, ShiftEvent::StepPop(i));
        let s3 = s2.after(ShiftEvent::StepPop(i));
        reveal_with_fuel(pop_alone, 4);
        assert(pop_alone(s, i, 3) == s3);
        3
    } else {
        let steps = lemma_clears(s1, i);
        assert(pop_alone(s, i, steps + 1) == pop_alone(s1, i, steps));
        steps + 1
    }
}

/// A push takes up a new place only if none is free, and nothing is in the queue that was not
/// there before until its node is linked.
pub proof fn law_free_places_come_first<T>(s: ShiftSys<T>, val: T)
    requires
        s.safe(),
        s.mem.has_place(),
    ensures
        ({
            let s1 = s.after(ShiftEvent::BeginPush(val));
            &&& s.mem.free.len() > 0 ==> s1.mem.nodes.len() == s.mem.nodes.len()
                && s1.mem.free.len() == s.mem.free.len() - 1
            &&& s.mem.free.len() == 0 ==> s1.mem.nodes.len() == s.mem.nodes.len() + 1
                && s1.mem.free.len() == 0
            &&& s1.pushes.len() == s.pushes.len() + 1
            &&& s1.vals == s.vals.push(val)
            &&& s1.given == s.given
            &&& s1.rest() == s.rest()
            &&& s1.pops == s.pops
            &&& unlinked(s1.pushes.last())
        }),
{
    law_shift_event(s, ShiftEvent::BeginPush(val));
    lemma_chain(s);
    lemma_chain(s.after(ShiftEvent::BeginPush(val)));
}

/// A step changes what is in the queue in one way alone: a push adds its own value at the end,
/// once, and a pop takes the first value, once. What all others are about stays as it was.
pub proof fn law_steps_move_one_value<T>(s: ShiftSys<T>, i: int, j: int)
    requires
        s.safe(),
    ensures
        0 <= i < s.pushes.len() ==> {
            let s1 = s.after(ShiftEvent::StepPush(i));
            &&& s1.taken == s.taken
            &&& if unlinked(s.pushes[i]) && !unlinked(s1.pushes[i]) {
                s1.given == s.given.push(s.vals[i])
            } else {
                s1.given == s.given && unlinked(s1.pushes[i]) == unlinked(s.pushes[i])
            }
            &&& s1.pops == s.pops
            &&& 0 <= j < s.pushes.len() && j != i ==> s1.pushes[j] == s.pushes[j]
            &&& s.pushes[i].stage is Done ==> s1 == s
        },
        0 <= i < s.pops.len() ==> {
            let s1 = s.after(ShiftEvent::StepPop(i));
            &&& s1.given == s.given
            &&& if took(s1.pops[i]) && !took(s.pops[i]) {
                s.rest().len() > 0 && s1.taken == s.taken.push(s.rest()[0])
            } else {
                s1.taken == s.taken && took(s1.pops[i]) == took(s.pops[i])
            }
            &&& s.pops[i].result is Some ==> s1.pops[i].result == s.pops[i].result
            &&& s1.pushes == s.pushes
            &&& 0 <= j < s.pops.len() && j != i ==> s1.pops[j] == s.pops[j]
            &&& s.pops[i].stage is Done ==> s1 == s
        },
{
    lemma_chain(s);
    if 0 <= i < s.pushes.len() {
        assert(s.push_ok(i));
        assert(s.place_ok(s.pushes[i].new as int));
        law_shift_event(s, ShiftEvent::StepPush(i));
        if s.pushes[i].stage is Done {
            assert(s.pushes.update(i, s.pushes[i]) =~= s.pushes);
        }
    }
    if 0 <= i < s.pops.len() {
        assert(s.pop_ok(i));
        assert(s.line_ok(s.taken.len() as int));
        assert(s.place_ok(s.mem.head as int));
        law_shift_event(s, ShiftEvent::StepPop(i));
        if s.pops[i].stage is Swing && s.mem.head == s.pops[i].head {
            assert(s.line_ok(s.taken.len() as int + 1));
            assert(s.place_ok(s.pops[i].next as int));
        }
        if s.pops[i].stage is Done {
            assert(s.pops.update(i, s.pops[i]) =~= s.pops);
        }
    }
}

/// A pop that begins has no value, and changes nothing.
pub proof fn law_pop_begins<T>(s: ShiftSys<T>)
    requires
        s.safe(),
    ensures
        ({
            let s1 = s.after(ShiftEvent::BeginPop);
            &&& s1.mem == s.mem
            &&& s1.pops.len() == s.pops.len() + 1
            &&& searching(s1.pops.last().stage)
            &&& s1.pops.last().result is None
            &&& s1.pushes == s.pushes
            &&& s1.given == s.given
            &&& s1.taken == s.taken
        }),
{
}

} // verus!
