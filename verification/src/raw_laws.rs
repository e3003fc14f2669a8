//! What locking, trying, marking and unlocking a raw mutex come to, whatever other threads do
//! meanwhile.

use vstd::prelude::*;

use crate::raw_model::{
    is_contended, is_locked, raw_wish, RawStage, RawWish, TOKEN_HANDOFF,
};
use crate::raw_proof::{law_raw_event, RawEvent, RawSys};

verus! {

/// What thread `i` is to do after its next step.
pub open spec fn wish_of(s: RawSys, i: int, spurious: bool) -> RawWish {
    raw_wish(s.mem, s.ops[i], i, spurious)
}

/// The mutex after so many steps of one thread, while all others stand still and no change of
/// the state fails for no reason.
pub open spec fn raw_alone(s: RawSys, i: int, fair: bool, steps: nat) -> RawSys
    decreases steps,
{
    if steps == 0 {
        s
    } else {
        raw_alone(s.after(RawEvent::Step(i, false, fair)), i, fair, (steps - 1) as nat)
    }
}

/// A thread is told to wake up another exactly if it has just unparked that one: no sleeper
/// leaves the queue without being woken up, and nobody else is woken up. Nobody but the thread
/// itself is put to sleep.
pub proof fn law_unparked_are_woken(s: RawSys, i: int, spurious: bool, fair: bool, t: int)
    requires
        s.safe(),
        0 <= i < s.ops.len(),
        0 <= t < s.ops.len(),
    ensures
        ({
            let s1 = s.after(RawEvent::Step(i, spurious, fair));
            let wish = wish_of(s, i, spurious);
            &&& s.mem.asleep[t] && !s1.mem.asleep[t] <==> wish == RawWish::Wake(t as usize)
            &&& s.mem.queue.contains(t as usize) && !s1.mem.queue.contains(t as usize) <==> wish
                == RawWish::Wake(t as usize)
            &&& !s.mem.asleep[t] && s1.mem.asleep[t] ==> t == i
            &&& s1.mem.tokens[t] != s.mem.tokens[t] ==> wish == RawWish::Wake(t as usize)
        }),
        wish_of(s, i, spurious) matches RawWish::Wake(u) ==> u < s.ops.len(),
{
    let s1 = s.after(RawEvent::Step(i, spurious, fair));
    assert(s.op_ok(i));
    let queue = s.mem.queue;
    if queue.len() > 0 {
        assert(s.queued(0));
    }
    if s.ops[i].stage is UnlockSlow && queue.len() > 0 {
        if queue.contains(t as usize) {
            let q = choose|q: int| 0 <= q < queue.len() && queue[q] == t as usize;
            if q > 0 {
                assert(queue.skip(1)[q - 1] == t as usize);
            }
        }
        if queue.skip(1).contains(t as usize) {
            let q = choose|q: int| 0 <= q < queue.len() - 1 && queue.skip(1)[q] == t as usize;
            assert(queue[q + 1] == t as usize);
        }
    } else if s.ops[i].stage is Park {
        if queue.contains(t as usize) {
            let q = choose|q: int| 0 <= q < queue.len() && queue[q] == t as usize;
            assert(queue.push(i as usize)[q] == t as usize);
        }
    }
}

/// A thread is told to sleep exactly while it is in the queue.
pub proof fn law_sleeps_while_queued(s: RawSys, i: int, spurious: bool)
    requires
        s.safe(),
        0 <= i < s.ops.len(),
    ensures
        wish_of(s, i, spurious) is Sleep <==> s.mem.queue.contains(i as usize),
{
    assert(s.op_ok(i));
    if s.mem.queue.contains(i as usize) {
        let q = choose|q: int| 0 <= q < s.mem.queue.len() && s.mem.queue[q] == i as usize;
        assert(s.queued(q));
    }
}

/// A thread that sleeps stays as it is, and so does the mutex, until another unparks it.
pub proof fn law_sleeper_waits(s: RawSys, i: int, spurious: bool, fair: bool)
    requires
        s.safe(),
        0 <= i < s.ops.len(),
        s.mem.queue.contains(i as usize),
    ensures
        s.after(RawEvent::Step(i, spurious, fair)) == s,
{
    let q = choose|q: int| 0 <= q < s.mem.queue.len() && s.mem.queue[q] == i as usize;
    assert(s.queued(q));
    assert(s.ops.update(i, s.ops[i]) =~= s.ops);
}

/// The thread tries to lock and does not wait.
pub open spec fn trying(stage: RawStage) -> bool {
    stage is TryLoad || stage is TryAcquire
}

/// A try ends without the mutex only if the mutex is locked at that moment, and with it only if
/// it was not; and then nothing but the locked bit has changed.
pub proof fn law_try_fails_only_if_locked(s: RawSys, i: int, spurious: bool, fair: bool)
    requires
        s.safe(),
        0 <= i < s.ops.len(),
        trying(s.ops[i].stage),
    ensures
        ({
            let s1 = s.after(RawEvent::Step(i, spurious, fair));
            let stage = s1.ops[i].stage;
            &&& trying(stage) || stage is Idle || stage is Held
            &&& stage is Idle ==> is_locked(s.mem.state)
            &&& is_locked(s.mem.state) ==> stage is Idle
            &&& stage is Held ==> !is_locked(s.mem.state) && s1.mem.state == s.mem.state + 1
            &&& stage !is Held ==> s1.mem == s.mem
            &&& s1.mem.queue == s.mem.queue
            &&& wish_of(s, i, spurious) is Go
        }),
{
    assert(s.op_ok(i));
}

/// A thread that tries for a mutex that is not locked, and is left alone, has it after two
/// steps; if the mutex is locked, the thread is done at once and nothing has changed.
pub proof fn law_lone_try(s: RawSys, i: int, fair: bool)
    requires
        s.safe(),
        0 <= i < s.ops.len(),
        s.ops[i].stage is Idle,
    ensures
        ({
            let s1 = s.after(RawEvent::TryLock(i));
            let s2 = raw_alone(s1, i, fair, 2);
            &&& !is_locked(s.mem.state) ==> {
                &&& s2.ops[i].stage is Held
                &&& s2.mem.state == s.mem.state + 1
            }
            &&& is_locked(s.mem.state) ==> {
                &&& s2.ops[i].stage is Idle
                &&& s2.mem == s.mem
            }
            &&& s2.mem.queue == s.mem.queue
        }),
{
    reveal_with_fuel(raw_alone, 3);
}

/// Wherever a try has got to, it is over within two steps if it is left alone, with the mutex
/// exactly if the mutex was not locked.
pub proof fn law_lone_try_ends(s: RawSys, i: int, fair: bool)
    requires
        s.safe(),
        0 <= i < s.ops.len(),
        trying(s.ops[i].stage),
    ensures
        ({
            let s2 = raw_alone(s, i, fair, 2);
            &&& s2.ops[i].stage is Held <==> !is_locked(s.mem.state)
            &&& s2.ops[i].stage is Idle <==> is_locked(s.mem.state)
        }),
{
    assert(s.op_ok(i));
    reveal_with_fuel(raw_alone, 3);
}

/// A thread spins before it parks, ten times in all. Its spins begin anew with every lock, and
/// each one is counted. It spins only while the mutex is locked and nobody is parked, and asks to
/// be counted among the parked only once its spins are used up; where others are parked, it
/// parks without a spin.
pub proof fn law_spins_before_it_parks(s: RawSys, i: int, spurious: bool, fair: bool)
    requires
        s.safe(),
        0 <= i < s.ops.len(),
    ensures
        ({
            let (op, state) = (s.ops[i], s.mem.state);
            let op1 = s.after(RawEvent::Step(i, spurious, fair)).ops[i];
            let reads = op.stage is Load || (op.stage is Acquire || op.stage is SetParked) && (
            spurious || op.state != state);
            &&& op.stage is Fast && op1.stage !is Held ==> op1.stage is Load && op1.wait.counter
                == 0
            &&& reads ==> {
                &&& op1.state == state
                &&& state % 2 == 0 ==> op1.stage is Acquire && op1.wait == op.wait
                &&& state == 1 && op.wait.counter < 10 ==> op1.stage is Load && op1.wait.counter
                    == op.wait.counter + 1
                &&& state == 1 && op.wait.counter >= 10 ==> op1.stage is SetParked && op1.wait
                    == op.wait
                &&& state == 3 ==> op1.stage is Park && op1.wait == op.wait
            }
            &&& (op.stage is Park || op.stage is Parked) && op1.stage is Load ==> op1.wait.counter
                == (if op.wait.counter < 10 {
                op.wait.counter + 1
            } else {
                op.wait.counter as int
            })
        }),
{
    assert(s.op_ok(i));
}

/// The thread wants the mutex and waits for it.
pub open spec fn wanting(stage: RawStage) -> bool {
    match stage {
        RawStage::Fast => true,
        RawStage::Load => true,
        RawStage::Acquire => true,
        RawStage::SetParked => true,
        RawStage::Park => true,
        RawStage::Parked => true,
        _ => false,
    }
}

/// A thread that wants the mutex never gives up. It gets the mutex by a step only if the mutex
/// was not locked, and then sets the locked bit alone; or if it was handed over to it, and then
/// changes nothing.
pub proof fn law_lock_never_gives_up(s: RawSys, i: int, spurious: bool, fair: bool)
    requires
        s.safe(),
        0 <= i < s.ops.len(),
        wanting(s.ops[i].stage),
    ensures
        ({
            let s1 = s.after(RawEvent::Step(i, spurious, fair));
            let stage = s1.ops[i].stage;
            &&& wanting(stage) || stage is Held
            &&& stage is Held && !s.holds(i) ==> {
                &&& !is_locked(s.mem.state)
                &&& s1.mem.state == s.mem.state + 1
                &&& s1.mem.queue == s.mem.queue
            }
            &&& s.holds(i) ==> stage is Held && s1.mem == s.mem
            &&& stage !is Held ==> is_locked(s1.mem.state) == is_locked(s.mem.state)
            &&& is_contended(s.mem.state) ==> is_contended(s1.mem.state)
            &&& is_contended(s1.mem.state) && !is_contended(s.mem.state) ==> is_locked(s.mem.state)
        }),
{
    assert(s.op_ok(i));
}

/// A thread that wants a mutex which is not locked, and does not sleep, has it within four
/// steps if it is left alone.
pub proof fn law_lone_lock(s: RawSys, i: int, fair: bool)
    requires
        s.safe(),
        0 <= i < s.ops.len(),
        wanting(s.ops[i].stage),
        !s.mem.asleep[i] || s.ops[i].stage !is Parked,
        !is_locked(s.mem.state),
    ensures
        ({
            let s2 = raw_alone(s, i, fair, 4);
            &&& s2.ops[i].stage is Held
            &&& s2.mem.state == s.mem.state + 1
            &&& s2.mem.queue == s.mem.queue
        }),
{
    assert(s.op_ok(i));
    reveal_with_fuel(raw_alone, 5);
}

/// A thread that wants a mutex which is locked, and does not sleep, is parked at the end of the
/// queue within so many steps if it is left alone: it spins a few times first if nobody is
/// parked. The mutex stays locked.
pub proof fn law_lone_waiter_parks(s: RawSys, i: int, fair: bool)
    requires
        s.safe(),
        0 <= i < s.ops.len(),
        wanting(s.ops[i].stage),
        s.ops[i].stage !is Parked || (!s.mem.asleep[i] && !s.holds(i)),
        is_locked(s.mem.state),
        s.ops[i].wait.counter <= 10,
    ensures
        ({
            let s2 = raw_alone(s, i, fair, 30);
            &&& s2.mem.queue == s.mem.queue.push(i as usize)
            &&& s2.mem.asleep[i]
            &&& s2.mem.state == 3
            &&& wish_of(s2, i, false) is Sleep
        }),
{
    assert(s.op_ok(i));
    lemma_waiter_parks(s, i, fair, 30);
}

/// How many steps a thread that waits for a locked mutex is from being parked.
spec fn steps_to_park(s: RawSys, i: int) -> nat {
    let op = s.ops[i];
    let spins = if op.wait.counter <= 10 {
        (10 - op.wait.counter) as nat
    } else {
        0
    };
    match op.stage {
        RawStage::Fast => 16,
        RawStage::Load => spins + 4,
        RawStage::Acquire => spins + 5,
        RawStage::SetParked => if op.state == s.mem.state {
            2
        } else {
            spins + 5
        },
        RawStage::Park => if s.mem.state == 3 {
            1
        } else {
            spins + 5
        },
        RawStage::Parked => if s.mem.asleep[i] {
            0
        } else {
            spins + 5
        },
        _ => 0,
    }
}

proof fn lemma_waiter_parks(s: RawSys, i: int, fair: bool, steps: nat)
    requires
        s.safe(),
        0 <= i < s.ops.len(),
        wanting(s.ops[i].stage),
        !s.holds(i),
        s.ops[i].stage is Parked ==> !s.mem.asleep[i],
        is_locked(s.mem.state),
        s.ops[i].wait.counter <= 10,
        steps_to_park(s, i) <= steps,
    ensures
        ({
            let s2 = raw_alone(s, i, fair, steps);
            &&& s2.mem.queue == s.mem.queue.push(i as usize)
            &&& s2.mem.asleep[i]
            &&& s2.mem.state == 3
            &&& wish_of(s2, i, false) is Sleep
        }),
    decreases steps,
{
    let s1 = s.after(RawEvent::Step(i, false, fair));
    law_raw_event(s, RawEvent::Step(i, false, fair));
    assert(s.op_ok(i));
    assert(s1.op_ok(i));
    if s1.ops[i].stage is Parked && s1.mem.asleep[i] {
        lemma_sleeps_on(s1, i, fair, (steps - 1) as nat);
    } else {
        assert(steps_to_park(s1, i) < steps_to_park(s, i));
        lemma_waiter_parks(s1, i, fair, (steps - 1) as nat);
    }
}

proof fn lemma_sleeps_on(s: RawSys, i: int, fair: bool, steps: nat)
    requires
        s.safe(),
        0 <= i < s.ops.len(),
        s.ops[i].stage is Parked,
        s.mem.asleep[i],
    ensures
        raw_alone(s, i, fair, steps) == s,
    decreases steps,
{
    if steps > 0 {
        assert(s.op_ok(i));
        law_sleeper_waits(s, i, false, fair);
        lemma_sleeps_on(s, i, fair, (steps - 1) as nat);
    }
}

/// A thread that unlocks is done after two steps, whatever the others were about. If nobody is
/// parked, the mutex is all clear. Else the one that has been parked for longest is unparked,
/// and told that the mutex is its own if the unlock is fair; if not, the mutex is unlocked, and
/// its state says whether more threads are parked.
pub proof fn law_unlock(s: RawSys, i: int, fair: bool)
    requires
        s.safe(),
        0 <= i < s.ops.len(),
        s.ops[i].stage is Held,
    ensures
        ({
            let s2 = raw_alone(s.after(RawEvent::Unlock(i)), i, fair, 2);
            &&& s2.ops[i].stage is Idle
            &&& s.mem.queue.len() == 0 ==> s2.mem.state == 0 && s2.mem.asleep == s.mem.asleep
                && s2.mem.tokens == s.mem.tokens
            &&& s.mem.queue.len() > 0 ==> {
                let t = s.mem.queue[0] as int;
                &&& s2.mem.queue == s.mem.queue.skip(1)
                &&& !s2.mem.asleep[t]
                &&& s2.holds(t) == fair
                &&& is_locked(s2.mem.state) == fair
                &&& is_contended(s2.mem.state) == (s.mem.queue.len() > 1)
                &&& fair <==> s2.mem.tokens[t] == TOKEN_HANDOFF
            }
            &&& forall|j: int|
                0 <= j < s.ops.len() && j != i ==> #[trigger] s2.ops[j] == s.ops[j]
        }),
{
    let s1 = s.after(RawEvent::Unlock(i));
    law_raw_event(s, RawEvent::Unlock(i));
    assert(s1.op_ok(i));
    reveal_with_fuel(raw_alone, 3);
    if s.mem.queue.len() > 0 {
        assert(s.queued(0));
    }
}

/// Marking sets the parked bit of a locked mutex and leaves one that is not locked alone, and
/// says which it was.
pub proof fn law_lone_mark(s: RawSys, i: int, fair: bool)
    requires
        s.safe(),
        0 <= i < s.ops.len(),
        s.ops[i].stage is Idle,
    ensures
        ({
            let s2 = raw_alone(s.after(RawEvent::Mark(i)), i, fair, 2);
            &&& s2.ops[i].stage is Idle
            &&& s2.ops[i].marked == is_locked(s.mem.state)
            &&& is_locked(s2.mem.state) == is_locked(s.mem.state)
            &&& is_contended(s2.mem.state) == (is_contended(s.mem.state) || is_locked(s.mem.state))
            &&& s2.mem.queue == s.mem.queue
            &&& s2.mem.asleep == s.mem.asleep
        }),
{
    assert(s.op_ok(i));
    reveal_with_fuel(raw_alone, 3);
}

/// A thread that marks is done only with the right answer: the mutex was locked and has its
/// parked bit set, or it was not locked and nothing has changed.
pub proof fn law_mark_says_what_it_found(s: RawSys, i: int, spurious: bool, fair: bool)
    requires
        s.safe(),
        0 <= i < s.ops.len(),
        s.ops[i].stage is MarkLoad || s.ops[i].stage is Mark,
    ensures
        ({
            let s1 = s.after(RawEvent::Step(i, spurious, fair));
            let op = s1.ops[i];
            &&& op.stage is MarkLoad || op.stage is Mark || op.stage is Idle
            &&& op.stage is Idle ==> op.marked == is_locked(s.mem.state)
            &&& op.stage is Idle && op.marked ==> is_contended(s1.mem.state) && is_locked(
                s1.mem.state,
            )
            &&& !(op.stage is Idle && op.marked) ==> s1.mem == s.mem
            &&& !is_locked(s.mem.state) ==> op.stage is Idle
        }),
{
    assert(s.op_ok(i));
}

/// A step of one thread leaves what all others are about as it was; and a thread that has the
/// mutex, or is idle, does nothing by itself.
pub proof fn law_raw_step_is_ones_own(s: RawSys, i: int, spurious: bool, fair: bool, j: int)
    requires
        s.safe(),
        0 <= i < s.ops.len(),
        0 <= j < s.ops.len(),
    ensures
        ({
            let s1 = s.after(RawEvent::Step(i, spurious, fair));
            &&& j != i ==> s1.ops[j] == s.ops[j]
            &&& s.ops[i].stage is Held || s.ops[i].stage is Idle ==> s1.mem == s.mem
                && s1.ops[i] == s.ops[i] && wish_of(s, i, spurious) is Go
        }),
{
}

/// A thread that begins something changes nothing by that but what it is about.
pub proof fn law_raw_beginnings(s: RawSys, i: int)
    requires
        s.safe(),
        0 <= i < s.ops.len(),
    ensures
        wanting(s.after(RawEvent::Lock(i)).ops[i].stage),
        trying(s.after(RawEvent::TryLock(i)).ops[i].stage),
        s.ops[i].stage is Held ==> s.after(RawEvent::Unlock(i)).holds(i) && s.after(
            RawEvent::Unlock(i),
        ).ops[i].stage !is Held,
        s.after(RawEvent::Lock(i)).mem == s.mem,
        s.after(RawEvent::TryLock(i)).mem == s.mem,
        s.after(RawEvent::Unlock(i)).mem == s.mem,
        s.after(RawEvent::Mark(i)).mem == s.mem,
        forall|j: int|
            0 <= j < s.ops.len() && j != i ==> #[trigger] s.after(RawEvent::Lock(i)).ops[j]
                == s.ops[j],
{
}

/// The processor is yielded by each spin from the fourth to the tenth, and by nothing else.
pub proof fn law_later_spins_yield(s: RawSys, i: int, spurious: bool, fair: bool)
    requires
        s.safe(),
        0 <= i < s.ops.len(),
    ensures
        ({
            let (op, op1) = (s.ops[i], s.after(RawEvent::Step(i, spurious, fair)).ops[i]);
            wish_of(s, i, spurious) is Yield <==> wanting(op.stage) && op.stage !is Fast
                && op1.stage is Load && 3 <= op.wait.counter < 10
        }),
{
    assert(s.op_ok(i));
}

/// The processor is yielded only by a thread that waits and has changed nothing, and that is
/// about to read the state again.
pub proof fn law_yields_only_while_waiting(s: RawSys, i: int, spurious: bool, fair: bool)
    requires
        s.safe(),
        0 <= i < s.ops.len(),
        wish_of(s, i, spurious) is Yield,
    ensures
        ({
            let s1 = s.after(RawEvent::Step(i, spurious, fair));
            &&& wanting(s.ops[i].stage)
            &&& s1.mem == s.mem
            &&& s1.ops[i].stage is Load
            &&& 3 <= s.ops[i].wait.counter < 10
            &&& s1.ops[i].wait.counter == s.ops[i].wait.counter + 1
        }),
{
    assert(s.op_ok(i));
}

} // verus!
