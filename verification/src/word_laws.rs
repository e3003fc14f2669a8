//! What locking and unlocking a word-sized lock come to, whatever other threads do meanwhile.

use vstd::prelude::*;

use crate::word_lock::{roused, WordEvent, WordLock};
use crate::word_model::{
    locked, queue_head, queue_locked, scan_chain, with_queue_head, word_wish, Waiter, Wish,
    WordStage,
};
use crate::word_proof::{
    filled_in, lemma_index_of, lemma_queue_fits, lemma_scan_chain, lemma_step_keeps_safe, WordSys,
};

verus! {

/// What thread `i` is to do after its next step.
pub open spec fn wish_of(s: WordSys, i: int, spurious: bool) -> Wish {
    word_wish(s.mem, s.ops[i], i, spurious)
}

/// Whether the thread is to sleep until it is woken up.
pub open spec fn to_sleep(s: WordSys, i: int) -> bool {
    s.mem.waiters[i].parker.futex != 0
}

/// The lock after so many steps of one thread, while all others stand still and no change of
/// the word fails for no reason.
pub open spec fn word_alone(s: WordSys, i: int, steps: nat) -> WordSys
    decreases steps,
{
    if steps == 0 {
        s
    } else {
        word_alone(s.after(WordEvent::Step(i, false)), i, (steps - 1) as nat)
    }
}

/// A word says whether the lock is held, whether its queue is, and which waiter is at the front
/// of the queue, and nothing else.
pub proof fn law_word_parts(word: usize, waiter: usize)
    requires
        4 * (waiter + 2) <= usize::MAX,
    ensures
        word == (if locked(word) {
            1int
        } else {
            0
        }) + (if queue_locked(word) {
            2int
        } else {
            0
        }) + (match queue_head(word) {
            Some(head) => 4 * (head + 1),
            None => 0,
        }),
        ({
            let longer = with_queue_head(word, waiter as int) as usize;
            &&& queue_head(longer) == Some(waiter)
            &&& locked(longer) == locked(word)
            &&& queue_locked(longer) == queue_locked(word)
        }),
{
}

/// What the lock and the records come to is the word and the records.
pub proof fn law_word_mem_is_what_is_there(lock: WordLock, waiters: Seq<Waiter>)
    ensures
        lock.mem(waiters).word == lock.word(),
        lock.mem(waiters).waiters == waiters,
{
}

/// A thread is told to wake up another exactly if it has just marked that one as woken up; and
/// nobody but the thread itself is made to sleep.
pub proof fn law_marked_are_woken(s: WordSys, i: int, spurious: bool, t: int)
    requires
        s.safe(),
        0 <= i < s.ops.len(),
        0 <= t < s.ops.len(),
    ensures
        ({
            let s1 = s.after(WordEvent::Step(i, spurious));
            &&& to_sleep(s, t) && !to_sleep(s1, t) <==> wish_of(s, i, spurious) == Wish::Wake(
                t as usize,
            )
            &&& !to_sleep(s, t) && to_sleep(s1, t) ==> t == i
        }),
        wish_of(s, i, spurious) matches Wish::Wake(u) ==> u < s.ops.len(),
{
    assert(s.op_ok(i));
    if s.ops[i].stage is Scan {
        let j = choose|j: int|
            0 <= j <= s.mark && #[trigger] s.queue[j] == queue_head(s.ops[i].state)->0;
        lemma_scan_found(s, j);
    } else if s.ops[i].stage is TakeTail {
        assert(s.queued(s.mark));
    }
}

/// Following the queue from a waiter before the mark leaves the words to sleep on alone.
proof fn lemma_scan_found(s: WordSys, j: int)
    requires
        s.safe(),
        0 <= j <= s.mark < s.queue.len(),
    ensures
        ({
            let (links, tail) = scan_chain(
                s.mem.waiters,
                s.queue[j],
                s.mem.waiters.len(),
            );
            &&& links.len() == s.mem.waiters.len()
            &&& tail == s.queue.last()
            &&& 0 <= s.queue.last() < s.ops.len()
            &&& 0 <= s.queue[j] < s.ops.len()
            &&& forall|t: int|
                0 <= t < s.ops.len() ==> (#[trigger] links[t]).parker == s.mem.waiters[t].parker
            &&& links[s.queue.last()].prev is None <==> j == s.queue.len() - 1
        }),
{
    assert(s.queued(j));
    assert(s.queued(s.queue.len() - 1));
    lemma_queue_fits(s);
    assert(s.mem.waiters =~= Seq::new(s.ops.len(), |k: int| filled_in(s, j, j, k)));
    lemma_scan_chain(s, s.mem.waiters, j, j, s.mem.waiters.len());
    let last = s.queue.len() - 1;
    lemma_index_of(s, last);
    assert(s.queue.contains(s.queue.last()));
}

/// A thread that waits in the queue is told to sleep. One that is told to sleep waits in the
/// queue, or has been taken off it by a thread that is about to wake it up.
pub proof fn law_sleeps_while_queued(s: WordSys, i: int, spurious: bool)
    requires
        s.safe(),
        s.live(),
        0 <= i < s.ops.len(),
    ensures
        s.queue.contains(i) ==> wish_of(s, i, spurious) is Sleep,
        wish_of(s, i, spurious) is Sleep ==> s.queue.contains(i) || s.being_woken(i),
        wish_of(s, i, spurious) is Sleep ==> s.after(WordEvent::Step(i, spurious)) == s,
{
    assert(s.accounted(i));
    if s.queue.contains(i) {
        let q = choose|q: int| 0 <= q < s.queue.len() && s.queue[q] == i;
        assert(s.queued(q));
    }
    if wish_of(s, i, spurious) is Sleep {
        assert(s.ops.update(i, s.ops[i]) =~= s.ops);
        assert(s.after(WordEvent::Step(i, spurious)) =~= s);
    }
}

/// The thread wants the lock and waits for it.
pub open spec fn wanting(stage: WordStage) -> bool {
    match stage {
        WordStage::Fast => true,
        WordStage::Load => true,
        WordStage::Acquire => true,
        WordStage::Enqueue => true,
        WordStage::Asleep => true,
        _ => false,
    }
}

/// A thread that wants the lock never gives up. It gets the lock by a step only if nobody holds
/// it, and then sets the locked bit alone; or else it leaves that bit as it is.
pub proof fn law_lock_never_gives_up(s: WordSys, i: int, spurious: bool)
    requires
        s.safe(),
        0 <= i < s.ops.len(),
        wanting(s.ops[i].stage),
    ensures
        ({
            let s1 = s.after(WordEvent::Step(i, spurious));
            let stage = s1.ops[i].stage;
            &&& wanting(stage) || stage is Held
            &&& stage is Held ==> !locked(s.mem.word) && s1.mem.word == s.mem.word + 1
                && s1.queue == s.queue
            &&& stage !is Held ==> locked(s1.mem.word) == locked(s.mem.word) && queue_locked(
                s1.mem.word,
            ) == queue_locked(s.mem.word)
            &&& s1.queue != s.queue ==> s1.queue == seq![i] + s.queue && locked(s.mem.word)
                && to_sleep(s1, i) && stage is Asleep
        }),
{
    assert(s.op_ok(i));
}

/// A thread that wants a lock which nobody holds, and is not to sleep, has it within four steps
/// if it is left alone.
pub proof fn law_lone_lock(s: WordSys, i: int)
    requires
        s.safe(),
        0 <= i < s.ops.len(),
        wanting(s.ops[i].stage),
        s.ops[i].stage is Asleep ==> !to_sleep(s, i),
        !locked(s.mem.word),
    ensures
        ({
            let s2 = word_alone(s, i, 4);
            &&& s2.ops[i].stage is Held
            &&& s2.mem.word == s.mem.word + 1
            &&& s2.queue == s.queue
        }),
{
    assert(s.op_ok(i));
    reveal_with_fuel(word_alone, 5);
}

/// A thread spins before it queues up, ten times in all. Its spins begin anew with every lock and
/// whenever it was woken up, and each one is counted. It spins only while the lock is held and
/// nobody waits; where others wait, it queues up without a spin.
pub proof fn law_spins_before_it_queues(s: WordSys, i: int, spurious: bool)
    requires
        s.safe(),
        0 <= i < s.ops.len(),
    ensures
        ({
            let (op, word) = (s.ops[i], s.mem.word);
            let op1 = s.after(WordEvent::Step(i, spurious)).ops[i];
            let reads = op.stage is Load || (op.stage is Acquire || op.stage is Enqueue) && (
            spurious || op.state != word);
            &&& (op.stage is Fast || op.stage is Asleep) && op1.stage is Load ==> op1.wait.counter
                == 0
            &&& op.stage is Fast ==> op1.stage is Held || op1.stage is Load
            &&& reads ==> {
                &&& op1.state == word
                &&& !locked(word) ==> op1.stage is Acquire && op1.wait == op.wait
                &&& locked(word) && queue_head(word) is None && op.wait.counter < 10
                    ==> op1.stage is Load && op1.wait.counter == op.wait.counter + 1
                &&& locked(word) && (queue_head(word) is Some || op.wait.counter >= 10)
                    ==> op1.stage is Enqueue && op1.wait == op.wait
            }
        }),
{
    assert(s.op_ok(i));
}

/// The thread has given up the lock and sees to it that another is woken up.
pub open spec fn unlocking(stage: WordStage) -> bool {
    match stage {
        WordStage::Release => true,
        WordStage::UnlockLoad => true,
        WordStage::GrabQueue => true,
        WordStage::Scan => true,
        WordStage::DropQueue => true,
        WordStage::TakeLast => true,
        WordStage::TakeTail => true,
        WordStage::Wake => true,
        _ => false,
    }
}

/// How many steps a thread that unlocks is from the end at most.
spec fn steps_to_unlock(s: WordSys, i: int) -> nat {
    let op = s.ops[i];
    let fresh = op.state == s.mem.word;
    match op.stage {
        WordStage::Release => 8,
        WordStage::UnlockLoad => 7,
        WordStage::GrabQueue => if fresh {
            6
        } else {
            7
        },
        WordStage::Scan => if fresh {
            3
        } else {
            5
        },
        WordStage::DropQueue => if fresh {
            1
        } else {
            4
        },
        WordStage::TakeLast => if fresh {
            2
        } else {
            4
        },
        WordStage::TakeTail => 2,
        WordStage::Wake => 1,
        _ => 0,
    }
}

proof fn lemma_unlocks(s: WordSys, i: int, steps: nat)
    requires
        0 <= i < s.ops.len(),
        unlocking(s.ops[i].stage) || s.ops[i].stage is Idle,
        steps_to_unlock(s, i) <= steps,
    ensures
        word_alone(s, i, steps).ops[i].stage is Idle,
    decreases steps,
{
    if steps > 0 {
        let s1 = s.after(WordEvent::Step(i, false));
        assert(s.ops[i].stage !is Idle ==> steps_to_unlock(s1, i) < steps_to_unlock(s, i));
        lemma_unlocks(s1, i, (steps - 1) as nat);
    }
}

/// Wherever a thread that unlocks has got to, and whatever the others did meanwhile, it is done
/// within eight steps if it is left alone.
pub proof fn law_lone_unlock_ends(s: WordSys, i: int)
    requires
        s.safe(),
        0 <= i < s.ops.len(),
        unlocking(s.ops[i].stage),
    ensures
        word_alone(s, i, 8).ops[i].stage is Idle,
{
    lemma_unlocks(s, i, 8);
}

/// How many steps a thread that waits for a lock which is held is from being in the queue.
spec fn steps_to_queue(s: WordSys, i: int) -> nat {
    let op = s.ops[i];
    let spins = if op.wait.counter <= 10 {
        (10 - op.wait.counter) as nat
    } else {
        0
    };
    match op.stage {
        WordStage::Fast => 14,
        WordStage::Load => spins + 2,
        WordStage::Acquire => spins + 3,
        WordStage::Enqueue => if op.state == s.mem.word {
            1
        } else {
            spins + 3
        },
        WordStage::Asleep => if to_sleep(s, i) {
            0
        } else {
            14
        },
        _ => 0,
    }
}

/// A thread that wants a lock which is held, and is not to sleep, is at the front of the queue
/// and to sleep within so many steps if it is left alone: it spins a few times first if nobody
/// waits. The lock stays held.
pub proof fn law_lone_waiter_queues(s: WordSys, i: int)
    requires
        s.safe(),
        0 <= i < s.ops.len(),
        wanting(s.ops[i].stage),
        s.ops[i].stage is Asleep ==> !to_sleep(s, i),
        locked(s.mem.word),
        s.ops[i].wait.counter <= 10,
    ensures
        ({
            let s2 = word_alone(s, i, 14);
            &&& s2.queue == seq![i] + s.queue
            &&& to_sleep(s2, i)
            &&& locked(s2.mem.word)
            &&& wish_of(s2, i, false) is Sleep
        }),
{
    assert(s.op_ok(i));
    lemma_waiter_queues(s, i, 14);
}

proof fn lemma_waiter_queues(s: WordSys, i: int, steps: nat)
    requires
        s.safe(),
        0 <= i < s.ops.len(),
        wanting(s.ops[i].stage),
        s.ops[i].stage is Asleep ==> !to_sleep(s, i),
        locked(s.mem.word),
        s.ops[i].wait.counter <= 10,
        steps_to_queue(s, i) <= steps,
    ensures
        ({
            let s2 = word_alone(s, i, steps);
            &&& s2.queue == seq![i] + s.queue
            &&& to_sleep(s2, i)
            &&& locked(s2.mem.word)
            &&& wish_of(s2, i, false) is Sleep
        }),
    decreases steps,
{
    let s1 = s.after(WordEvent::Step(i, false));
    lemma_step_keeps_safe(s, i, false);
    assert(s.op_ok(i));
    assert(s1.op_ok(i));
    if s1.ops[i].stage is Asleep && to_sleep(s1, i) {
        lemma_sleeps_on(s1, i, (steps - 1) as nat);
    } else {
        assert(steps_to_queue(s1, i) < steps_to_queue(s, i));
        lemma_waiter_queues(s1, i, (steps - 1) as nat);
    }
}

proof fn lemma_sleeps_on(s: WordSys, i: int, steps: nat)
    requires
        0 <= i < s.ops.len(),
        s.ops[i].stage is Asleep,
        to_sleep(s, i),
    ensures
        word_alone(s, i, steps) == s,
    decreases steps,
{
    if steps > 0 {
        assert(s.ops.update(i, s.ops[i]) =~= s.ops);
        assert(s.after(WordEvent::Step(i, false)) =~= s);
        lemma_sleeps_on(s, i, (steps - 1) as nat);
    }
}

/// A thread that unlocks lets go of the lock by its first step, and is done at once if nobody
/// waits or another thread works on the queue. Else, left alone, it takes the one that has
/// waited for longest off the queue and wakes it up.
pub proof fn law_unlock(s: WordSys, i: int)
    requires
        s.safe(),
        0 <= i < s.ops.len(),
        s.ops[i].stage is Held,
    ensures
        ({
            let s1 = s.after(WordEvent::Unlock(i)).after(WordEvent::Step(i, false));
            &&& !locked(s1.mem.word)
            &&& queue_locked(s1.mem.word) == queue_locked(s.mem.word)
            &&& s1.queue == s.queue
            &&& s1.ops[i].stage is Idle <==> s.queue.len() == 0 || queue_locked(s.mem.word)
        }),
        s.queue.len() > 0 && !queue_locked(s.mem.word) ==> ({
            let s2 = word_alone(s.after(WordEvent::Unlock(i)), i, 8);
            &&& s2.ops[i].stage is Idle
            &&& s2.queue == s.queue.drop_last()
            &&& !to_sleep(s2, s.queue.last())
            &&& !locked(s2.mem.word)
            &&& !queue_locked(s2.mem.word)
        }),
{
    let s0 = s.after(WordEvent::Unlock(i));
    assert(s.op_ok(i));
    lemma_unlocking_is_safe(s, i);
    let s1 = s0.after(WordEvent::Step(i, false));
    lemma_step_keeps_safe(s0, i, false);
    if s.queue.len() > 0 && !queue_locked(s.mem.word) {
        let s2 = s1.after(WordEvent::Step(i, false));
        lemma_step_keeps_safe(s1, i, false);
        let s3 = s2.after(WordEvent::Step(i, false));
        lemma_step_keeps_safe(s2, i, false);
        assert(s3.ops[i].stage is Scan);
        assert(s3.queue == s.queue);
        lemma_scanner_wakes(s3, i);
        reveal_with_fuel(word_alone, 4);
        assert(word_alone(s0, i, 8) == word_alone(s3, i, 5));
    }
}

/// Where a thread only makes up its mind to unlock, the lock stays safe.
proof fn lemma_unlocking_is_safe(s: WordSys, i: int)
    requires
        s.safe(),
        0 <= i < s.ops.len(),
        s.ops[i].stage is Held,
    ensures
        s.after(WordEvent::Unlock(i)).safe(),
{
    let s2 = s.after(WordEvent::Unlock(i));
    assert(s.op_ok(i));
    assert forall|q: int| 0 <= q < s2.queue.len() implies #[trigger] s2.queued(q) by {
        assert(s.queued(q));
    }
    assert forall|j: int| 0 <= j < s2.ops.len() implies #[trigger] s2.op_ok(j) by {
        assert(s.op_ok(j));
    }
    assert forall|j: int, k: int| 0 <= j < k < s2.ops.len() implies #[trigger] s2.apart(j, k) by {
        assert(s.apart(j, k));
    }
}

/// A thread that follows the queue of a free lock finds its end.
proof fn lemma_scan_step(s: WordSys, i: int)
    requires
        s.safe(),
        0 <= i < s.ops.len(),
        s.ops[i].stage is Scan,
        !locked(s.ops[i].state),
    ensures
        ({
            let s1 = s.after(WordEvent::Step(i, false));
            &&& s1.safe()
            &&& s1.ops[i].stage is TakeLast || s1.ops[i].stage is TakeTail
            &&& s1.ops[i].state == s.ops[i].state
            &&& s1.mem.word == s.mem.word
            &&& s1.queue == s.queue
            &&& s1.ops.len() == s.ops.len()
        }),
{
    lemma_step_keeps_safe(s, i, false);
}

/// A thread that has found the end of the queue of a free lock takes the waiter there off it.
proof fn lemma_take_step(s: WordSys, i: int)
    requires
        s.safe(),
        0 <= i < s.ops.len(),
        !locked(s.mem.word),
        s.ops[i].stage is TakeTail || (s.ops[i].stage is TakeLast && s.ops[i].state == s.mem.word),
    ensures
        ({
            let s1 = s.after(WordEvent::Step(i, false));
            &&& s1.safe()
            &&& s1.ops[i].stage is Wake
            &&& s1.ops[i].tail == s.queue.last()
            &&& s1.queue == s.queue.drop_last()
            &&& !locked(s1.mem.word)
            &&& !queue_locked(s1.mem.word)
            &&& s1.ops.len() == s.ops.len()
        }),
{
    lemma_step_keeps_safe(s, i, false);
    assert(s.op_ok(i));
}

/// A thread that wakes up another is done by that.
proof fn lemma_wake_step(s: WordSys, i: int)
    requires
        s.safe(),
        0 <= i < s.ops.len(),
        s.ops[i].stage is Wake,
    ensures
        ({
            let s1 = s.after(WordEvent::Step(i, false));
            &&& s1.safe()
            &&& s1.ops[i].stage is Idle
            &&& !to_sleep(s1, s.ops[i].tail as int)
            &&& s1.queue == s.queue
            &&& s1.mem.word == s.mem.word
            &&& s1.ops.len() == s.ops.len()
        }),
{
    lemma_step_keeps_safe(s, i, false);
    assert(s.op_ok(i));
}

/// A thread that is idle stays as it is.
proof fn lemma_idle_stays(s: WordSys, i: int, steps: nat)
    requires
        0 <= i < s.ops.len(),
        s.ops[i].stage is Idle,
    ensures
        word_alone(s, i, steps) == s,
    decreases steps,
{
    if steps > 0 {
        assert(s.ops.update(i, s.ops[i]) =~= s.ops);
        assert(s.after(WordEvent::Step(i, false)) =~= s);
        lemma_idle_stays(s, i, (steps - 1) as nat);
    }
}

/// A thread that has found the end of the queue of a free lock wakes up the waiter there.
proof fn lemma_taker_wakes(s: WordSys, i: int, steps: nat)
    requires
        s.safe(),
        0 <= i < s.ops.len(),
        !locked(s.mem.word),
        s.ops[i].stage is TakeTail || (s.ops[i].stage is TakeLast && s.ops[i].state == s.mem.word),
        steps >= 2,
    ensures
        ({
            let s2 = word_alone(s, i, steps);
            &&& s2.ops[i].stage is Idle
            &&& s2.queue == s.queue.drop_last()
            &&& !to_sleep(s2, s.queue.last())
            &&& !locked(s2.mem.word)
            &&& !queue_locked(s2.mem.word)
        }),
{
    let s1 = s.after(WordEvent::Step(i, false));
    lemma_take_step(s, i);
    let s2 = s1.after(WordEvent::Step(i, false));
    lemma_wake_step(s1, i);
    lemma_idle_stays(s2, i, (steps - 2) as nat);
    assert(word_alone(s, i, steps) == word_alone(s1, i, (steps - 1) as nat));
    assert(word_alone(s1, i, (steps - 1) as nat) == word_alone(s2, i, (steps - 2) as nat));
}

/// A thread that has locked the queue of a free lock, and is left alone, wakes up the one that
/// has waited for longest.
proof fn lemma_scanner_wakes(s: WordSys, i: int)
    requires
        s.safe(),
        0 <= i < s.ops.len(),
        s.ops[i].stage is Scan,
        !locked(s.mem.word),
        !locked(s.ops[i].state),
    ensures
        ({
            let s2 = word_alone(s, i, 5);
            &&& s2.ops[i].stage is Idle
            &&& s2.queue == s.queue.drop_last()
            &&& !to_sleep(s2, s.queue.last())
            &&& !locked(s2.mem.word)
            &&& !queue_locked(s2.mem.word)
        }),
{
    let s1 = s.after(WordEvent::Step(i, false));
    lemma_scan_step(s, i);
    assert(word_alone(s, i, 5) == word_alone(s1, i, 4));
    if s1.ops[i].stage is TakeTail || s1.ops[i].state == s1.mem.word {
        lemma_taker_wakes(s1, i, 4);
    } else {
        let s2 = s1.after(WordEvent::Step(i, false));
        lemma_step_keeps_safe(s1, i, false);
        assert(s1.op_ok(i));
        assert(s2.ops[i].stage is Scan && s2.ops[i].state == s2.mem.word);
        let s3 = s2.after(WordEvent::Step(i, false));
        lemma_scan_step(s2, i);
        lemma_taker_wakes(s3, i, 2);
        assert(word_alone(s1, i, 4) == word_alone(s2, i, 3));
        assert(word_alone(s2, i, 3) == word_alone(s3, i, 2));
    }
}

/// A step of one thread leaves what all others are about as it was; and a thread that holds the
/// lock, or is idle, does nothing by itself.
pub proof fn law_word_step_is_ones_own(s: WordSys, i: int, spurious: bool, j: int)
    requires
        s.safe(),
        0 <= i < s.ops.len(),
        0 <= j < s.ops.len(),
    ensures
        ({
            let s1 = s.after(WordEvent::Step(i, spurious));
            &&& j != i ==> s1.ops[j] == s.ops[j]
            &&& s.ops[i].stage is Held || s.ops[i].stage is Idle ==> s1.mem == s.mem
                && s1.ops[i] == s.ops[i] && wish_of(s, i, spurious) is Go
        }),
{
}

/// The processor is yielded by each spin from the fourth to the tenth, and by nothing else.
pub proof fn law_later_spins_yield(s: WordSys, i: int, spurious: bool)
    requires
        s.safe(),
        0 <= i < s.ops.len(),
    ensures
        ({
            let (op, op1) = (s.ops[i], s.after(WordEvent::Step(i, spurious)).ops[i]);
            let reads = op.stage is Load || op.stage is Acquire || op.stage is Enqueue;
            wish_of(s, i, spurious) is Yield <==> reads && op1.stage is Load && 3
                <= op.wait.counter < 10
        }),
{
    assert(s.op_ok(i));
}

/// The processor is yielded only by a thread that waits and has changed nothing, and that is
/// about to read the word again.
pub proof fn law_yields_only_while_waiting(s: WordSys, i: int, spurious: bool)
    requires
        s.safe(),
        0 <= i < s.ops.len(),
        wish_of(s, i, spurious) is Yield,
    ensures
        ({
            let s1 = s.after(WordEvent::Step(i, spurious));
            &&& wanting(s.ops[i].stage)
            &&& s1.mem.word == s.mem.word
            &&& s1.queue == s.queue
            &&& s1.ops[i].stage is Load
            &&& 3 <= s.ops[i].wait.counter < 10
        }),
{
    assert(s.op_ok(i));
}

/// With the lock to itself, a thread that has unlocked marks the oldest waiter, and no other, as
/// woken up, and leaves the lock free; it wakes up nobody if nobody waits, if another works on
/// the queue, or if the lock is held again, and leaves the word as it is then.
pub proof fn law_roused_alone(s: WordSys, t: int)
    requires
        s.safe(),
        0 <= t < s.ops.len(),
    ensures
        ({
            let (mem, woken) = roused(s.mem);
            let idle = locked(s.mem.word) || queue_locked(s.mem.word) || s.queue.len() == 0;
            &&& idle ==> woken is None && mem.word == s.mem.word
                && mem.waiters[t].parker == s.mem.waiters[t].parker
            &&& !idle ==> {
                &&& woken == Some(s.queue.last() as usize)
                &&& !locked(mem.word) && !queue_locked(mem.word)
                &&& mem.waiters[t].parker.futex == (if t == s.queue.last() {
                    0
                } else {
                    s.mem.waiters[t].parker.futex
                })
            }
        }),
{
    if s.queue.len() > 0 {
        assert(s.queued(0));
        lemma_scan_found(s, 0);
        if s.queue.len() > 1 {
            assert(s.queue[0] != s.queue[s.queue.len() - 1]);
        }
    }
}

} // verus!
