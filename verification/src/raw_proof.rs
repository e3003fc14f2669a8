//! What holds of a raw mutex while any number of threads lock and unlock it.

use vstd::prelude::*;

use crate::raw_model::{
    is_contended, is_locked, raw_next, RawMem, RawOp, RawStage, TOKEN_HANDOFF,
};

verus! {

/// A mutex with the threads that use it.
#[verifier::ext_equal]
pub struct RawSys {
    pub mem: RawMem,
    pub ops: Seq<RawOp>,
}

/// Something that a thread does with the mutex.
pub enum RawEvent {
    /// A thread that neither has nor wants the mutex begins to lock it.
    Lock(int),
    /// A thread that neither has nor wants the mutex begins to try to lock it.
    TryLock(int),
    /// A thread that has the mutex begins to unlock it.
    Unlock(int),
    /// A thread that neither has nor wants the mutex begins to set its parked bit.
    Mark(int),
    /// A thread takes its next step; a change of the state may fail for no reason, and an
    /// unlock may be fair.
    Step(int, bool, bool),
    /// Threads that are not parked on this mutex are parked or unparked elsewhere.
    Elsewhere(Seq<bool>, Seq<usize>),
}

impl RawSys {
    /// A free mutex that nobody uses yet.
    pub open spec fn begin(asleep: Seq<bool>, tokens: Seq<usize>) -> RawSys {
        RawSys {
            mem: RawMem { state: 0, queue: Seq::empty(), asleep, tokens },
            ops: Seq::new(asleep.len(), |i: int| RawOp::idle()),
        }
    }

    /// The thread has the mutex: it took it, or was handed it while it was parked.
    pub open spec fn holds(self, i: int) -> bool {
        match self.ops[i].stage {
            RawStage::Held => true,
            RawStage::Unlock => true,
            RawStage::UnlockSlow => true,
            RawStage::Parked => !self.mem.asleep[i] && self.mem.tokens[i] == TOKEN_HANDOFF,
            _ => false,
        }
    }

    /// What a thread knows of the mutex.
    pub open spec fn op_ok(self, i: int) -> bool {
        let op = self.ops[i];
        &&& op.state < 4
        &&& op.stage is Acquire ==> !is_locked(op.state)
        &&& op.stage is TryAcquire ==> !is_locked(op.state)
        &&& op.stage is SetParked ==> op.state == 1
        &&& op.stage is Mark ==> is_locked(op.state)
        &&& op.stage is UnlockSlow ==> self.mem.state == 3
        &&& op.stage is Parked && self.mem.asleep[i] ==> self.mem.queue.contains(i as usize)
        &&& self.holds(i) ==> is_locked(self.mem.state)
    }

    /// A thread in the queue sleeps until it is unparked from this mutex.
    pub open spec fn queued(self, q: int) -> bool {
        &&& self.mem.queue[q] < self.ops.len()
        &&& self.ops[self.mem.queue[q] as int].stage is Parked
        &&& self.mem.asleep[self.mem.queue[q] as int]
    }

    /// Some thread has the mutex.
    pub open spec fn has_holder(self) -> bool {
        exists|i: int| 0 <= i < self.ops.len() && #[trigger] self.holds(i)
    }

    /// Thread `i` runs and tries for the mutex.
    pub open spec fn rousing(self, i: int) -> bool {
        match self.ops[i].stage {
            RawStage::Fast => true,
            RawStage::Load => true,
            RawStage::Acquire => true,
            RawStage::SetParked => true,
            RawStage::Park => true,
            RawStage::Parked => !self.mem.asleep[i],
            _ => false,
        }
    }

    /// Some thread runs and tries for the mutex.
    pub open spec fn has_rouser(self) -> bool {
        exists|i: int| 0 <= i < self.ops.len() && #[trigger] self.rousing(i)
    }

    /// What holds of the mutex at every moment.
    pub open spec fn safe(self) -> bool {
        &&& self.mem.state < 4
        &&& self.ops.len() <= usize::MAX
        &&& self.mem.asleep.len() == self.ops.len()
        &&& self.mem.tokens.len() == self.ops.len()
        &&& self.mem.queue.no_duplicates()
        &&& (forall|q: int| 0 <= q < self.mem.queue.len() ==> #[trigger] self.queued(q))
        &&& self.mem.queue.len() > 0 ==> is_contended(self.mem.state)
        &&& (forall|i: int| 0 <= i < self.ops.len() ==> #[trigger] self.op_ok(i))
        &&& (forall|i: int, j: int|
            0 <= i < j < self.ops.len() ==> !(#[trigger] self.holds(i) && #[trigger] self.holds(j)))
        &&& is_locked(self.mem.state) ==> self.has_holder()
        &&& !is_locked(self.mem.state) && self.mem.queue.len() > 0 ==> self.has_rouser()
    }

    /// The event can happen.
    pub open spec fn allows(self, event: RawEvent) -> bool {
        match event {
            RawEvent::Lock(i) => 0 <= i < self.ops.len() && self.ops[i].stage is Idle,
            RawEvent::TryLock(i) => 0 <= i < self.ops.len() && self.ops[i].stage is Idle,
            RawEvent::Unlock(i) => 0 <= i < self.ops.len() && self.ops[i].stage is Held,
            RawEvent::Mark(i) => 0 <= i < self.ops.len() && self.ops[i].stage is Idle,
            RawEvent::Step(i, _, _) => 0 <= i < self.ops.len(),
            RawEvent::Elsewhere(asleep, tokens) => {
                &&& asleep.len() == self.ops.len()
                &&& tokens.len() == self.ops.len()
                &&& forall|i: int|
                    0 <= i < self.ops.len() && self.ops[i].stage is Parked
                        ==> #[trigger] asleep[i] == self.mem.asleep[i] && tokens[i]
                        == self.mem.tokens[i]
            },
        }
    }

    /// The thread turns to something else.
    pub open spec fn turned(self, i: int, stage: RawStage) -> RawSys {
        RawSys { ops: self.ops.update(i, RawOp { stage, ..self.ops[i] }), ..self }
    }

    /// What the event makes of the mutex.
    pub open spec fn after(self, event: RawEvent) -> RawSys {
        match event {
            RawEvent::Lock(i) => self.turned(i, RawStage::Fast),
            RawEvent::TryLock(i) => self.turned(i, RawStage::TryLoad),
            RawEvent::Unlock(i) => self.turned(i, RawStage::Unlock),
            RawEvent::Mark(i) => self.turned(i, RawStage::MarkLoad),
            RawEvent::Step(i, spurious, fair) => {
                let (mem, next) = raw_next(self.mem, self.ops[i], i, spurious, fair);
                RawSys { mem, ops: self.ops.update(i, next) }
            },
            RawEvent::Elsewhere(asleep, tokens) => RawSys {
                mem: RawMem { asleep, tokens, ..self.mem },
                ..self
            },
        }
    }

    /// All events of the schedule can happen, one after the other.
    pub open spec fn allows_all(self, schedule: Seq<RawEvent>) -> bool
        decreases schedule.len(),
    {
        schedule.len() > 0 ==> self.allows(schedule[0]) && self.after(schedule[0]).allows_all(
            schedule.skip(1),
        )
    }

    /// What the events of the schedule make of the mutex, one after the other.
    pub open spec fn after_all(self, schedule: Seq<RawEvent>) -> RawSys
        decreases schedule.len(),
    {
        if schedule.len() == 0 {
            self
        } else {
            self.after(schedule[0]).after_all(schedule.skip(1))
        }
    }
}

/// A step that moves only its own thread on, and perhaps sets or clears bits of the state,
/// keeps the mutex safe.
proof fn lemma_plain(s: RawSys, s2: RawSys, i: int)
    requires
        s.safe(),
        0 <= i < s.ops.len(),
        s2.ops == s.ops.update(i, s2.ops[i]),
        s2.mem.queue == s.mem.queue,
        s2.mem.asleep == s.mem.asleep,
        s2.mem.tokens == s.mem.tokens,
        s2.mem.state < 4,
        s.ops[i].stage is Parked && s.mem.asleep[i] ==> s2.ops[i] == s.ops[i],
        s.mem.queue.len() > 0 ==> is_contended(s2.mem.state),
        s2.op_ok(i),
        is_locked(s2.mem.state) == (is_locked(s.mem.state) && !s.holds(i) || s2.holds(i)),
        s2.holds(i) ==> s.holds(i) || !is_locked(s.mem.state),
        s2.mem.state != s.mem.state ==> s.mem.state != 3,
        !is_locked(s2.mem.state) && s.mem.queue.len() > 0 ==> {
            !is_locked(s.mem.state) && (s.rousing(i) ==> s2.rousing(i))
        },
    ensures
        s2.safe(),
{
    assert forall|q: int| 0 <= q < s2.mem.queue.len() implies #[trigger] s2.queued(q) by {
        assert(s.queued(q));
    }
    assert forall|j: int| 0 <= j < s2.ops.len() implies #[trigger] s2.op_ok(j) by {
        assert(s.op_ok(j));
        if j != i && s.holds(j) {
            if i < j {
                assert(!(s.holds(i) && s.holds(j)));
            } else {
                assert(!(s.holds(j) && s.holds(i)));
            }
        }
    }
    assert forall|j: int, k: int| 0 <= j < k < s2.ops.len() implies !(#[trigger] s2.holds(j)
        && #[trigger] s2.holds(k)) by {
        assert(s.op_ok(j) && s.op_ok(k));
        assert(!(s.holds(j) && s.holds(k)));
    }
    if is_locked(s2.mem.state) {
        if s2.holds(i) {
            assert(s2.has_holder());
        } else {
            let h = choose|h: int| 0 <= h < s.ops.len() && #[trigger] s.holds(h);
            assert(s2.holds(h));
        }
    }
    if !is_locked(s2.mem.state) && s2.mem.queue.len() > 0 {
        let r = choose|r: int| 0 <= r < s.ops.len() && #[trigger] s.rousing(r);
        assert(s2.rousing(r));
    }
}

/// Getting parked.
proof fn lemma_park(s: RawSys, i: int, spurious: bool, fair: bool)
    requires
        s.safe(),
        0 <= i < s.ops.len(),
        s.ops[i].stage is Park,
        s.mem.state == 3,
    ensures
        s.after(RawEvent::Step(i, spurious, fair)).safe(),
{
    let s2 = s.after(RawEvent::Step(i, spurious, fair));
    assert(s.op_ok(i));
    let longer = s2.mem.queue;
    if s.mem.queue.contains(i as usize) {
        let q = choose|q: int| 0 <= q < s.mem.queue.len() && s.mem.queue[q] == i as usize;
        assert(s.queued(q));
    }
    assert(longer.no_duplicates());
    assert forall|q: int| 0 <= q < longer.len() implies #[trigger] s2.queued(q) by {
        if q < s.mem.queue.len() {
            assert(s.queued(q));
        }
    }
    assert(longer[s.mem.queue.len() as int] == i as usize);
    assert forall|j: int| 0 <= j < s2.ops.len() implies #[trigger] s2.op_ok(j) by {
        assert(s.op_ok(j));
        if s.mem.queue.contains(j as usize) {
            let q = choose|q: int| 0 <= q < s.mem.queue.len() && s.mem.queue[q] == j as usize;
            assert(longer[q] == j as usize);
        }
    }
    assert forall|j: int, k: int| 0 <= j < k < s2.ops.len() implies !(#[trigger] s2.holds(j)
        && #[trigger] s2.holds(k)) by {
        assert(!(s.holds(j) && s.holds(k)));
    }
    let h = choose|h: int| 0 <= h < s.ops.len() && #[trigger] s.holds(h);
    assert(s2.holds(h));
}

/// Unparking a thread, and unlocking the mutex or handing it over.
proof fn lemma_unlock_slow(s: RawSys, i: int, spurious: bool, fair: bool)
    requires
        s.safe(),
        0 <= i < s.ops.len(),
        s.ops[i].stage is UnlockSlow,
        s.mem.queue.len() > 0,
    ensures
        s.after(RawEvent::Step(i, spurious, fair)).safe(),
{
    let s2 = s.after(RawEvent::Step(i, spurious, fair));
    let queue = s.mem.queue;
    let t = queue[0] as int;
    assert(s.op_ok(i));
    assert(s.queued(0));
    assert(s.holds(i));
    assert forall|q: int| 0 <= q < s2.mem.queue.len() implies #[trigger] s2.queued(q) by {
        assert(s.queued(q + 1));
        assert(queue[q + 1] != queue[0]);
        assert(s2.mem.queue[q] == queue[q + 1]);
    }
    assert(s2.mem.queue.no_duplicates());
    assert forall|j: int| 0 <= j < s2.ops.len() && j != i implies !s.holds(j) by {
        if i < j {
            assert(!(s.holds(i) && s.holds(j)));
        } else {
            assert(!(s.holds(j) && s.holds(i)));
        }
    }
    assert forall|j: int| 0 <= j < s2.ops.len() implies s2.holds(j) == (fair && j == t) by {
        if j != i && j != t {
            assert(!s.holds(j));
        }
    }
    assert forall|j: int| 0 <= j < s2.ops.len() implies #[trigger] s2.op_ok(j) by {
        assert(s.op_ok(j));
        assert(s2.holds(j) == (fair && j == t));
        if j != i {
            assert(!s.holds(j));
            if s.ops[j].stage is Parked && s2.mem.asleep[j] {
                let q = choose|q: int| 0 <= q < queue.len() && queue[q] == j as usize;
                assert(q != 0);
                assert(s2.mem.queue[q - 1] == j as usize);
            }
        }
    }
    assert forall|j: int, k: int| 0 <= j < k < s2.ops.len() implies !(#[trigger] s2.holds(j)
        && #[trigger] s2.holds(k)) by {
        assert(s2.holds(j) == (fair && j == t));
        assert(s2.holds(k) == (fair && k == t));
    }
    if fair {
        assert(s2.holds(t));
    } else {
        assert(s2.rousing(t));
    }
}

/// Every event keeps the mutex safe.
pub proof fn law_raw_event(s: RawSys, event: RawEvent)
    requires
        s.safe(),
        s.allows(event),
    ensures
        s.after(event).safe(),
{
    let s2 = s.after(event);
    match event {
        RawEvent::Step(i, spurious, fair) => {
            assert(s.op_ok(i));
            if s.ops[i].stage is Park && s.mem.state == 3 {
                lemma_park(s, i, spurious, fair);
            } else if s.ops[i].stage is UnlockSlow && s.mem.queue.len() > 0 {
                lemma_unlock_slow(s, i, spurious, fair);
            } else if s.ops[i].stage is UnlockSlow {
                lemma_unlock_nobody(s, i, spurious, fair);
            } else {
                lemma_plain(s, s2, i);
            }
        },
        RawEvent::Lock(i) => {
            assert(s.op_ok(i));
            lemma_plain(s, s2, i);
        },
        RawEvent::TryLock(i) => {
            assert(s.op_ok(i));
            lemma_plain(s, s2, i);
        },
        RawEvent::Unlock(i) => {
            assert(s.op_ok(i));
            lemma_plain(s, s2, i);
        },
        RawEvent::Mark(i) => {
            assert(s.op_ok(i));
            lemma_plain(s, s2, i);
        },
        RawEvent::Elsewhere(asleep, tokens) => {
            assert forall|q: int| 0 <= q < s2.mem.queue.len() implies #[trigger] s2.queued(q) by {
                assert(s.queued(q));
                assert(asleep[s.mem.queue[q] as int] == s.mem.asleep[s.mem.queue[q] as int]);
            }
            assert forall|j: int| 0 <= j < s2.ops.len() implies #[trigger] s2.op_ok(j) && s2.holds(
                j,
            ) == s.holds(j) && s2.rousing(j) == s.rousing(j) by {
                assert(s.op_ok(j));
                if s.ops[j].stage is Parked {
                    assert(asleep[j] == s.mem.asleep[j]);
                }
            }
            assert forall|j: int, k: int| 0 <= j < k < s2.ops.len() implies !(#[trigger] s2.holds(j)
                && #[trigger] s2.holds(k)) by {
                assert(s2.op_ok(j) && s2.op_ok(k));
                assert(!(s.holds(j) && s.holds(k)));
            }
            if is_locked(s.mem.state) {
                let h = choose|h: int| 0 <= h < s.ops.len() && #[trigger] s.holds(h);
                assert(s2.op_ok(h));
                assert(s2.holds(h));
            } else if s.mem.queue.len() > 0 {
                let r = choose|r: int| 0 <= r < s.ops.len() && #[trigger] s.rousing(r);
                assert(s2.op_ok(r));
                assert(s2.rousing(r));
            }
        },
    }
}

/// Unlocking where threads were about to park but none is parked.
proof fn lemma_unlock_nobody(s: RawSys, i: int, spurious: bool, fair: bool)
    requires
        s.safe(),
        0 <= i < s.ops.len(),
        s.ops[i].stage is UnlockSlow,
        s.mem.queue.len() == 0,
    ensures
        s.after(RawEvent::Step(i, spurious, fair)).safe(),
{
    let s2 = s.after(RawEvent::Step(i, spurious, fair));
    assert(s.op_ok(i));
    assert(s.holds(i));
    assert forall|j: int| 0 <= j < s2.ops.len() implies #[trigger] s2.op_ok(j) && !s2.holds(j) by {
        assert(s.op_ok(j));
        if i < j {
            assert(!(s.holds(i) && s.holds(j)));
        } else if j < i {
            assert(!(s.holds(j) && s.holds(i)));
        }
    }
    assert forall|j: int, k: int| 0 <= j < k < s2.ops.len() implies !(#[trigger] s2.holds(j)
        && #[trigger] s2.holds(k)) by {
        assert(s2.op_ok(j));
    }
}

} // verus!
