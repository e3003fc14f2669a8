//! Pushes and pops of many threads on one chunked queue, access by access.
//!
//! An [`Interleaved`] queue holds the pushes and pops that threads have begun on it
//! and lets any of them take its next step at any time. Whatever the order of the
//! steps, every value pushed is claimed by at most one pop, in the order in which
//! the pushes claimed their positions.

use std::sync::mpsc::Sender;

use vstd::prelude::*;

use crate::channel::{Listener, QueueState};
use crate::chunk::{lap, lemma_num_order, num, off, pos};
use crate::co_model::{
    len_next, pop_next, push_next, LenOp, Mem, PopOp, PopStage, PushOp, PushStage,
};
use crate::co_proof::{
    lemma_pop_keeps_complete, lemma_pop_keeps_safe, lemma_push_keeps_complete,
    lemma_push_keeps_safe, mem_ok, pop_ends, pop_ok, pop_owns, pop_reads, pops_apart, push_claims,
    push_ok, push_owns, pushes_apart, Sys,
};
use crate::co_queue::{items, law_finished_chunks_are_freed, quiet, CoQueue};

verus! {

/// A queue with the operations begun on it, the value given to each push, and the
/// memory as it was before the first of them.
#[verifier::ext_equal]
pub struct Run<T> {
    pub sys: Sys<T>,
    pub given: Seq<T>,
    pub start: Mem<T>,
}

/// Something that a thread does to the queue.
pub enum Event<T> {
    /// Begins a push of a value.
    BeginPush(T),
    /// Begins a pop.
    BeginPop,
    /// Takes the next step of a push; a claim may fail for no reason.
    StepPush(int, bool),
    /// Takes the next step of a pop; a claim may fail for no reason.
    StepPop(int, bool),
}

impl<T> Run<T> {
    /// No operation has begun yet.
    pub open spec fn begin(m: Mem<T>) -> Run<T> {
        Run {
            sys: Sys { mem: m, pushes: Seq::empty(), pops: Seq::empty() },
            given: Seq::empty(),
            start: m,
        }
    }

    /// The event is about an operation that has begun, and a push has room to go on.
    pub open spec fn allows(self, event: Event<T>) -> bool {
        match event {
            Event::BeginPush(_) => true,
            Event::BeginPop => true,
            Event::StepPush(i, _) => 0 <= i < self.sys.pushes.len() && self.sys.mem.has_room_for(
                1,
            ),
            Event::StepPop(i, _) => 0 <= i < self.sys.pops.len(),
        }
    }

    /// What the event makes of the run.
    pub open spec fn after(self, event: Event<T>) -> Run<T> {
        match event {
            Event::BeginPush(item) => Run {
                sys: Sys { pushes: self.sys.pushes.push(PushOp::start(item)), ..self.sys },
                given: self.given.push(item),
                ..self
            },
            Event::BeginPop => Run {
                sys: Sys { pops: self.sys.pops.push(PopOp::start()), ..self.sys },
                ..self
            },
            Event::StepPush(i, spurious) => Run { sys: self.sys.step_push(i, spurious), ..self },
            Event::StepPop(i, spurious) => Run { sys: self.sys.step_pop(i, spurious), ..self },
        }
    }

    /// All events of the schedule can happen, one after the other.
    pub open spec fn allows_all(self, schedule: Seq<Event<T>>) -> bool
        decreases schedule.len(),
    {
        schedule.len() > 0 ==> self.allows(schedule[0]) && self.after(schedule[0]).allows_all(
            schedule.skip(1),
        )
    }

    /// What the events of the schedule make of the run, one after the other.
    pub open spec fn after_all(self, schedule: Seq<Event<T>>) -> Run<T>
        decreases schedule.len(),
    {
        if schedule.len() == 0 {
            self
        } else {
            self.after(schedule[0]).after_all(schedule.skip(1))
        }
    }

    /// Position `p` belongs to a push of this run.
    pub open spec fn pushed_at(self, p: int) -> bool {
        exists|i: int|
            0 <= i < self.sys.pushes.len() && push_owns(#[trigger] self.sys.pushes[i])
                && self.sys.pushes[i].at() == p
    }

    /// Position `p` belongs to a pop of this run.
    pub open spec fn popped_at(self, p: int) -> bool {
        exists|i: int|
            0 <= i < self.sys.pops.len() && pop_owns(#[trigger] self.sys.pops[i])
                && self.sys.pops[i].at() == p
    }

    /// Chunk `k` was freed by a pop of this run.
    pub open spec fn freed_here(self, k: int) -> bool {
        exists|i: int|
            0 <= i < self.sys.pops.len() && (#[trigger] self.sys.pops[i]).ended && lap(
                self.sys.pops[i].at(),
            ) == k
    }

    /// Chunk `k` had been freed before the run.
    pub open spec fn freed_before(self, k: int) -> bool {
        k < self.start.chunks.len() && self.start.chunks[k].ended
    }

    /// Every push has its value either with it or at its place in what was pushed.
    pub open spec fn push_kept(self, i: int) -> bool {
        let op = self.sys.pushes[i];
        if push_owns(op) {
            &&& pos(self.start.tail.index) <= op.at() < pos(self.sys.mem.tail.index)
            &&& off(op.at()) != 31
            &&& self.sys.mem.pushed[num(op.at())] == self.given[i]
        } else {
            op.item == Some(self.given[i])
        }
    }

    /// What holds at every moment of a run.
    pub open spec fn wf(self) -> bool {
        let m = self.sys.mem;
        &&& self.sys.safe()
        &&& self.sys.complete()
        &&& m.has_room()
        &&& self.given.len() == self.sys.pushes.len()
        &&& (forall|i: int|
            #![trigger self.sys.pushes[i]]
            0 <= i < self.sys.pushes.len() ==> self.push_kept(i))
        &&& pos(self.start.tail.index) <= pos(m.tail.index)
        &&& pos(self.start.head.index) <= pos(m.head.index)
        &&& (forall|p: int|
            #![trigger self.pushed_at(p)]
            pos(self.start.tail.index) <= p < pos(m.tail.index) && off(p) != 31 ==> self.pushed_at(
                p,
            ))
        &&& (forall|p: int|
            #![trigger self.popped_at(p)]
            pos(self.start.head.index) <= p < pos(m.head.index) && off(p) != 31 ==> self.popped_at(
                p,
            ))
        &&& (forall|i: int|
            0 <= i < self.sys.pops.len() && pop_owns(#[trigger] self.sys.pops[i]) ==> pos(
                self.start.head.index,
            ) <= self.sys.pops[i].at() < pos(m.head.index) && off(self.sys.pops[i].at()) != 31)
        &&& (forall|k: int|
            0 <= k < m.chunks.len() && (#[trigger] m.chunks[k]).ended ==> self.freed_before(k)
                || self.freed_here(k))
        &&& (forall|i: int|
            0 <= i < self.sys.pops.len() && (#[trigger] self.sys.pops[i]).ended
                ==> !self.freed_before(lap(self.sys.pops[i].at())))
        &&& self.start.chunks.len() <= m.chunks.len()
        &&& (forall|k: int| #![trigger m.chunks[k]] self.freed_before(k) && 0 <= k ==> m.chunks[k].ended)
        &&& self.start.pushed.len() == num(pos(self.start.tail.index))
        &&& self.start.pushed.len() <= m.pushed.len()
        &&& m.pushed.take(self.start.pushed.len() as int) == self.start.pushed
    }

    /// Every operation begun is over.
    pub open spec fn all_done(self) -> bool {
        &&& (forall|i: int|
            0 <= i < self.sys.pushes.len() ==> (#[trigger] self.sys.pushes[i]).stage is Done)
        &&& (forall|i: int|
            0 <= i < self.sys.pops.len() ==> (#[trigger] self.sys.pops[i]).stage is Done)
    }
}

proof fn lemma_begin_wf<T>(m: Mem<T>)
    requires
        quiet(m),
        m.has_room(),
    ensures
        Run::begin(m).wf(),
{
    assert(m.pushed.take(m.pushed.len() as int) =~= m.pushed);
}

proof fn lemma_begin_push<T>(r: Run<T>, item: T)
    requires
        r.wf(),
    ensures
        r.after(Event::BeginPush(item)).wf(),
{
    let r2 = r.after(Event::BeginPush(item));
    let s = r.sys;
    let s2 = r2.sys;
    let n = s.pushes.len() as int;
    assert forall|i: int| 0 <= i < s2.pushes.len() implies push_ok(s2.mem, #[trigger] s2.pushes[i]) by {
        if i < n {
            assert(s2.pushes[i] == s.pushes[i]);
        }
    }
    assert forall|i: int, j: int| 0 <= i < j < s2.pushes.len() implies pushes_apart(
        #[trigger] s2.pushes[i],
        #[trigger] s2.pushes[j],
    ) by {
        assert(s2.pushes[i] == s.pushes[i]);
        if j < n {
            assert(s2.pushes[j] == s.pushes[j]);
        }
    }
    assert(s2.safe());
    assert forall|i: int| 0 <= i < n implies s2.pushes[i] == s.pushes[i] by {}
    lemma_witnesses_stay(s, s2);
    assert(s2.complete());
    assert forall|i: int|
        #![trigger r2.sys.pushes[i]]
        0 <= i < r2.sys.pushes.len() implies r2.push_kept(i) by {
        if i < n {
            assert(r.push_kept(i));
        }
    }
    assert forall|p: int|
        #![trigger r2.pushed_at(p)]
        pos(r2.start.tail.index) <= p < pos(s2.mem.tail.index) && off(p) != 31 implies r2.pushed_at(
        p,
    ) by {
        assert(r.pushed_at(p));
        let w = choose|w: int|
            0 <= w < s.pushes.len() && push_owns(#[trigger] s.pushes[w]) && s.pushes[w].at() == p;
        assert(push_owns(s2.pushes[w]) && s2.pushes[w].at() == p);
    }
    assert forall|p: int|
        #![trigger r2.popped_at(p)]
        pos(r2.start.head.index) <= p < pos(s2.mem.head.index) && off(p) != 31 implies r2.popped_at(
        p,
    ) by {
        assert(r.popped_at(p));
    }
}

/// More operations do not take away who finishes what is unfinished.
proof fn lemma_witnesses_stay<T>(s: Sys<T>, s2: Sys<T>)
    requires
        s.complete(),
        s2.mem == s.mem,
        s.pushes.len() <= s2.pushes.len(),
        s.pops.len() <= s2.pops.len(),
        forall|i: int| 0 <= i < s.pushes.len() ==> s2.pushes[i] == s.pushes[i],
        forall|i: int| 0 <= i < s.pops.len() ==> s2.pops[i] == s.pops[i],
    ensures
        s2.complete(),
{
    let m = s.mem;
    assert forall|p: int| s.some_push_claims(p) implies s2.some_push_claims(p) by {
        let w = choose|w: int|
            0 <= w < s.pushes.len() && push_claims(#[trigger] s.pushes[w]) && s.pushes[w].at() == p;
        assert(push_claims(s2.pushes[w]) && s2.pushes[w].at() == p);
    }
    assert forall|k: int| s.some_push_links(k) implies s2.some_push_links(k) by {
        let w = choose|w: int|
            0 <= w < s.pushes.len() && ((#[trigger] s.pushes[w]).stage is StoreTailIndex
                || s.pushes[w].stage is LinkNext) && lap(s.pushes[w].at()) == k;
        assert((s2.pushes[w].stage is StoreTailIndex || s2.pushes[w].stage is LinkNext) && lap(
            s2.pushes[w].at(),
        ) == k);
    }
    if s.some_push_closes() {
        let w = choose|w: int|
            0 <= w < s.pushes.len() && crate::co_proof::push_closes(#[trigger] s.pushes[w]);
        assert(crate::co_proof::push_closes(s2.pushes[w]));
    }
    if s.some_push_publishes() {
        let w = choose|w: int| 0 <= w < s.pushes.len() && (#[trigger] s.pushes[w]).stage is PublishHead;
        assert(s2.pushes[w].stage is PublishHead);
    }
    if s.some_pop_closes() {
        let w = choose|w: int|
            0 <= w < s.pops.len() && crate::co_proof::pop_closes(#[trigger] s.pops[w]);
        assert(crate::co_proof::pop_closes(s2.pops[w]));
    }
}

proof fn lemma_begin_pop<T>(r: Run<T>)
    requires
        r.wf(),
    ensures
        r.after(Event::BeginPop).wf(),
{
    let r2 = r.after(Event::<T>::BeginPop);
    let s = r.sys;
    let s2 = r2.sys;
    let n = s.pops.len() as int;
    assert forall|i: int| 0 <= i < n implies s2.pops[i] == s.pops[i] by {}
    assert forall|i: int| 0 <= i < s2.pops.len() implies pop_ok(s2.mem, #[trigger] s2.pops[i]) by {
        if i < n {
            assert(s2.pops[i] == s.pops[i]);
        }
    }
    assert forall|i: int, j: int| 0 <= i < j < s2.pops.len() implies pops_apart(
        #[trigger] s2.pops[i],
        #[trigger] s2.pops[j],
    ) by {
        assert(s2.pops[i] == s.pops[i]);
        if j < n {
            assert(s2.pops[j] == s.pops[j]);
        }
    }
    assert(s2.safe());
    lemma_witnesses_stay(s, s2);
    assert forall|i: int|
        #![trigger r2.sys.pushes[i]]
        0 <= i < r2.sys.pushes.len() implies r2.push_kept(i) by {
        assert(r.push_kept(i));
    }
    assert forall|p: int|
        #![trigger r2.pushed_at(p)]
        pos(r2.start.tail.index) <= p < pos(s2.mem.tail.index) && off(p) != 31 implies r2.pushed_at(
        p,
    ) by {
        assert(r.pushed_at(p));
    }
    assert forall|p: int|
        #![trigger r2.popped_at(p)]
        pos(r2.start.head.index) <= p < pos(s2.mem.head.index) && off(p) != 31 implies r2.popped_at(
        p,
    ) by {
        assert(r.popped_at(p));
        let w = choose|w: int|
            0 <= w < s.pops.len() && pop_owns(#[trigger] s.pops[w]) && s.pops[w].at() == p;
        assert(pop_owns(s2.pops[w]) && s2.pops[w].at() == p);
    }
    assert forall|i: int| 0 <= i < s2.pops.len() && pop_owns(#[trigger] s2.pops[i]) implies pos(
        r2.start.head.index,
    ) <= s2.pops[i].at() < pos(s2.mem.head.index) && off(s2.pops[i].at()) != 31 by {
        assert(i < n);
        assert(s2.pops[i] == s.pops[i]);
    }
}

#[verifier::rlimit(30)]
proof fn lemma_step_push<T>(r: Run<T>, i: int, spurious: bool)
    requires
        r.wf(),
        r.allows(Event::StepPush(i, spurious)),
    ensures
        r.after(Event::StepPush(i, spurious)).wf(),
{
    let r2 = r.after(Event::StepPush(i, spurious));
    let s = r.sys;
    let s2 = r2.sys;
    let m = s.mem;
    let m2 = s2.mem;
    let op = s.pushes[i];
    lemma_push_keeps_safe(s, i, spurious);
    lemma_push_keeps_complete(s, i, spurious);
    assert(push_ok(m, op));
    assert(r.push_kept(i));
    assert(s2.pushes[i] == push_next(m, op, spurious).1);
    let claimed = op.stage is Advance && !spurious && m.tail.index == op.tail;
    if claimed {
        assert(m2.pushed == m.pushed.push(op.item->0));
    } else {
        assert(m2.pushed == m.pushed);
    }
    assert forall|j: int|
        #![trigger r2.sys.pushes[j]]
        0 <= j < r2.sys.pushes.len() implies r2.push_kept(j) by {
        assert(r.push_kept(j));
        if j == i {
        } else {
            assert(s2.pushes[j] == s.pushes[j]);
            if push_owns(s.pushes[j]) && claimed {
                lemma_num_order(s.pushes[j].at(), op.at());
            }
        }
    }
    assert forall|p: int|
        #![trigger r2.pushed_at(p)]
        pos(r2.start.tail.index) <= p < pos(m2.tail.index) && off(p) != 31 implies r2.pushed_at(
        p,
    ) by {
        if p < pos(m.tail.index) {
            assert(r.pushed_at(p));
            let w = choose|w: int|
                0 <= w < s.pushes.len() && push_owns(#[trigger] s.pushes[w]) && s.pushes[w].at()
                    == p;
            assert(push_owns(s2.pushes[w]) && s2.pushes[w].at() == p);
        } else {
            assert(push_owns(s2.pushes[i]) && s2.pushes[i].at() == p);
        }
    }
    assert forall|p: int|
        #![trigger r2.popped_at(p)]
        pos(r2.start.head.index) <= p < pos(m2.head.index) && off(p) != 31 implies r2.popped_at(
        p,
    ) by {
        assert(r.popped_at(p));
    }
    assert(m2.pushed.take(r2.start.pushed.len() as int) =~= r2.start.pushed) by {
        assert(m.pushed.take(r.start.pushed.len() as int) == r.start.pushed);
        assert forall|k: int| 0 <= k < r.start.pushed.len() implies m2.pushed[k]
            == r.start.pushed[k] by {
            assert(m.pushed.take(r.start.pushed.len() as int)[k] == m.pushed[k]);
        }
    }
}

#[verifier::rlimit(60)]
#[verifier::spinoff_prover]
proof fn lemma_step_pop<T>(r: Run<T>, i: int, spurious: bool)
    requires
        r.wf(),
        r.allows(Event::StepPop(i, spurious)),
    ensures
        r.after(Event::StepPop(i, spurious)).wf(),
{
    let r2 = r.after(Event::StepPop(i, spurious));
    let s = r.sys;
    let s2 = r2.sys;
    let m = s.mem;
    let m2 = s2.mem;
    let op = s.pops[i];
    lemma_pop_keeps_safe(s, i, spurious);
    lemma_pop_keeps_complete(s, i, spurious);
    assert(pop_ok(m, op));
    assert(s2.pops[i] == pop_next(m, op, spurious).1);
    assert(pop_ok(m2, s2.pops[i]));
    assert(m2.pushed == m.pushed && m2.tail == m.tail);
    assert forall|j: int|
        #![trigger r2.sys.pushes[j]]
        0 <= j < r2.sys.pushes.len() implies r2.push_kept(j) by {
        assert(r.push_kept(j));
    }
    assert forall|p: int|
        #![trigger r2.pushed_at(p)]
        pos(r2.start.tail.index) <= p < pos(m2.tail.index) && off(p) != 31 implies r2.pushed_at(
        p,
    ) by {
        assert(r.pushed_at(p));
    }
    assert forall|p: int|
        #![trigger r2.popped_at(p)]
        pos(r2.start.head.index) <= p < pos(m2.head.index) && off(p) != 31 implies r2.popped_at(
        p,
    ) by {
        if p < pos(m.head.index) {
            assert(r.popped_at(p));
            let w = choose|w: int|
                0 <= w < s.pops.len() && pop_owns(#[trigger] s.pops[w]) && s.pops[w].at() == p;
            assert(pop_owns(s2.pops[w]) && s2.pops[w].at() == p);
        } else {
            assert(pop_owns(s2.pops[i]) && s2.pops[i].at() == p);
        }
    }
    assert forall|k: int| 0 <= k < m2.chunks.len() && (
    #[trigger] m2.chunks[k]).ended implies r2.freed_before(k) || r2.freed_here(k) by {
        if m.chunks[k].ended {
            if !r.freed_before(k) {
                let w = choose|w: int|
                    0 <= w < s.pops.len() && (#[trigger] s.pops[w]).ended && lap(s.pops[w].at())
                        == k;
                assert(pop_ok(m, s.pops[w]));
                assert(s2.pops[w] == s.pops[w]);
            }
        } else {
            assert(s2.pops[i].ended && lap(s2.pops[i].at()) == k);
        }
    }
    assert forall|j: int| 0 <= j < s2.pops.len() && (
    #[trigger] s2.pops[j]).ended implies !r2.freed_before(lap(s2.pops[j].at())) by {
        if j != i || op.ended {
            assert(s2.pops[j] == s.pops[j]);
        } else {
            assert(!m.chunks[lap(op.at())].ended);
        }
    }
}

/// The ends of the queue only move on.
pub proof fn law_ends_move_on<T>(r: Run<T>, schedule: Seq<Event<T>>)
    requires
        r.wf(),
        r.allows_all(schedule),
    ensures
        pos(r.sys.mem.head.index) <= pos(r.after_all(schedule).sys.mem.head.index),
        pos(r.sys.mem.tail.index) <= pos(r.after_all(schedule).sys.mem.tail.index),
    decreases schedule.len(),
{
    if schedule.len() > 0 {
        law_event_keeps_wf(r, schedule[0]);
        match schedule[0] {
            Event::StepPush(i, _) => {
                assert(push_ok(r.sys.mem, r.sys.pushes[i]));
            },
            Event::StepPop(i, _) => {
                assert(pop_ok(r.sys.mem, r.sys.pops[i]));
            },
            _ => {},
        }
        law_ends_move_on(r.after(schedule[0]), schedule.skip(1));
    }
}

/// While pushes and pops are under way, a count that comes to its end gives the number of
/// values that were in the queue at one moment: when it read the head index. Between its
/// three reads anything may happen.
pub proof fn law_len_of_a_moment<T>(
    r: Run<T>,
    before: Seq<Event<T>>,
    after: Seq<Event<T>>,
)
    requires
        r.wf(),
        r.allows_all(before),
        r.after_all(before).allows_all(after),
    ensures
        ({
            let moment = r.after_all(before);
            let end = moment.after_all(after);
            let read = len_next(moment.sys.mem, len_next(r.sys.mem, LenOp::start()));
            let op = len_next(end.sys.mem, read);
            &&& read.ok(end.sys.mem)
            &&& op.stage is Done ==> op.count == items(moment.sys.mem).len()
            &&& op.stage !is Done ==> pos(end.sys.mem.tail.index) > pos(r.sys.mem.tail.index)
        }),
{
    let moment = r.after_all(before);
    law_any_schedule(r, before);
    law_any_schedule(moment, after);
    law_ends_move_on(r, before);
    law_ends_move_on(moment, after);
    let end = moment.after_all(after);
    assert(mem_ok(moment.sys.mem) && mem_ok(r.sys.mem) && mem_ok(end.sys.mem));
    if end.sys.mem.tail.index == r.sys.mem.tail.index {
        assert(pos(moment.sys.mem.tail.index) == pos(r.sys.mem.tail.index));
    }
}

/// Whatever the next thing that happens, what holds of a run goes on holding.
pub proof fn law_event_keeps_wf<T>(r: Run<T>, event: Event<T>)
    requires
        r.wf(),
        r.allows(event),
    ensures
        r.after(event).wf(),
{
    match event {
        Event::BeginPush(item) => lemma_begin_push(r, item),
        Event::BeginPop => lemma_begin_pop(r),
        Event::StepPush(i, spurious) => lemma_step_push(r, i, spurious),
        Event::StepPop(i, spurious) => lemma_step_pop(r, i, spurious),
    }
}

/// Threads may take their steps in any order whatever.
pub proof fn law_any_schedule<T>(r: Run<T>, schedule: Seq<Event<T>>)
    requires
        r.wf(),
        r.allows_all(schedule),
    ensures
        r.after_all(schedule).wf(),
    decreases schedule.len(),
{
    if schedule.len() > 0 {
        law_event_keeps_wf(r, schedule[0]);
        law_any_schedule(r.after(schedule[0]), schedule.skip(1));
    }
}

/// A pop that has taken a value has taken the one pushed at its place in the order
/// of pushes.
pub proof fn law_right_value<T>(r: Run<T>, i: int)
    requires
        r.wf(),
        0 <= i < r.sys.pops.len(),
        r.sys.pops[i].item is Some,
    ensures
        r.sys.pops[i].item == Some(r.sys.mem.pushed[num(r.sys.pops[i].at())]),
        num(pos(r.start.head.index)) <= num(r.sys.pops[i].at()) < r.sys.mem.pushed.len(),
{
    let op = r.sys.pops[i];
    assert(pop_ok(r.sys.mem, op));
    lemma_num_order(op.at(), pos(r.sys.mem.tail.index));
    if pos(r.start.head.index) < op.at() && off(pos(r.start.head.index)) != 31 {
        lemma_num_order(pos(r.start.head.index), op.at());
    }
}

/// No two pops are given one pushed value.
pub proof fn law_no_value_twice<T>(r: Run<T>, i: int, j: int)
    requires
        r.wf(),
        0 <= i < r.sys.pops.len(),
        0 <= j < r.sys.pops.len(),
        i != j,
        pop_owns(r.sys.pops[i]),
        pop_owns(r.sys.pops[j]),
    ensures
        num(r.sys.pops[i].at()) != num(r.sys.pops[j].at()),
{
    let a = r.sys.pops[i];
    let b = r.sys.pops[j];
    if i < j {
        assert(pops_apart(a, b));
    } else {
        assert(pops_apart(b, a));
    }
    if a.at() < b.at() {
        lemma_num_order(a.at(), b.at());
    } else {
        lemma_num_order(b.at(), a.at());
    }
}

/// No two pushes share a place in the order of pushes, and each that has its place
/// has its own value there.
pub proof fn law_every_push_has_its_place<T>(r: Run<T>, i: int, j: int)
    requires
        r.wf(),
        0 <= i < r.sys.pushes.len(),
        0 <= j < r.sys.pushes.len(),
        push_owns(r.sys.pushes[i]),
    ensures
        r.start.pushed.len() <= num(r.sys.pushes[i].at()) < r.sys.mem.pushed.len(),
        r.sys.mem.pushed[num(r.sys.pushes[i].at())] == r.given[i],
        i != j && push_owns(r.sys.pushes[j]) ==> num(r.sys.pushes[i].at()) != num(
            r.sys.pushes[j].at(),
        ),
{
    let a = r.sys.pushes[i];
    let b = r.sys.pushes[j];
    assert(r.push_kept(i));
    lemma_num_order(a.at(), pos(r.sys.mem.tail.index));
    if pos(r.start.tail.index) < a.at() && off(pos(r.start.tail.index)) != 31 {
        lemma_num_order(pos(r.start.tail.index), a.at());
    }
    if i != j && push_owns(b) {
        assert(r.push_kept(j));
        if i < j {
            assert(pushes_apart(a, b));
        } else {
            assert(pushes_apart(b, a));
        }
        if a.at() < b.at() {
            lemma_num_order(a.at(), b.at());
        } else {
            lemma_num_order(b.at(), a.at());
        }
    }
}

/// Where the pushes and pops of a run stand in order: the head never passes a value
/// that no pop has claimed, and the tail no place that no push has claimed.
pub proof fn law_no_value_lost<T>(r: Run<T>, p: int)
    requires
        r.wf(),
        off(p) != 31,
    ensures
        pos(r.start.head.index) <= p < pos(r.sys.mem.head.index) ==> r.popped_at(p),
        pos(r.start.tail.index) <= p < pos(r.sys.mem.tail.index) ==> r.pushed_at(p),
{
}

/// Once every operation is over, nothing is unfinished: the queue is at rest.
pub proof fn law_rest_after_all_done<T>(r: Run<T>)
    requires
        r.wf(),
        r.all_done(),
    ensures
        quiet(r.sys.mem),
        r.sys.mem.has_room(),
{
    let s = r.sys;
    let m = s.mem;
    let q = Sys { mem: m, pushes: Seq::<PushOp<T>>::empty(), pops: Seq::<PopOp<T>>::empty() };
    assert(!s.some_push_closes());
    assert(!s.some_push_publishes());
    assert(!s.some_pop_closes());
    assert forall|p: int| !s.some_push_claims(p) by {}
    assert forall|k: int| !s.some_push_links(k) by {}
    assert(q.safe());
    assert(q.complete());
}

/// A chunk is freed by one pop alone: no two pops free the same chunk, and none frees one
/// that had been freed.
pub proof fn law_chunk_freed_once<T>(r: Run<T>, i: int, j: int)
    requires
        r.wf(),
        0 <= i < r.sys.pops.len(),
        0 <= j < r.sys.pops.len(),
        i != j,
        r.sys.pops[i].ended,
    ensures
        r.sys.mem.chunks[lap(r.sys.pops[i].at())].ended,
        !r.freed_before(lap(r.sys.pops[i].at())),
        r.sys.pops[j].ended ==> lap(r.sys.pops[j].at()) != lap(r.sys.pops[i].at()),
{
    assert(pop_ok(r.sys.mem, r.sys.pops[i]));
    if i < j {
        assert(pops_apart(r.sys.pops[i], r.sys.pops[j]));
    } else {
        assert(pops_apart(r.sys.pops[j], r.sys.pops[i]));
    }
}

/// Once every operation is over, exactly one pop has freed each chunk that the head left
/// behind during the run.
pub proof fn law_finished_chunk_freed<T>(r: Run<T>, k: int)
    requires
        r.wf(),
        r.all_done(),
        0 <= k < r.sys.mem.chunks.len(),
        32 * (k + 1) <= pos(r.sys.mem.head.index),
        !r.freed_before(k),
    ensures
        exists|i: int|
            0 <= i < r.sys.pops.len() && (#[trigger] r.sys.pops[i]).ended && lap(
                r.sys.pops[i].at(),
            ) == k && (forall|j: int|
                0 <= j < r.sys.pops.len() && j != i && (#[trigger] r.sys.pops[j]).ended ==> lap(
                    r.sys.pops[j].at(),
                ) != k),
{
    law_rest_after_all_done(r);
    law_finished_chunks_are_freed(r.sys.mem, k);
    assert(r.sys.mem.chunks[k].ended);
    let i = choose|i: int|
        0 <= i < r.sys.pops.len() && (#[trigger] r.sys.pops[i]).ended && lap(r.sys.pops[i].at())
            == k;
    assert forall|j: int|
        0 <= j < r.sys.pops.len() && j != i && (#[trigger] r.sys.pops[j]).ended implies lap(
        r.sys.pops[j].at(),
    ) != k by {
        law_chunk_freed_once(r, i, j);
    }
}

/// No operation is about to touch a chunk that has been freed.
pub proof fn law_only_chunks_that_are_there<T>(r: Run<T>)
    requires
        r.wf(),
    ensures
        forall|i: int|
            0 <= i < r.sys.pushes.len() && push_claims(#[trigger] r.sys.pushes[i])
                ==> !r.sys.mem.chunks[lap(r.sys.pushes[i].at())].ended,
        forall|i: int|
            0 <= i < r.sys.pops.len() && (pop_reads(#[trigger] r.sys.pops[i]) || pop_ends(
                r.sys.pops[i],
            )) ==> !r.sys.mem.chunks[lap(r.sys.pops[i].at())].ended,
        forall|i: int|
            0 <= i < r.sys.pops.len() && (#[trigger] r.sys.pops[i]).stage is PeekNext
                ==> !r.sys.mem.chunks[r.sys.pops[i].next->0 as int].ended,
{
    assert forall|i: int|
        0 <= i < r.sys.pushes.len() && push_claims(
            #[trigger] r.sys.pushes[i],
        ) implies !r.sys.mem.chunks[lap(r.sys.pushes[i].at())].ended by {
        assert(push_ok(r.sys.mem, r.sys.pushes[i]));
    }
    assert forall|i: int|
        0 <= i < r.sys.pops.len() && (pop_reads(#[trigger] r.sys.pops[i]) || pop_ends(
            r.sys.pops[i],
        )) implies !r.sys.mem.chunks[lap(r.sys.pops[i].at())].ended by {
        assert(pop_ok(r.sys.mem, r.sys.pops[i]));
    }
    assert forall|i: int|
        0 <= i < r.sys.pops.len() && (
        #[trigger] r.sys.pops[i]).stage is PeekNext implies !r.sys.mem.chunks[r.sys.pops[i].next->0 as int].ended by {
        assert(pop_ok(r.sys.mem, r.sys.pops[i]));
    }
}

/// A pop ends without a value only at a moment when the queue holds none.
pub proof fn law_empty_pop_saw_empty_queue<T>(r: Run<T>, i: int, spurious: bool)
    requires
        r.wf(),
        r.allows(Event::StepPop(i, spurious)),
        r.sys.pops[i].stage !is Done,
        r.after(Event::StepPop(i, spurious)).sys.pops[i].stage is Done,
        r.after(Event::StepPop(i, spurious)).sys.pops[i].item is None,
    ensures
        items(r.sys.mem).len() == 0,
{
    assert(pop_ok(r.sys.mem, r.sys.pops[i]));
}

/// A pop that has not claimed a value when the head stands somewhere can only claim
/// one from there on, whatever happens in between: later pops get later values.
pub proof fn law_pops_in_order<T>(r: Run<T>, schedule: Seq<Event<T>>, i: int)
    requires
        r.wf(),
        r.allows_all(schedule),
        0 <= i < r.after_all(schedule).sys.pops.len(),
        i < r.sys.pops.len() ==> !pop_owns(r.sys.pops[i]),
        pop_owns(r.after_all(schedule).sys.pops[i]),
    ensures
        r.after_all(schedule).sys.pops[i].at() >= pos(r.sys.mem.head.index),
    decreases schedule.len(),
{
    if schedule.len() > 0 {
        let r2 = r.after(schedule[0]);
        law_event_keeps_wf(r, schedule[0]);
        lemma_head_moves_on(r, schedule[0]);
        if i < r2.sys.pops.len() && pop_owns(r2.sys.pops[i]) {
            lemma_claim_at_head(r, schedule[0], i);
            lemma_owned_pop_stays(r2, schedule.skip(1), i);
        } else {
            law_pops_in_order(r2, schedule.skip(1), i);
        }
    }
}

proof fn lemma_head_moves_on<T>(r: Run<T>, event: Event<T>)
    requires
        r.wf(),
        r.allows(event),
    ensures
        pos(r.sys.mem.head.index) <= pos(r.after(event).sys.mem.head.index),
        pos(r.sys.mem.tail.index) <= pos(r.after(event).sys.mem.tail.index),
{
    match event {
        Event::StepPush(i, _) => {
            assert(push_ok(r.sys.mem, r.sys.pushes[i]));
        },
        Event::StepPop(i, _) => {
            assert(pop_ok(r.sys.mem, r.sys.pops[i]));
        },
        _ => {},
    }
}

proof fn lemma_claim_at_head<T>(r: Run<T>, event: Event<T>, i: int)
    requires
        r.wf(),
        r.allows(event),
        0 <= i < r.after(event).sys.pops.len(),
        i < r.sys.pops.len() ==> !pop_owns(r.sys.pops[i]),
        pop_owns(r.after(event).sys.pops[i]),
    ensures
        r.after(event).sys.pops[i].at() == pos(r.sys.mem.head.index),
{
    match event {
        Event::StepPop(j, spurious) => {
            assert(pop_ok(r.sys.mem, r.sys.pops[j]));
            if j != i {
                assert(r.after(event).sys.pops[i] == r.sys.pops[i]);
            }
        },
        Event::BeginPop => {
            if i < r.sys.pops.len() {
                assert(r.after(event).sys.pops[i] == r.sys.pops[i]);
            }
        },
        _ => {},
    }
}

proof fn lemma_owned_pop_stays<T>(r: Run<T>, schedule: Seq<Event<T>>, i: int)
    requires
        r.wf(),
        r.allows_all(schedule),
        0 <= i < r.sys.pops.len(),
        pop_owns(r.sys.pops[i]),
    ensures
        r.after_all(schedule).sys.pops[i].at() == r.sys.pops[i].at(),
    decreases schedule.len(),
{
    if schedule.len() > 0 {
        let r2 = r.after(schedule[0]);
        law_event_keeps_wf(r, schedule[0]);
        assert(pop_ok(r.sys.mem, r.sys.pops[i]));
        match schedule[0] {
            Event::StepPop(j, spurious) => {
                if j != i {
                    assert(r2.sys.pops[i] == r.sys.pops[i]);
                }
            },
            _ => {
                assert(r2.sys.pops[i] == r.sys.pops[i]);
            },
        }
        lemma_owned_pop_stays(r2, schedule.skip(1), i);
    }
}

/// A push that has not claimed a place when the tail stands somewhere can only claim
/// one from there on, whatever happens in between: later pushes get later places.
pub proof fn law_pushes_in_order<T>(r: Run<T>, schedule: Seq<Event<T>>, i: int)
    requires
        r.wf(),
        r.allows_all(schedule),
        0 <= i < r.after_all(schedule).sys.pushes.len(),
        i < r.sys.pushes.len() ==> !push_owns(r.sys.pushes[i]),
        push_owns(r.after_all(schedule).sys.pushes[i]),
    ensures
        r.after_all(schedule).sys.pushes[i].at() >= pos(r.sys.mem.tail.index),
    decreases schedule.len(),
{
    if schedule.len() > 0 {
        let r2 = r.after(schedule[0]);
        law_event_keeps_wf(r, schedule[0]);
        lemma_head_moves_on(r, schedule[0]);
        if i < r2.sys.pushes.len() && push_owns(r2.sys.pushes[i]) {
            lemma_claim_at_tail(r, schedule[0], i);
            lemma_owned_push_stays(r2, schedule.skip(1), i);
        } else {
            law_pushes_in_order(r2, schedule.skip(1), i);
        }
    }
}

proof fn lemma_claim_at_tail<T>(r: Run<T>, event: Event<T>, i: int)
    requires
        r.wf(),
        r.allows(event),
        0 <= i < r.after(event).sys.pushes.len(),
        i < r.sys.pushes.len() ==> !push_owns(r.sys.pushes[i]),
        push_owns(r.after(event).sys.pushes[i]),
    ensures
        r.after(event).sys.pushes[i].at() == pos(r.sys.mem.tail.index),
{
    match event {
        Event::StepPush(j, spurious) => {
            assert(push_ok(r.sys.mem, r.sys.pushes[j]));
            if j != i {
                assert(r.after(event).sys.pushes[i] == r.sys.pushes[i]);
            }
        },
        Event::BeginPush(_) => {
            if i < r.sys.pushes.len() {
                assert(r.after(event).sys.pushes[i] == r.sys.pushes[i]);
            }
        },
        _ => {},
    }
}

proof fn lemma_owned_push_stays<T>(r: Run<T>, schedule: Seq<Event<T>>, i: int)
    requires
        r.wf(),
        r.allows_all(schedule),
        0 <= i < r.sys.pushes.len(),
        push_owns(r.sys.pushes[i]),
    ensures
        r.after_all(schedule).sys.pushes[i].at() == r.sys.pushes[i].at(),
    decreases schedule.len(),
{
    if schedule.len() > 0 {
        let r2 = r.after(schedule[0]);
        law_event_keeps_wf(r, schedule[0]);
        assert(push_ok(r.sys.mem, r.sys.pushes[i]));
        match schedule[0] {
            Event::StepPush(j, spurious) => {
                if j != i {
                    assert(r2.sys.pushes[i] == r.sys.pushes[i]);
                }
            },
            _ => {
                assert(r2.sys.pushes[i] == r.sys.pushes[i]);
            },
        }
        lemma_owned_push_stays(r2, schedule.skip(1), i);
    }
}

/// A queue on which any number of pushes and pops can be under way at once, each
/// taking its steps when its thread gets to run.
#[verifier::reject_recursive_types(T)]
pub struct Interleaved<T> {
    queue: CoQueue<T>,
    pushes: Vec<PushOp<T>>,
    pops: Vec<PopOp<T>>,
    given: Ghost<Seq<T>>,
    start: Ghost<Mem<T>>,
}

impl<T> Interleaved<T> {
    /// The two ends of the queue's channel for signals.
    pub closed spec fn ends(&self) -> (Sender<QueueState<T>>, Listener<T>) {
        self.queue.ends()
    }
}

impl<T> View for Interleaved<T> {
    type V = Run<T>;

    closed spec fn view(&self) -> Run<T> {
        Run {
            sys: Sys { mem: self.queue.mem(), pushes: self.pushes@, pops: self.pops@ },
            given: self.given@,
            start: self.start@,
        }
    }
}

impl<T> Interleaved<T> {
    /// Takes over a queue at rest.
    pub fn new(queue: CoQueue<T>) -> (run: Interleaved<T>)
        requires
            queue.wf(),
        ensures
            run@.wf(),
            run@ == Run::begin(queue.mem()),
            run.ends() == queue.ends(),
    {
        let run = Interleaved {
            given: Ghost(Seq::empty()),
            start: Ghost(queue.mem()),
            queue,
            pushes: Vec::new(),
            pops: Vec::new(),
        };
        proof {
            lemma_begin_wf(queue.mem());
            assert(run@ =~= Run::begin(queue.mem()));
        }
        run
    }

    /// Begins a push and returns its number.
    pub fn begin_push(&mut self, item: T) -> (id: usize)
        requires
            old(self)@.wf(),
        ensures
            final(self)@.wf(),
            final(self)@ == old(self)@.after(Event::BeginPush(item)),
            id == old(self)@.sys.pushes.len(),
            final(self).ends() == old(self).ends(),
    {
        let ghost r = self@;
        let id: usize = self.pushes.len();
        self.given = Ghost(self.given@.push(item));
        self.pushes.push(CoQueue::start_push(item));
        proof {
            law_event_keeps_wf(r, Event::BeginPush(item));
        }
        id
    }

    /// Begins a pop and returns its number.
    pub fn begin_pop(&mut self) -> (id: usize)
        requires
            old(self)@.wf(),
        ensures
            final(self)@.wf(),
            final(self)@ == old(self)@.after(Event::BeginPop),
            id == old(self)@.sys.pops.len(),
            final(self).ends() == old(self).ends(),
    {
        let ghost r = self@;
        let id: usize = self.pops.len();
        self.pops.push(CoQueue::start_pop());
        proof {
            law_event_keeps_wf(r, Event::BeginPop);
        }
        id
    }

    /// Lets push `id` take its next step. Returns whether its thread is to yield
    /// before the step after it.
    pub fn step_push(&mut self, id: usize, spurious: bool) -> (yields: bool)
        requires
            old(self)@.wf(),
            old(self)@.allows(Event::StepPush(id as int, spurious)),
        ensures
            final(self)@.wf(),
            final(self)@ == old(self)@.after(Event::StepPush(id as int, spurious)),
            yields == crate::co_model::push_yields(
                old(self)@.sys.mem,
                old(self)@.sys.pushes[id as int],
            ),
            final(self).ends() == old(self).ends(),
    {
        let ghost r = self@;
        assert(push_ok(r.sys.mem, r.sys.pushes[id as int]));
        let yields = self.queue.push_step(&mut self.pushes[id], spurious);
        proof {
            law_event_keeps_wf(r, Event::StepPush(id as int, spurious));
            assert(self@ =~= r.after(Event::StepPush(id as int, spurious)));
        }
        yields
    }

    /// Lets pop `id` take its next step. Returns whether its thread is to yield
    /// before the step after it.
    pub fn step_pop(&mut self, id: usize, spurious: bool) -> (yields: bool)
        requires
            old(self)@.wf(),
            old(self)@.allows(Event::StepPop(id as int, spurious)),
        ensures
            final(self)@.wf(),
            final(self)@ == old(self)@.after(Event::StepPop(id as int, spurious)),
            yields == crate::co_model::pop_yields(
                old(self)@.sys.mem,
                old(self)@.sys.pops[id as int],
            ),
            final(self).ends() == old(self).ends(),
    {
        let ghost r = self@;
        assert(pop_ok(r.sys.mem, r.sys.pops[id as int]));
        let yields = self.queue.pop_step(&mut self.pops[id], spurious);
        proof {
            law_event_keeps_wf(r, Event::StepPop(id as int, spurious));
            assert(self@ =~= r.after(Event::StepPop(id as int, spurious)));
        }
        yields
    }

    /// Lets a count of the values take its next read.
    pub fn len_step(&self, op: &mut LenOp)
        requires
            self@.wf(),
            old(op).ok(self@.sys.mem),
        ensures
            *final(op) == len_next(self@.sys.mem, *old(op)),
            final(op).ok(self@.sys.mem),
    {
        self.queue.len_step(op)
    }

    /// Whether push `id` is over.
    pub fn push_done(&self, id: usize) -> (done: bool)
        requires
            id < self@.sys.pushes.len(),
        ensures
            done == (self@.sys.pushes[id as int].stage is Done),
    {
        match self.pushes[id].stage {
            PushStage::Done => true,
            _ => false,
        }
    }

    /// What pop `id` came to, once it is over: the value it took, or that it found
    /// the queue empty.
    pub fn pop_result(&self, id: usize) -> (result: Option<Result<&T, ()>>)
        requires
            id < self@.sys.pops.len(),
        ensures
            result is Some <==> self@.sys.pops[id as int].stage is Done,
            result is Some ==> match self@.sys.pops[id as int].item {
                Some(item) => result->0 == Ok::<&T, ()>(&item),
                None => result->0 == Err::<&T, ()>(()),
            },
    {
        match self.pops[id].stage {
            PopStage::Done => match &self.pops[id].item {
                Some(item) => Some(Ok(item)),
                None => Some(Err(())),
            },
            _ => None,
        }
    }

    /// Hands the queue back once every operation is over.
    pub fn into_queue(self) -> (queue: CoQueue<T>)
        requires
            self@.wf(),
            self@.all_done(),
        ensures
            queue.wf(),
            queue.mem() == self@.sys.mem,
            queue.ends() == self.ends(),
    {
        proof {
            law_rest_after_all_done(self@);
        }
        self.queue
    }
}

} // verus!
