//! What a thread tells about itself to those who look for deadlocks: the resources that
//! it owns, and where it is stuck.

use backtrace::Backtrace;
use std::sync::mpsc::Sender;
use vstd::prelude::*;

verus! {

/// `backtrace::Backtrace`, a captured backtrace. Nothing is claimed of what is inside.
#[verifier::external_type_specification]
#[verifier::external_body]
pub struct ExBacktrace(Backtrace);

/// Calls `thread_id::get`, the number by which the system knows the current thread.
/// Nothing is claimed of it.
#[verifier::external_body]
fn current_thread() -> (id: usize) {
    thread_id::get()
}

/// The number is one by which the system named the thread that asked.
pub closed spec fn named_by_system(id: usize) -> bool {
    call_ensures(current_thread, (), id)
}

/// Calls `backtrace::Backtrace::new`, which captures where the current thread is. Nothing
/// is claimed of what comes back.
#[verifier::external_body]
fn capture() -> (backtrace: Backtrace) {
    Backtrace::new()
}

/// The backtrace is one that was captured of the thread that asked.
pub closed spec fn captured(backtrace: Backtrace) -> bool {
    call_ensures(capture, (), backtrace)
}

/// Representation of a deadlocked thread.
#[derive(Debug)]
pub struct DeadlockedThread {
    thread_id: usize,
    backtrace: Backtrace,
}

impl DeadlockedThread {
    /// The number of the thread.
    pub closed spec fn id(&self) -> usize {
        self.thread_id
    }

    /// Where the thread is stuck.
    pub closed spec fn trace(&self) -> Backtrace {
        self.backtrace
    }

    /// The system thread id.
    pub fn thread_id(&self) -> (id: usize)
        ensures
            id == self.id(),
    {
        self.thread_id
    }

    /// The thread backtrace.
    pub fn backtrace(&self) -> (trace: &Backtrace)
        ensures
            *trace == self.trace(),
    {
        &self.backtrace
    }
}

/// What deadlock detection keeps for each thread.
#[derive(Debug)]
pub struct DeadlockData {
    /// Currently owned resources (keys).
    pub resources: Vec<usize>,
    /// Set when there is a pending callstack request.
    pub deadlocked: bool,
    /// Sender used to report the backtrace.
    pub backtrace_sender: Option<Sender<DeadlockedThread>>,
    /// System thread id.
    pub thread_id: usize,
}

/// The place of the last occurrence of the key.
pub open spec fn last_place(resources: Seq<usize>, key: usize) -> int
    decreases resources.len(),
{
    if resources.len() == 0 || resources.last() == key {
        resources.len() - 1
    } else {
        last_place(resources.drop_last(), key)
    }
}

/// The resources without the last occurrence of the key. The last resource takes its
/// place.
pub open spec fn without(resources: Seq<usize>, key: usize) -> Seq<usize> {
    resources.update(last_place(resources, key), resources.last()).drop_last()
}

proof fn lemma_last_place(resources: Seq<usize>, key: usize, p: int)
    requires
        -1 <= p < resources.len(),
        p >= 0 ==> resources[p] == key,
        forall|q: int| p < q < resources.len() ==> resources[q] != key,
    ensures
        last_place(resources, key) == p,
    decreases resources.len(),
{
    if p < resources.len() - 1 {
        lemma_last_place(resources.drop_last(), key, p);
    }
}

impl DeadlockData {
    /// What is kept of the thread is as before, but that it owns these resources now.
    pub open spec fn owns_instead(&self, before: &DeadlockData, resources: Seq<usize>) -> bool {
        &&& self.resources@ == resources
        &&& self.deadlocked == before.deadlocked
        &&& self.backtrace_sender == before.backtrace_sender
        &&& self.thread_id == before.thread_id
    }

    /// A thread that owns nothing and is not known to be stuck.
    pub fn new() -> (data: DeadlockData)
        ensures
            data.resources@ == Seq::<usize>::empty(),
            !data.deadlocked,
            data.backtrace_sender is None,
            named_by_system(data.thread_id),
    {
        DeadlockData {
            resources: Vec::new(),
            deadlocked: false,
            backtrace_sender: None,
            thread_id: current_thread(),
        }
    }

    /// What a thread does once it has been unparked. If it was found to be deadlocked, it
    /// has a report to send, and is to park until the end of time after that.
    pub fn on_unpark(&mut self) -> (report: Option<(Sender<DeadlockedThread>, DeadlockedThread)>)
        requires
            old(self).deadlocked ==> old(self).backtrace_sender is Some,
        ensures
            final(self).resources@ == old(self).resources@,
            final(self).deadlocked == old(self).deadlocked,
            final(self).thread_id == old(self).thread_id,
            !old(self).deadlocked ==> report is None && final(self).backtrace_sender == old(
                self,
            ).backtrace_sender,
            old(self).deadlocked ==> final(self).backtrace_sender is None && (report matches Some(
                sent,
            ) && sent.0 == old(self).backtrace_sender->0 && sent.1.id() == old(self).thread_id
                && captured(sent.1.trace())),
    {
        if !self.deadlocked {
            return None;
        }
        match self.backtrace_sender.take() {
            None => None,
            Some(sender) => Some(
                (sender, DeadlockedThread { thread_id: self.thread_id, backtrace: capture() }),
            ),
        }
    }
}

/// Where a thread owns other resources than before, it owns those, and nothing else of what is
/// kept of it has changed.
pub proof fn law_owns_those_instead(before: DeadlockData, after: DeadlockData, resources: Seq<usize>)
    requires
        after.owns_instead(&before, resources),
    ensures
        after.resources@ == resources,
        after.deadlocked == before.deadlocked,
        after.backtrace_sender == before.backtrace_sender,
        after.thread_id == before.thread_id,
{
}

/// Notes that the thread owns the resource identified by the key. This is to be called
/// after the resource is acquired.
pub fn acquire_resource(data: &mut DeadlockData, key: usize)
    ensures
        final(data).owns_instead(old(data), old(data).resources@.push(key)),
{
    data.resources.push(key);
}

/// Notes that the thread does not own the resource identified by the key any more. This is
/// to be called before the resource is released. The thread owns it: it has acquired it, and
/// not released it as often.
pub fn release_resource(data: &mut DeadlockData, key: usize)
    requires
        old(data).resources@.contains(key),
    ensures
        final(data).owns_instead(old(data), without(old(data).resources@, key)),
{
    let mut p: usize = data.resources.len();
    while p > 0
        invariant
            p <= data.resources.len(),
            *data == *old(data),
            forall|q: int| p <= q < data.resources@.len() ==> data.resources@[q] != key,
        decreases p,
    {
        p = p - 1;
        if data.resources[p] == key {
            proof {
                lemma_last_place(data.resources@, key, p as int);
                assert(data.resources@.contains(key));
            }
            let _key: usize = data.resources.swap_remove(p);
            return;
        }
    }
}

/// Whether the thread owns the resource identified by the key: only then may it be released.
pub fn owns_resource(data: &DeadlockData, key: usize) -> (owned: bool)
    ensures
        owned == data.resources@.contains(key),
{
    let mut p: usize = 0;
    while p < data.resources.len()
        invariant
            p <= data.resources.len(),
            forall|q: int| 0 <= q < p ==> data.resources@[q] != key,
        decreases data.resources.len() - p,
    {
        if data.resources[p] == key {
            assert(data.resources@.contains(key));
            return true;
        }
        p = p + 1;
    }
    false
}

/// Releasing a resource undoes the acquiring of it.
pub proof fn law_release_undoes_acquire(resources: Seq<usize>, key: usize)
    ensures
        without(resources.push(key), key) == resources,
{
    lemma_last_place(resources.push(key), key, resources.len() as int);
    assert(without(resources.push(key), key) =~= resources);
}

/// Releasing a resource takes away the last occurrence of its key; the last of all resources
/// comes into its place, and all others stay where they are.
pub proof fn law_release_keeps_places(resources: Seq<usize>, key: usize, p: int)
    requires
        0 <= p < resources.len(),
        resources[p] == key,
        forall|q: int| p < q < resources.len() ==> resources[q] != key,
    ensures
        without(resources, key).len() == resources.len() - 1,
        p < resources.len() - 1 ==> without(resources, key)[p] == resources.last(),
        forall|i: int|
            0 <= i < resources.len() - 1 && i != p ==> #[trigger] without(resources, key)[i]
                == resources[i],
{
    lemma_last_place(resources, key, p);
}

/// Releasing a resource takes away one occurrence of its key and nothing else.
pub proof fn law_release_takes_one(resources: Seq<usize>, key: usize)
    requires
        resources.contains(key),
    ensures
        without(resources, key).to_multiset() == resources.to_multiset().remove(key),
{
    let p = last_place(resources, key);
    lemma_last_place_found(resources, key);
    let swapped = resources.update(p, resources.last());
    broadcast use vstd::seq_lib::group_to_multiset_ensures;

    assert(swapped.to_multiset() =~= resources.to_multiset().remove(key).insert(
        resources.last(),
    )) by {
        vstd::seq_lib::to_multiset_update(resources, p, resources.last());
    }
    assert(swapped =~= swapped.drop_last().push(resources.last()));
    assert(swapped.to_multiset() =~= swapped.drop_last().to_multiset().insert(resources.last()));
    assert(without(resources, key).to_multiset() =~= resources.to_multiset().remove(key)) by {
        let a = without(resources, key).to_multiset();
        let b = resources.to_multiset().remove(key);
        assert forall|x: usize| a.count(x) == b.count(x) by {
            assert(a.insert(resources.last()).count(x) == b.insert(resources.last()).count(x));
        }
    }
}

proof fn lemma_last_place_found(resources: Seq<usize>, key: usize)
    requires
        resources.contains(key),
    ensures
        0 <= last_place(resources, key) < resources.len(),
        resources[last_place(resources, key)] == key,
    decreases resources.len(),
{
    if resources.last() != key {
        let q = choose|q: int| 0 <= q < resources.len() && resources[q] == key;
        assert(resources.drop_last()[q] == key);
        lemma_last_place_found(resources.drop_last(), key);
    }
}

} // verus!
