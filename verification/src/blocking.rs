//! A queue with a channel of its own by which its iterator is stopped.

use std::sync::mpsc::Sender;
use std::sync::Mutex;

use vstd::prelude::*;

use crate::channel::{
    handle_for, handle_of, lemma_listened_on, listened, new_channel, one_channel, Listener,
    QueueError, QueueState,
};
use crate::co_model::Mem;
use crate::co_queue::CoQueue;
use crate::stream::{
    found_at, iterated, lemma_one_more_look, own_looks, poll_looks, round, stopped, stops,
    IterWaker, POKE_LIMIT,
};

verus! {

/// A chunked queue whose iterator listens to the blocking queue's own channel as well
/// as to that of the queue inside.
#[verifier::reject_recursive_types(T)]
pub struct BlockingQueue<T> {
    que: CoQueue<T>,
    recv: Listener<T>,
    send: Sender<QueueState<T>>,
}

impl<T> View for BlockingQueue<T> {
    type V = Seq<T>;

    /// The values in the queue, the first first.
    open spec fn view(&self) -> Seq<T> {
        self.inner()@
    }
}

impl<T> BlockingQueue<T> {
    /// The queue inside.
    pub closed spec fn inner(&self) -> CoQueue<T> {
        self.que
    }

    /// The two ends of the blocking queue's own channel for signals.
    pub closed spec fn ends(&self) -> (Sender<QueueState<T>>, Listener<T>) {
        (self.send, self.recv)
    }

    /// The channels are as they were: the queue's own and that of the queue inside.
    pub open spec fn same_ends(&self, other: &BlockingQueue<T>) -> bool {
        self.ends() == other.ends() && self.inner().ends() == other.inner().ends()
    }

    /// The words of the queue inside.
    pub open spec fn mem(&self) -> Mem<T> {
        self.inner().mem()
    }

    /// The queue inside is at rest.
    pub open spec fn wf(&self) -> bool {
        self.inner().wf()
    }

    /// An empty queue.
    pub fn new() -> (queue: BlockingQueue<T>)
        ensures
            queue.wf(),
            queue@ == Seq::<T>::empty(),
            queue.mem() == Mem::<T>::empty(),
            one_channel(queue.ends()),
            one_channel(queue.inner().ends()),
    {
        let (send, recv) = new_channel();
        BlockingQueue { que: CoQueue::new(), recv, send }
    }

    /// Whether the tail index can be moved on by this many pushes.
    pub fn has_room_for(&self, pushes: usize) -> (room: bool)
        ensures
            room == self.mem().has_room_for(pushes as nat),
    {
        self.que.has_room_for(pushes)
    }

    /// Puts `item` at the end of the queue.
    pub fn push(&mut self, item: T)
        requires
            old(self).wf(),
            old(self).mem().has_room_for(1),
        ensures
            final(self).wf(),
            final(self)@ == old(self)@.push(item),
            final(self).same_ends(old(self)),
            forall|n: nat|
                #![trigger final(self).mem().has_room_for(n)]
                old(self).mem().has_room_for(n + 1) ==> final(self).mem().has_room_for(n),
    {
        self.que.push(item)
    }

    /// Takes the value at the front of the queue. Fails if the queue is empty.
    pub fn pop(&mut self) -> (item: Result<T, ()>)
        requires
            old(self).wf(),
        ensures
            final(self).wf(),
            final(self).mem().tail == old(self).mem().tail,
            final(self).same_ends(old(self)),
            old(self)@.len() == 0 ==> item is Err && final(self)@ == old(self)@,
            old(self)@.len() > 0 ==> item == Ok::<T, ()>(old(self)@[0]) && final(self)@ == old(
                self,
            )@.skip(1),
    {
        self.que.pop()
    }

    /// Whether the queue holds no value.
    pub fn is_empty(&self) -> (empty: bool)
        requires
            self.wf(),
        ensures
            empty == (self@.len() == 0),
    {
        self.que.is_empty()
    }

    /// How many values are in the queue.
    pub fn len(&self) -> (count: usize)
        requires
            self.wf(),
        ensures
            count == self@.len(),
    {
        self.que.len()
    }

    /// An iterator over the values of the queue that goes on when it runs dry.
    pub fn iter(&mut self) -> (iter: BlockingIter<'_, T>)
        ensures
            *iter.0 == *old(self),
            *final(self) == *final(iter.0),
    {
        BlockingIter(self)
    }

    /// A handle by which to send this queue's iterator a signal.
    pub fn sender(&self) -> (sender: Mutex<Sender<QueueState<T>>>)
        ensures
            handle_of(self.ends().0, sender),
    {
        handle_for(&self.send)
    }
}

/// An iterator over the values of a blocking queue, which it takes out. When the queue
/// is empty it pokes its caller now and then; it ends when it is told to.
#[verifier::reject_recursive_types(T)]
pub struct BlockingIter<'a, T>(pub &'a mut BlockingQueue<T>);

impl<'a, T> BlockingIter<'a, T> {
    /// The next value, or a poke if none came up in a while, or the end if the queue
    /// was told to terminate. Fails if it was sent an error.
    pub fn next(&mut self) -> (outcome: Result<Option<IterWaker<T>>, QueueError>)
        requires
            old(self).0.wf(),
        ensures
            final(self).0.wf(),
            final(self).0.mem().tail == old(self).0.mem().tail,
            final(self).0.ends().0 == old(self).0.ends().0,
            final(self).0.inner().ends().0 == old(self).0.inner().ends().0,
            *final(final(self).0) == *final(old(self).0),
            exists|signals: Seq<(Option<QueueState<T>>, Option<QueueState<T>>)>| {
                let (own, polls) = (old(self).0.ends().1, old(self).0.inner().ends().1);
                &&& #[trigger] iterated(old(self).0@, signals, outcome, final(self).0@)
                &&& found_at(own.end(), polls.end(), signals)
                &&& listened(own, final(self).0.ends().1, own_looks(signals))
                &&& listened(polls, final(self).0.inner().ends().1, poll_looks(signals))
            },
    {
        let ghost items = self.0@;
        let ghost mut signals: Seq<(Option<QueueState<T>>, Option<QueueState<T>>)> = Seq::empty();
        let mut wake_count: u32 = 0;
        loop
            invariant
                wake_count <= POKE_LIMIT,
                signals.len() == wake_count,
                forall|k: int|
                    0 <= k < signals.len() ==> round(
                        items,
                        k as u32,
                        (#[trigger] signals[k]).0,
                        signals[k].1,
                    ) is None,
                items == old(self).0@,
                self.0@ == items,
                self.0.wf(),
                self.0.mem().tail == old(self).0.mem().tail,
                self.0.ends().0 == old(self).0.ends().0,
                self.0.inner().ends().0 == old(self).0.inner().ends().0,
                found_at(
                    old(self).0.ends().1.end(),
                    old(self).0.inner().ends().1.end(),
                    signals,
                ),
                listened(old(self).0.ends().1, self.0.ends().1, own_looks(signals)),
                listened(
                    old(self).0.inner().ends().1,
                    self.0.inner().ends().1,
                    poll_looks(signals),
                ),
                *final(self.0) == *final(old(self).0),
            decreases POKE_LIMIT + 1 - wake_count,
        {
            let ghost before = (self.0.ends().1, self.0.inner().ends().1);
            let own = self.0.recv.look();
            let polls = if stops(&own) {
                None
            } else {
                self.0.que.signal()
            };
            proof {
                lemma_listened_on(
                    old(self).0.ends().1,
                    before.0,
                    self.0.ends().1,
                    own_looks(signals),
                    seq![own],
                );
                if stopped(own) is None {
                    lemma_listened_on(
                        old(self).0.inner().ends().1,
                        before.1,
                        self.0.inner().ends().1,
                        poll_looks(signals),
                        seq![polls],
                    );
                }
                lemma_one_more_look(signals, own, polls);
                signals = signals.push((own, polls));
            }
            let outcome = self.0.que.round_on(wake_count, own, polls);
            match outcome {
                Some(outcome) => {
                    assert(iterated(items, signals, outcome, self.0@));
                    return outcome;
                },
                None => {
                    wake_count = wake_count + 1;
                },
            }
        }
    }
}

} // verus!
