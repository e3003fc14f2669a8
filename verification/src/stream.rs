//! A queue as a stream and as an iterator that does not end when it runs dry.

use std::sync::mpsc::Receiver;

use vstd::prelude::*;

use crate::channel::{
    lemma_listened_on, listened, received_at, Listener, QueueError, QueueState,
};
use crate::co_queue::CoQueue;

verus! {

/// What polling a queue for its next value comes to.
#[derive(Debug)]
pub enum Polled<T> {
    /// A value, or the end of the stream.
    Ready(Option<T>),
    /// No value yet.
    Pending,
    /// A signal said that something is wrong.
    Failed(QueueError),
}

/// What an iterator over a queue hands out.
#[derive(Debug)]
pub enum IterWaker<T> {
    /// A value.
    Item(T),
    /// Nothing but a sign of life: the queue stayed empty for a while.
    Poke,
}

/// How many polls that find nothing an iterator makes before it pokes its caller.
pub const POKE_LIMIT: u32 = 20;

/// What is left in a queue of `items` that is polled while `signal` waits.
pub open spec fn polled_items<T>(items: Seq<T>, signal: Option<QueueState<T>>) -> Seq<T> {
    match signal {
        Some(QueueState::Terminate) => items,
        Some(QueueState::Error(_)) => items,
        _ => if items.len() > 0 {
            items.skip(1)
        } else {
            items
        },
    }
}

/// What polling a queue of `items` comes to while `signal` waits.
pub open spec fn polled<T>(items: Seq<T>, signal: Option<QueueState<T>>) -> Polled<T> {
    match signal {
        Some(QueueState::Terminate) => Polled::Ready(None),
        Some(QueueState::Error(err)) => Polled::Failed(err),
        _ => if items.len() > 0 {
            Polled::Ready(Some(items[0]))
        } else {
            Polled::Pending
        },
    }
}

/// A signal ends the iteration, or makes it fail, or does neither.
pub open spec fn stopped<T>(signal: Option<QueueState<T>>) -> Option<
    Result<Option<IterWaker<T>>, QueueError>,
> {
    match signal {
        Some(QueueState::Terminate) => Some(Ok(None)),
        Some(QueueState::Error(err)) => Some(Err(err)),
        _ => None,
    }
}

/// What one round of an iterator comes to that has poked `wake_count` times in vain:
/// `None` is another round. The signals are those of the iterator's look and of the
/// poll's.
pub open spec fn round<T>(
    items: Seq<T>,
    wake_count: u32,
    own: Option<QueueState<T>>,
    polls: Option<QueueState<T>>,
) -> Option<Result<Option<IterWaker<T>>, QueueError>> {
    if stopped(own) is Some {
        stopped(own)
    } else {
        match polled(items, polls) {
            Polled::Ready(Some(item)) => Some(Ok(Some(IterWaker::Item(item)))),
            Polled::Ready(None) => Some(Ok(None)),
            Polled::Failed(err) => Some(Err(err)),
            Polled::Pending => if wake_count == POKE_LIMIT {
                Some(Ok(Some(IterWaker::Poke)))
            } else {
                None
            },
        }
    }
}

/// What is left in the queue after such a round.
pub open spec fn round_items<T>(
    items: Seq<T>,
    own: Option<QueueState<T>>,
    polls: Option<QueueState<T>>,
) -> Seq<T> {
    if stopped(own) is Some {
        items
    } else {
        polled_items(items, polls)
    }
}

/// The iterator came to `outcome` and left `rest`, by rounds that met some signals:
/// all but the last came to nothing.
pub open spec fn iterated<T>(
    items: Seq<T>,
    signals: Seq<(Option<QueueState<T>>, Option<QueueState<T>>)>,
    outcome: Result<Option<IterWaker<T>>, QueueError>,
    rest: Seq<T>,
) -> bool {
    let last = signals.len() - 1;
    &&& 1 <= signals.len() <= POKE_LIMIT + 1
    &&& (forall|k: int|
        0 <= k < last ==> round(items, k as u32, (#[trigger] signals[k]).0, signals[k].1) is None)
    &&& round(items, last as u32, signals[last].0, signals[last].1) == Some(outcome)
    &&& rest == round_items(items, signals[last].0, signals[last].1)
}

/// The signals of the iterator's looks are what was found at the one receiving end, and
/// those of the polls' looks what was found at the other.
pub open spec fn found_at<T>(
    own: Receiver<QueueState<T>>,
    polls: Receiver<QueueState<T>>,
    signals: Seq<(Option<QueueState<T>>, Option<QueueState<T>>)>,
) -> bool {
    forall|k: int|
        0 <= k < signals.len() ==> {
            &&& received_at(own, (#[trigger] signals[k]).0)
            &&& stopped(signals[k].0) is None ==> received_at(polls, signals[k].1)
        }
}

/// What the iterator's looks gave, the first first.
pub open spec fn own_looks<T>(
    signals: Seq<(Option<QueueState<T>>, Option<QueueState<T>>)>,
) -> Seq<Option<QueueState<T>>> {
    signals.map_values(|found: (Option<QueueState<T>>, Option<QueueState<T>>)| found.0)
}

/// What the polls' looks gave, the first first. There is no poll in a round that the iterator's
/// look has ended.
pub open spec fn poll_looks<T>(
    signals: Seq<(Option<QueueState<T>>, Option<QueueState<T>>)>,
) -> Seq<Option<QueueState<T>>>
    decreases signals.len(),
{
    if signals.len() == 0 {
        Seq::empty()
    } else if stopped(signals.last().0) is Some {
        poll_looks(signals.drop_last())
    } else {
        poll_looks(signals.drop_last()).push(signals.last().1)
    }
}

/// What all looks gave, the first first: in each round that of the iterator comes before that
/// of the poll.
pub open spec fn all_looks<T>(
    signals: Seq<(Option<QueueState<T>>, Option<QueueState<T>>)>,
) -> Seq<Option<QueueState<T>>>
    decreases signals.len(),
{
    if signals.len() == 0 {
        Seq::empty()
    } else if stopped(signals.last().0) is Some {
        all_looks(signals.drop_last()).push(signals.last().0)
    } else {
        all_looks(signals.drop_last()).push(signals.last().0).push(signals.last().1)
    }
}

/// What one more round adds to the looks.
pub(crate) proof fn lemma_one_more_look<T>(
    signals: Seq<(Option<QueueState<T>>, Option<QueueState<T>>)>,
    own: Option<QueueState<T>>,
    polls: Option<QueueState<T>>,
)
    ensures
        own_looks(signals.push((own, polls))) == own_looks(signals) + seq![own],
        stopped(own) is Some ==> {
            &&& poll_looks(signals.push((own, polls))) == poll_looks(signals)
            &&& all_looks(signals.push((own, polls))) == all_looks(signals) + seq![own]
        },
        stopped(own) is None ==> {
            &&& poll_looks(signals.push((own, polls))) == poll_looks(signals) + seq![polls]
            &&& all_looks(signals.push((own, polls))) == all_looks(signals) + seq![own] + seq![
                polls,
            ]
        },
{
    let more = signals.push((own, polls));
    assert(more.drop_last() =~= signals);
    assert(own_looks(more) =~= own_looks(signals) + seq![own]);
    assert(poll_looks(signals).push(polls) =~= poll_looks(signals) + seq![polls]);
    assert(all_looks(signals).push(own) =~= all_looks(signals) + seq![own]);
    assert(all_looks(signals).push(own).push(polls) =~= all_looks(signals) + seq![own] + seq![
        polls,
    ]);
}

/// The signal that a poll finds decides: it ends the stream, or makes it fail, and leaves the
/// values; any other is passed over, and the value at the front comes.
pub proof fn law_signal_decides<T>(items: Seq<T>, signal: Option<QueueState<T>>)
    ensures
        signal == Some(QueueState::<T>::Terminate) ==> polled(items, signal) == Polled::<
            T,
        >::Ready(None) && polled_items(items, signal) == items,
        signal matches Some(QueueState::Error(err)) ==> polled(items, signal) == Polled::<
            T,
        >::Failed(err) && polled_items(items, signal) == items,
        stopped(signal) is None ==> polled(items, signal) == polled(items, None) && polled_items(
            items,
            signal,
        ) == polled_items(items, None),
{
}

/// A poll that finds no signal to stop gives the value at the front, and takes that one out and
/// no other; if there is none, it is pending and changes nothing.
pub proof fn law_poll_gives_front<T>(items: Seq<T>, signal: Option<QueueState<T>>)
    requires
        signal != Some(QueueState::<T>::Terminate),
        !(signal matches Some(QueueState::Error(_))),
    ensures
        items.len() > 0 ==> polled(items, signal) == Polled::Ready(Some(items[0])) && polled_items(
            items,
            signal,
        ) == items.skip(1),
        items.len() == 0 ==> polled(items, signal) == Polled::<T>::Pending && polled_items(
            items,
            signal,
        ) == items,
{
}

/// Polls of a queue, one after the other, that find no signal to stop give its values in
/// order, and are pending once there is none left.
pub proof fn law_polls_in_order<T>(states: Seq<Seq<T>>, signals: Seq<Option<QueueState<T>>>, k: int)
    requires
        states.len() == signals.len() + 1,
        forall|j: int|
            0 <= j < signals.len() ==> #[trigger] states[j + 1] == polled_items(
                states[j],
                signals[j],
            ),
        forall|j: int|
            0 <= j < signals.len() ==> (#[trigger] signals[j]) != Some(QueueState::<T>::Terminate)
                && !(signals[j] matches Some(QueueState::Error(_))),
        0 <= k < signals.len(),
    ensures
        polled(states[k], signals[k]) == (if k < states[0].len() {
            Polled::Ready(Some(states[0][k]))
        } else {
            Polled::<T>::Pending
        }),
        k < states[0].len() ==> states[k + 1] == states[0].skip(k + 1),
        k >= states[0].len() ==> states[k + 1].len() == 0,
    decreases k,
{
    assert(states[k + 1] == polled_items(states[k], signals[k]));
    law_poll_gives_front(states[k], signals[k]);
    if k > 0 {
        law_polls_in_order(states, signals, k - 1);
        if k < states[0].len() {
            assert(states[0].skip(k).skip(1) =~= states[0].skip(k + 1));
        }
    }
}

/// A signal stops an iteration exactly if it says so: to terminate ends it, an error makes it
/// fail, and nothing else does either.
pub proof fn law_what_stops<T>(signal: Option<QueueState<T>>, err: QueueError)
    ensures
        signal == Some(QueueState::<T>::Terminate) <==> stopped(signal) == Some(
            Ok::<Option<IterWaker<T>>, QueueError>(None),
        ),
        signal == Some(QueueState::<T>::Error(err)) <==> stopped(signal) == Some(
            Err::<Option<IterWaker<T>>, QueueError>(err),
        ),
        signal is None || signal == Some(QueueState::<T>::Spin) || (
        signal matches Some(QueueState::Yield(_))) <==> stopped(signal) is None,
        stopped(signal) matches Some(Ok(end)) ==> end is None,
{
}

/// An iterator ends or fails only if it found a signal that says so; what it gives else is the
/// value at the front, or a sign of life if there is none. Whatever it comes to, it takes out
/// that value alone.
pub proof fn law_what_an_iterator_comes_to<T>(
    items: Seq<T>,
    signals: Seq<(Option<QueueState<T>>, Option<QueueState<T>>)>,
    outcome: Result<Option<IterWaker<T>>, QueueError>,
    rest: Seq<T>,
)
    requires
        iterated(items, signals, outcome, rest),
    ensures
        1 <= signals.len() <= 21,
        items.len() > 0 ==> signals.len() == 1,
        match outcome {
            Ok(None) => rest == items && (signals.last().0 == Some(QueueState::<T>::Terminate)
                || signals.last().1 == Some(QueueState::<T>::Terminate)),
            Err(err) => rest == items && (signals.last().0 == Some(QueueState::<T>::Error(err))
                || signals.last().1 == Some(QueueState::<T>::Error(err))),
            Ok(Some(IterWaker::Item(item))) => items.len() > 0 && item == items[0] && rest
                == items.skip(1),
            Ok(Some(IterWaker::Poke)) => items.len() == 0 && rest == items && signals.len() == 21,
        },
{
    let last = signals.len() - 1;
    if items.len() > 0 && signals.len() > 1 {
        assert(round(items, 0, signals[0].0, signals[0].1) is None);
    }
}

/// An iterator over an empty queue that finds no signal to stop at any of its looks pokes its
/// caller, after twenty-one rounds.
pub proof fn law_quiet_iterator_pokes<T>(
    items: Seq<T>,
    signals: Seq<(Option<QueueState<T>>, Option<QueueState<T>>)>,
    outcome: Result<Option<IterWaker<T>>, QueueError>,
    rest: Seq<T>,
)
    requires
        iterated(items, signals, outcome, rest),
        items.len() == 0,
        forall|k: int|
            0 <= k < signals.len() ==> stopped((#[trigger] signals[k]).0) is None && stopped(
                signals[k].1,
            ) is None,
    ensures
        outcome == Ok::<Option<IterWaker<T>>, QueueError>(Some(IterWaker::Poke)),
        signals.len() == 21,
{
    assert(stopped(signals.last().0) is None);
}

/// The looks that are noted are those of the rounds: one of the iterator's in each round, and
/// one of the poll's behind it unless the iterator's has stopped it.
pub proof fn law_looks_of_rounds<T>(
    signals: Seq<(Option<QueueState<T>>, Option<QueueState<T>>)>,
    k: int,
)
    requires
        0 <= k < signals.len(),
        forall|j: int|
            0 <= j < signals.len() - 1 ==> stopped((#[trigger] signals[j]).0) is None,
    ensures
        own_looks(signals).len() == signals.len(),
        own_looks(signals)[k] == signals[k].0,
        stopped(signals.last().0) is None ==> {
            &&& poll_looks(signals).len() == signals.len()
            &&& all_looks(signals).len() == 2 * signals.len()
        },
        stopped(signals.last().0) is Some ==> {
            &&& poll_looks(signals).len() == signals.len() - 1
            &&& all_looks(signals).len() == 2 * signals.len() - 1
        },
        all_looks(signals)[2 * k] == signals[k].0,
        stopped(signals[k].0) is None ==> {
            &&& poll_looks(signals)[k] == signals[k].1
            &&& all_looks(signals)[2 * k + 1] == signals[k].1
        },
    decreases signals.len(),
{
    reveal_with_fuel(poll_looks, 2);
    reveal_with_fuel(all_looks, 2);
    if signals.len() > 1 {
        let fewer = signals.drop_last();
        assert(stopped(signals[signals.len() - 2].0) is None);
        assert forall|j: int| 0 <= j < fewer.len() - 1 implies stopped(
            (#[trigger] fewer[j]).0,
        ) is None by {
            assert(fewer[j] == signals[j]);
        }
        assert(fewer.last() == signals[signals.len() - 2]);
        if k < fewer.len() {
            law_looks_of_rounds(fewer, k);
            assert(fewer[k] == signals[k]);
            assert(stopped(signals[k].0) is None);
        } else {
            law_looks_of_rounds(fewer, 0);
        }
    } else {
        assert(signals.drop_last() =~= Seq::empty());
    }
}

/// The first signal that an iterator finds decides, even if values are queued: it ends the
/// iteration, or makes it fail, and takes none of them. Any other is passed over: the value at
/// the front comes, if there is one.
pub proof fn law_first_signal_decides<T>(
    items: Seq<T>,
    signals: Seq<(Option<QueueState<T>>, Option<QueueState<T>>)>,
    outcome: Result<Option<IterWaker<T>>, QueueError>,
    rest: Seq<T>,
)
    requires
        iterated(items, signals, outcome, rest),
    ensures
        signals[0].0 == Some(QueueState::<T>::Terminate) ==> outcome == Ok::<
            Option<IterWaker<T>>,
            QueueError,
        >(None) && rest == items,
        signals[0].0 matches Some(QueueState::Error(err)) ==> outcome == Err::<
            Option<IterWaker<T>>,
            QueueError,
        >(err) && rest == items,
        stopped(signals[0].0) is None && stopped(signals[0].1) is None && items.len() > 0
            ==> outcome == Ok::<Option<IterWaker<T>>, QueueError>(
            Some(IterWaker::Item(items[0])),
        ) && rest == items.skip(1),
{
    if signals.len() > 1 {
        assert(round(items, 0, signals[0].0, signals[0].1) is None);
    }
}

/// Rounds that come to nothing have met no signal that ends the iteration.
proof fn lemma_quiet_rounds<T>(
    items: Seq<T>,
    signals: Seq<(Option<QueueState<T>>, Option<QueueState<T>>)>,
)
    requires
        signals.len() <= POKE_LIMIT,
        forall|k: int|
            0 <= k < signals.len() ==> round(
                items,
                k as u32,
                (#[trigger] signals[k]).0,
                signals[k].1,
            ) is None,
    ensures
        forall|k: int|
            0 <= k < own_looks(signals).len() ==> stopped(#[trigger] own_looks(signals)[k]) is None,
        forall|k: int|
            0 <= k < poll_looks(signals).len() ==> stopped(
                #[trigger] poll_looks(signals)[k],
            ) is None,
        forall|k: int|
            0 <= k < all_looks(signals).len() ==> stopped(#[trigger] all_looks(signals)[k]) is None,
    decreases signals.len(),
{
    if signals.len() > 0 {
        let n = signals.len() - 1;
        let fewer = signals.drop_last();
        assert forall|k: int| 0 <= k < fewer.len() implies round(
            items,
            k as u32,
            (#[trigger] fewer[k]).0,
            fewer[k].1,
        ) is None by {
            assert(fewer[k] == signals[k]);
        }
        lemma_quiet_rounds(items, fewer);
        assert(round(items, n as u32, signals[n].0, signals[n].1) is None);
        assert forall|k: int| 0 <= k < own_looks(signals).len() implies stopped(
            #[trigger] own_looks(signals)[k],
        ) is None by {
            if k < n {
                assert(own_looks(fewer)[k] == own_looks(signals)[k]);
            }
        }
    }
}

/// No look is thrown away: whatever signal to end, or to fail, an iterator finds at any of its
/// looks, it comes to that, and leaves the values. The looks are all those that were made
/// meanwhile.
pub proof fn law_no_signal_lost<T>(
    items: Seq<T>,
    signals: Seq<(Option<QueueState<T>>, Option<QueueState<T>>)>,
    outcome: Result<Option<IterWaker<T>>, QueueError>,
    rest: Seq<T>,
    before: Listener<T>,
    after: Listener<T>,
    k: int,
)
    requires
        iterated(items, signals, outcome, rest),
        ({
            ||| listened(before, after, own_looks(signals))
            ||| listened(before, after, poll_looks(signals))
            ||| listened(before, after, all_looks(signals))
        }),
        before.heard().len() <= k < after.heard().len(),
        stopped(after.heard()[k]) is Some,
    ensures
        stopped(after.heard()[k]) == Some(outcome),
        k == after.heard().len() - 1,
        rest == items,
{
    let last = signals.len() - 1;
    let fewer = signals.drop_last();
    let at = k - before.heard().len();
    assert forall|i: int| 0 <= i < fewer.len() implies round(
        items,
        i as u32,
        (#[trigger] fewer[i]).0,
        fewer[i].1,
    ) is None by {
        assert(fewer[i] == signals[i]);
    }
    lemma_quiet_rounds(items, fewer);
    assert(own_looks(signals).drop_last() =~= own_looks(fewer));
    if at < own_looks(signals).len() - 1 && listened(before, after, own_looks(signals)) {
        assert(own_looks(fewer)[at] == own_looks(signals)[at]);
    }
}

/// An iterator pokes its caller only after it has found the queue empty twenty-one times.
pub proof fn law_poke_after_empty_rounds<T>(
    items: Seq<T>,
    signals: Seq<(Option<QueueState<T>>, Option<QueueState<T>>)>,
    outcome: Result<Option<IterWaker<T>>, QueueError>,
    rest: Seq<T>,
)
    requires
        iterated(items, signals, outcome, rest),
        outcome == Ok::<Option<IterWaker<T>>, QueueError>(Some(IterWaker::Poke)),
    ensures
        signals.len() == POKE_LIMIT + 1,
        items.len() == 0,
        rest == items,
{
}

/// Whether a signal ends the iteration or makes it fail.
pub fn stops<T>(signal: &Option<QueueState<T>>) -> (stop: bool)
    ensures
        stop == (stopped(*signal) is Some),
{
    match signal {
        Some(QueueState::Terminate) => true,
        Some(QueueState::Error(_)) => true,
        _ => false,
    }
}

impl<T> CoQueue<T> {
    /// What the queue has to say when it is asked for a value: the value at its
    /// front, or that there is none.
    pub fn yield_value(&mut self) -> (state: QueueState<T>)
        requires
            old(self).wf(),
        ensures
            final(self).wf(),
            final(self).mem().tail == old(self).mem().tail,
            final(self).ends() == old(self).ends(),
            old(self)@.len() > 0 ==> state == QueueState::Yield(old(self)@[0]) && final(self)@
                == old(self)@.skip(1),
            old(self)@.len() == 0 ==> state is Spin && final(self)@ == old(self)@,
    {
        if !self.is_empty() {
            match self.pop() {
                Ok(item) => QueueState::Yield(item),
                Err(()) => QueueState::Error(QueueError::Error),
            }
        } else {
            QueueState::Spin
        }
    }

    /// Polls for the next value, given the signal that waits, if one does.
    pub fn poll_on(&mut self, signal: Option<QueueState<T>>) -> (res: Polled<T>)
        requires
            old(self).wf(),
        ensures
            final(self).wf(),
            final(self).mem().tail == old(self).mem().tail,
            final(self).ends() == old(self).ends(),
            res == polled(old(self)@, signal),
            final(self)@ == polled_items(old(self)@, signal),
    {
        match signal {
            Some(QueueState::Terminate) => return Polled::Ready(None),
            Some(QueueState::Error(err)) => return Polled::Failed(err),
            _ => {},
        }
        match self.yield_value() {
            QueueState::Spin => Polled::Pending,
            QueueState::Error(err) => Polled::Failed(err),
            QueueState::Yield(item) => Polled::Ready(Some(item)),
            QueueState::Terminate => Polled::Ready(None),
        }
    }

    /// Polls for the next value: the end if the queue was told to terminate, else the
    /// value at the front, else `Pending`.
    pub fn poll_next(&mut self) -> (res: Polled<T>)
        requires
            old(self).wf(),
        ensures
            final(self).wf(),
            final(self).mem().tail == old(self).mem().tail,
            final(self).ends().0 == old(self).ends().0,
            exists|signal: Option<QueueState<T>>| {
                &&& res == #[trigger] polled(old(self)@, signal)
                &&& final(self)@ == polled_items(old(self)@, signal)
                &&& received_at(old(self).ends().1.end(), signal)
                &&& listened(old(self).ends().1, final(self).ends().1, seq![signal])
            },
    {
        let signal = self.signal();
        proof {
            assert(self@ == old(self)@);
            assert(polled(old(self)@, signal) == polled(self@, signal));
        }
        self.poll_on(signal)
    }

    /// One round of an iterator over this queue, given the signals that its own look
    /// and the poll's look found: what it comes to, or `None` for another round.
    pub fn round_on(
        &mut self,
        wake_count: u32,
        own: Option<QueueState<T>>,
        polls: Option<QueueState<T>>,
    ) -> (outcome: Option<Result<Option<IterWaker<T>>, QueueError>>)
        requires
            old(self).wf(),
        ensures
            final(self).wf(),
            final(self).mem().tail == old(self).mem().tail,
            final(self).ends() == old(self).ends(),
            outcome == round(old(self)@, wake_count, own, polls),
            final(self)@ == round_items(old(self)@, own, polls),
    {
        match own {
            Some(QueueState::Terminate) => return Some(Ok(None)),
            Some(QueueState::Error(err)) => return Some(Err(err)),
            _ => {},
        }
        match self.poll_on(polls) {
            Polled::Ready(Some(item)) => Some(Ok(Some(IterWaker::Item(item)))),
            Polled::Ready(None) => Some(Ok(None)),
            Polled::Failed(err) => Some(Err(err)),
            Polled::Pending => {
                if wake_count == POKE_LIMIT {
                    Some(Ok(Some(IterWaker::Poke)))
                } else {
                    None
                }
            },
        }
    }

    /// An iterator over the values of the queue that goes on when it runs dry.
    pub fn into_iter(&mut self) -> (iter: CoQueIntoIter<'_, T>)
        ensures
            *iter.start == *old(self),
            *final(self) == *final(iter.start),
    {
        CoQueIntoIter { start: self }
    }
}

/// An iterator over the values of a queue, which it takes out. When the queue is
/// empty it pokes its caller now and then; it ends when it is told to.
#[verifier::reject_recursive_types(T)]
pub struct CoQueIntoIter<'a, T> {
    pub start: &'a mut CoQueue<T>,
}

impl<'a, T> CoQueIntoIter<'a, T> {
    /// The next value, or a poke if none came up in a while, or the end if the queue
    /// was told to terminate. Fails if it was sent an error.
    pub fn next(&mut self) -> (outcome: Result<Option<IterWaker<T>>, QueueError>)
        requires
            old(self).start.wf(),
        ensures
            final(self).start.wf(),
            final(self).start.mem().tail == old(self).start.mem().tail,
            final(self).start.ends().0 == old(self).start.ends().0,
            *final(final(self).start) == *final(old(self).start),
            exists|signals: Seq<(Option<QueueState<T>>, Option<QueueState<T>>)>| {
                let (before, after) = (old(self).start.ends().1, final(self).start.ends().1);
                &&& #[trigger] iterated(old(self).start@, signals, outcome, final(self).start@)
                &&& found_at(before.end(), before.end(), signals)
                &&& listened(before, after, all_looks(signals))
            },
    {
        let ghost items = self.start@;
        let ghost mut signals: Seq<(Option<QueueState<T>>, Option<QueueState<T>>)> = Seq::empty();
        let mut wake_count: u32 = 0;
        loop
            invariant
                wake_count <= POKE_LIMIT,
                signals.len() == wake_count,
                forall|k: int|
                    0 <= k < signals.len() ==> round(
                        items,
                        k as u32,
                        (#[trigger] signals[k]).0,
                        signals[k].1,
                    ) is None,
                items == old(self).start@,
                self.start@ == items,
                self.start.wf(),
                self.start.mem().tail == old(self).start.mem().tail,
                self.start.ends().0 == old(self).start.ends().0,
                found_at(
                    old(self).start.ends().1.end(),
                    old(self).start.ends().1.end(),
                    signals,
                ),
                listened(old(self).start.ends().1, self.start.ends().1, all_looks(signals)),
                *final(self.start) == *final(old(self).start),
            decreases POKE_LIMIT + 1 - wake_count,
        {
            let ghost (all, had) = (old(self).start.ends().1, all_looks(signals));
            let ghost before = self.start.ends().1;
            let own = self.start.signal();
            let ghost between = self.start.ends().1;
            let polls = if stops(&own) {
                None
            } else {
                self.start.signal()
            };
            proof {
                lemma_listened_on(all, before, between, had, seq![own]);
                if stopped(own) is None {
                    lemma_listened_on(
                        all,
                        between,
                        self.start.ends().1,
                        had + seq![own],
                        seq![polls],
                    );
                }
                lemma_one_more_look(signals, own, polls);
                signals = signals.push((own, polls));
            }
            let outcome = self.start.round_on(wake_count, own, polls);
            match outcome {
                Some(outcome) => {
                    assert(iterated(items, signals, outcome, self.start@));
                    return outcome;
                },
                None => {
                    wake_count = wake_count + 1;
                },
            }
        }
    }
}

} // verus!
