//! The channel by which an iterator or a stream over a queue is told to stop.

use std::sync::mpsc::{channel, Receiver, Sender, TryRecvError};
use std::sync::Mutex;

use vstd::prelude::*;

verus! {

/// `std::sync::mpsc::Receiver`, the receiving end of a channel. Nothing is claimed
/// of what is inside.
#[verifier::external_type_specification]
#[verifier::external_body]
#[verifier::reject_recursive_types(T)]
pub struct ExReceiver<T>(std::sync::mpsc::Receiver<T>);

/// `std::sync::mpsc::Sender`, the sending end of a channel. Nothing is claimed of
/// what is inside.
#[verifier::external_type_specification]
#[verifier::external_body]
#[verifier::reject_recursive_types(T)]
pub struct ExSender<T>(std::sync::mpsc::Sender<T>);

/// `std::sync::mpsc::TryRecvError`, why there was nothing to receive.
#[verifier::external_type_specification]
#[verifier::external_body]
pub struct ExTryRecvError(std::sync::mpsc::TryRecvError);

/// `std::sync::Mutex`, in which a sender is handed out. Nothing is claimed of what is
/// inside.
#[verifier::external_type_specification]
#[verifier::external_body]
#[verifier::reject_recursive_types(T)]
pub struct ExMutex<T: ?Sized>(std::sync::Mutex<T>);

/// `std::sync::mpsc::channel` makes a channel and returns its two ends. Neither end
/// can be described, so nothing is claimed of them.
pub assume_specification<T>[ std::sync::mpsc::channel::<T> ]() -> (ends: (
    std::sync::mpsc::Sender<T>,
    std::sync::mpsc::Receiver<T>,
));

/// `Sender::clone` makes another sender for the same channel. Nothing is claimed of it.
pub assume_specification<T>[ <std::sync::mpsc::Sender<T> as Clone>::clone ](
    sender: &std::sync::mpsc::Sender<T>,
) -> (other: std::sync::mpsc::Sender<T>);

/// Calls `std::sync::Mutex::new`, which puts a value behind a lock. Nothing is claimed
/// of the result.
#[verifier::external_body]
pub(crate) fn behind_mutex<T>(value: T) -> (mutex: std::sync::Mutex<T>) {
    std::sync::Mutex::new(value)
}

/// `Receiver::try_recv` takes the oldest value sent and not yet received, without
/// waiting for one. What it finds rests on what other threads have sent, so nothing is
/// claimed of the result.
pub assume_specification<T>[ std::sync::mpsc::Receiver::<T>::try_recv ](
    receiver: &std::sync::mpsc::Receiver<T>,
) -> (received: Result<T, std::sync::mpsc::TryRecvError>);

/// What can go wrong in a queue.
#[derive(Clone, Copy, Debug, PartialEq, Eq, Structural)]
pub enum QueueError {
    Error,
}

impl QueueError {
    /// The error in words.
    pub fn describe(&self) -> (text: &'static str)
        ensures
            text@ == "Error"@,
    {
        match self {
            QueueError::Error => "Error",
        }
    }
}

/// What a queue has to say when it is asked for a value, and what it can be sent.
#[derive(Debug)]
pub enum QueueState<T> {
    /// Something is wrong.
    Error(QueueError),
    /// Here is a value.
    Yield(T),
    /// There is no value now: ask again.
    Spin,
    /// Iteration is to end.
    Terminate,
}

/// The two ends were made together, as those of one channel, and nobody has looked at the
/// receiving end yet.
pub open spec fn one_channel<T>(ends: (Sender<QueueState<T>>, Listener<T>)) -> bool {
    &&& call_ensures(channel::<QueueState<T>>, (), (ends.0, ends.1.end()))
    &&& ends.1.heard() == Seq::<Option<QueueState<T>>>::empty()
}

/// The sending end of a new channel, and its receiving end to be looked at.
pub(crate) fn new_channel<T>() -> (ends: (Sender<QueueState<T>>, Listener<T>))
    ensures
        one_channel(ends),
{
    let (send, recv) = channel();
    (send, Listener { recv, heard: Ghost(Seq::empty()) })
}

/// The handle is a clone of the sender, put behind a lock.
pub closed spec fn handle_of<T>(
    sender: Sender<QueueState<T>>,
    handle: Mutex<Sender<QueueState<T>>>,
) -> bool {
    exists|other: Sender<QueueState<T>>| #[trigger]
        call_ensures(<Sender<QueueState<T>> as Clone>::clone, (&sender,), other) && call_ensures(
            behind_mutex::<Sender<QueueState<T>>>,
            (other,),
            handle,
        )
}

/// A clone of the sender, behind a lock.
pub(crate) fn handle_for<T>(sender: &Sender<QueueState<T>>) -> (handle: Mutex<
    Sender<QueueState<T>>,
>)
    ensures
        handle_of(*sender, handle),
{
    behind_mutex(sender.clone())
}

/// The signal is what one look at the receiving end of a channel gave: a value that was
/// received there, or none.
pub open spec fn received_at<T>(
    recv: Receiver<QueueState<T>>,
    signal: Option<QueueState<T>>,
) -> bool {
    exists|received: Result<QueueState<T>, TryRecvError>| #[trigger]
        call_ensures(Receiver::<QueueState<T>>::try_recv, (&recv,), received) && signal
            == received.ok()
}

/// The receiving end of a channel for signals, with what every look at it gave. There is no
/// other way to look at it than one that is noted here.
#[verifier::reject_recursive_types(T)]
pub struct Listener<T> {
    recv: Receiver<QueueState<T>>,
    heard: Ghost<Seq<Option<QueueState<T>>>>,
}

impl<T> Listener<T> {
    /// The receiving end.
    pub closed spec fn end(&self) -> Receiver<QueueState<T>> {
        self.recv
    }

    /// What the looks at it gave, the first first.
    pub closed spec fn heard(&self) -> Seq<Option<QueueState<T>>> {
        self.heard@
    }

    /// The signal that waits at the receiving end, if there is one.
    pub fn look(&mut self) -> (signal: Option<QueueState<T>>)
        ensures
            received_at(old(self).end(), signal),
            listened(*old(self), *final(self), seq![signal]),
    {
        let signal = match self.recv.try_recv() {
            Ok(state) => Some(state),
            Err(_) => None,
        };
        self.heard = Ghost(self.heard@.push(signal));
        proof {
            assert(self.heard() =~= old(self).heard() + seq![signal]);
        }
        signal
    }
}

/// Between the two moments the receiving end was looked at so many times, and these looks gave
/// these signals: no look was made beyond them.
pub open spec fn listened<T>(
    before: Listener<T>,
    after: Listener<T>,
    signals: Seq<Option<QueueState<T>>>,
) -> bool {
    &&& after.end() == before.end()
    &&& after.heard() == before.heard() + signals
}

/// The two ends of one channel were made by one call, and nobody has looked at them yet.
pub proof fn law_ends_of_one_channel<T>(ends: (Sender<QueueState<T>>, Listener<T>))
    requires
        one_channel(ends),
    ensures
        call_ensures(channel::<QueueState<T>>, (), (ends.0, ends.1.end())),
        ends.1.heard().len() == 0,
{
}

/// A handle stands for the channel of the sender that it was made for: there is a clone of that
/// sender which it was made of.
pub proof fn law_handle_is_of_a_clone<T>(
    sender: Sender<QueueState<T>>,
    handle: Mutex<Sender<QueueState<T>>>,
)
    requires
        handle_of(sender, handle),
    ensures
        exists|other: Sender<QueueState<T>>| #[trigger]
            call_ensures(<Sender<QueueState<T>> as Clone>::clone, (&sender,), other),
{
}

/// What was heard before stays, and what the looks gave comes behind it, in their order, one
/// entry for each look; the receiving end stays the same.
pub proof fn law_every_look_is_noted<T>(
    before: Listener<T>,
    after: Listener<T>,
    signals: Seq<Option<QueueState<T>>>,
    k: int,
)
    requires
        listened(before, after, signals),
    ensures
        after.end() == before.end(),
        after.heard().len() == before.heard().len() + signals.len(),
        0 <= k < before.heard().len() ==> after.heard()[k] == before.heard()[k],
        0 <= k < signals.len() ==> after.heard()[before.heard().len() + k] == signals[k],
{
}

/// A signal that a look gave is one that was received, and a look that gave none received none.
pub proof fn law_signals_are_received<T>(
    recv: Receiver<QueueState<T>>,
    signal: Option<QueueState<T>>,
)
    requires
        received_at(recv, signal),
    ensures
        signal matches Some(state) ==> call_ensures(
            Receiver::<QueueState<T>>::try_recv,
            (&recv,),
            Ok(state),
        ),
        signal is None ==> exists|err: TryRecvError| #[trigger]
            call_ensures(
                Receiver::<QueueState<T>>::try_recv,
                (&recv,),
                Err::<QueueState<T>, TryRecvError>(err),
            ),
{
    let received = choose|received: Result<QueueState<T>, TryRecvError>| #[trigger]
        call_ensures(Receiver::<QueueState<T>>::try_recv, (&recv,), received) && signal
            == received.ok();
    match received {
        Ok(_) => {},
        Err(err) => {
            assert(call_ensures(
                Receiver::<QueueState<T>>::try_recv,
                (&recv,),
                Err::<QueueState<T>, TryRecvError>(err),
            ));
        },
    }
}

/// Looks that follow upon one another add up.
pub(crate) proof fn lemma_listened_on<T>(
    first: Listener<T>,
    second: Listener<T>,
    third: Listener<T>,
    signals: Seq<Option<QueueState<T>>>,
    more: Seq<Option<QueueState<T>>>,
)
    requires
        listened(first, second, signals),
        listened(second, third, more),
    ensures
        listened(first, third, signals + more),
{
    assert(first.heard() + signals + more =~= first.heard() + (signals + more));
}

} // verus!
