use futures::channel::mpsc::{TryRecvError, TrySendError, UnboundedReceiver, UnboundedSender};
use vstd::prelude::*;

use crate::message::Envelope;

verus! {

/// The sending half of futures' unbounded channel.
#[verifier::external_type_specification]
#[verifier::external_body]
#[verifier::reject_recursive_types(T)]
pub struct ExUnboundedSender<T>(UnboundedSender<T>);

/// The receiving half of futures' unbounded channel.
#[verifier::external_type_specification]
#[verifier::external_body]
#[verifier::reject_recursive_types(T)]
pub struct ExUnboundedReceiver<T>(UnboundedReceiver<T>);

/// The error of a send on a channel whose receiver is gone; it holds the value.
#[verifier::external_type_specification]
#[verifier::external_body]
#[verifier::reject_recursive_types(T)]
pub struct ExTrySendError<T>(TrySendError<T>);

/// The error of a receive on a channel that holds nothing.
#[verifier::external_type_specification]
#[verifier::external_body]
pub struct ExTryRecvError(TryRecvError);

/// Relies on futures::channel::mpsc::unbounded: a new channel, with its
/// sending and receiving halves.
pub assume_specification<T>[ futures::channel::mpsc::unbounded::<T> ]() -> (UnboundedSender<T>, UnboundedReceiver<T>);

/// Relies on UnboundedSender::unbounded_send: queues the value at the back of
/// the channel, or hands it back in the error when the receiver is gone.
pub assume_specification<T>[ UnboundedSender::<T>::unbounded_send ](
    sender: &UnboundedSender<T>,
    msg: T,
) -> Result<(), TrySendError<T>>;

/// Relies on UnboundedSender::len: how many values wait in the channel (0
/// once the channel is disconnected).
pub assume_specification<T>[ UnboundedSender::<T>::len ](sender: &UnboundedSender<T>) -> usize;

/// Relies on UnboundedReceiver::try_recv: takes the value at the front of the
/// channel, without waiting; an error when there is none.
pub assume_specification<T>[ UnboundedReceiver::<T>::try_recv ](
    receiver: &mut UnboundedReceiver<T>,
) -> Result<T, TryRecvError>;

/// Relies on UnboundedSender's `Clone`: another sending half of the same
/// channel. (futures panics when the count of senders reaches its maximum,
/// which no input of this function decides.)
pub assume_specification<T>[ <UnboundedSender<T> as Clone>::clone ](
    sender: &UnboundedSender<T>,
) -> UnboundedSender<T>;

/// The sending half of the commutator's channel of envelopes.
pub type Sender<M> = UnboundedSender<Envelope<M>>;

/// The receiving half of the commutator's channel of envelopes.
pub type Receiver<M> = UnboundedReceiver<Envelope<M>>;

/// A send failed: the commutator that owned the channel is gone.
#[derive(Clone, Copy, Debug, PartialEq, Eq, Structural)]
pub struct SendError;

/// Sends `envelope` on `sender`.
pub(crate) fn send_envelope<M>(sender: &Sender<M>, envelope: Envelope<M>) -> (r: Result<(), SendError>) {
    match sender.unbounded_send(envelope) {
        Ok(()) => Ok(()),
        Err(_) => Err(SendError),
    }
}

} // verus!
