use vstd::prelude::*;

use crate::channel::{send_envelope, SendError, Sender};
use crate::message::{Destination, Envelope, Origin};

verus! {

/// Anything that can put envelopes into the commutator's channel.
pub trait Publisher {
    type Message;

    /// The channel's sending half.
    fn sender(&self) -> &Sender<Self::Message>;

    /// Who the envelopes come from.
    fn origin(&self) -> (r: Origin) {
        Origin::Anonymous
    }

    /// Sends `message` to every subscriber of its topic.
    fn publish(&self, message: Self::Message) -> (r: Result<(), SendError>) {
        let envelope = Envelope::broadcast(self.origin(), message);
        self.send(envelope)
    }

    /// Sends `message` to the actor `actor_id` alone.
    fn post(&self, message: Self::Message, actor_id: usize) -> (r: Result<(), SendError>) {
        let envelope = Envelope::direct(self.origin(), message, actor_id);
        self.send(envelope)
    }

    /// Sends an envelope as it is.
    fn send(&self, envelope: Envelope<Self::Message>) -> (r: Result<(), SendError>) {
        send_envelope(self.sender(), envelope)
    }
}

impl<M> Publisher for Sender<M> {
    type Message = M;

    fn sender(&self) -> &Sender<M> {
        self
    }
}

/// A cheap handle that publishes on behalf of an attached actor, for work
/// that runs apart from the actor (a timer, a task).
#[verifier::reject_recursive_types(M)]
pub struct DeputyPublisher<M> {
    sender: Sender<M>,
    actor_id: usize,
}

impl<M> DeputyPublisher<M> {
    pub closed spec fn spec_actor_id(&self) -> usize {
        self.actor_id
    }

    /// A deputy of the actor `actor_id` that sends through `sender`.
    pub fn new(sender: &Sender<M>, actor_id: usize) -> (r: DeputyPublisher<M>)
        ensures
            r.spec_actor_id() == actor_id,
    {
        DeputyPublisher { sender: sender.clone(), actor_id }
    }

    /// The actor this deputy speaks for.
    pub fn actor_id(&self) -> (r: usize)
        ensures
            r == self.spec_actor_id(),
    {
        self.actor_id
    }

    /// Another handle for the same actor and channel.
    pub fn duplicate(&self) -> (r: DeputyPublisher<M>)
        ensures
            r.spec_actor_id() == self.spec_actor_id(),
    {
        DeputyPublisher { sender: self.sender.clone(), actor_id: self.actor_id }
    }

    /// Sends `message` to the actor this deputy speaks for.
    pub fn post_to_self(&self, message: M) -> (r: Result<(), SendError>) {
        self.post(message, self.actor_id)
    }
}

impl<M> Publisher for DeputyPublisher<M> {
    type Message = M;

    fn sender(&self) -> &Sender<M> {
        &self.sender
    }

    fn origin(&self) -> (r: Origin)
        ensures
            r == Origin::Actor(self.spec_actor_id()),
    {
        Origin::Actor(self.actor_id)
    }
}

} // verus!
