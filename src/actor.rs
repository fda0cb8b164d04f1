use vstd::prelude::*;

use crate::channel::Sender;
use crate::message::{Envelope, Message, MessageType};

verus! {

/// An object that consumes envelopes, attached to a commutator.
///
/// Each lifecycle method comes with a relation between the actor before and
/// after the call, which the implementation names and meets; the commutator's
/// contracts say which of these calls it made on which actor.
pub trait Actor: Sized {
    type Message: Message;

    /// The topics this actor subscribes to when it is attached.
    spec fn spec_default_subscriptions(&self) -> Vec<<Self::Message as Message>::MessageType>;

    /// `after` is `before` once it has handled `envelope`.
    spec fn handled(before: Self, after: Self, envelope: Envelope<Self::Message>) -> bool;

    /// `after` is `before` once it has been told it is attached as `id`.
    spec fn attached_as(before: Self, after: Self, id: usize) -> bool;

    /// `after` is `before` once it has been initialised.
    spec fn initialised(before: Self, after: Self) -> bool;

    /// `after` is `before` once it has been told it is detached.
    spec fn detached(before: Self, after: Self) -> bool;

    /// Handles one envelope.
    fn handle(&mut self, envelope: &Envelope<Self::Message>)
        ensures
            Self::handled(*old(self), *final(self), *envelope),
    ;

    /// Called once when the actor is attached, with the id the commutator gave
    /// it and the sending half of the commutator's channel.
    fn on_attach(&mut self, id: usize, sender: &Sender<Self::Message>)
        ensures
            Self::attached_as(*old(self), *final(self), id),
    ;

    /// Called once when the actor is detached.
    fn on_detach(&mut self)
        ensures
            Self::detached(*old(self), *final(self)),
    ;

    /// Called once when the commutator starts running, or when the actor is
    /// attached with `attach_and_init`.
    fn init(&mut self)
        ensures
            Self::initialised(*old(self), *final(self)),
    ;

    /// Called before the actor is detached, by code that wants it.
    fn deinit(&mut self) {
    }

    /// The topics this actor subscribes to when it is attached.
    fn default_subscriptions(&self) -> (r: Vec<<Self::Message as Message>::MessageType>)
        ensures
            r@ == self.spec_default_subscriptions()@,
    ;
}

/// The keys of a sequence of topics.
pub open spec fn topic_keys<T: MessageType>(topics: Seq<T>) -> Set<u64> {
    Set::new(|k: u64| exists|i: int| 0 <= i < topics.len() && #[trigger] topics[i].spec_key() == k)
}

/// What the commutator records of an attached actor: its id and the keys of
/// the topics it subscribed to, each once.
pub struct HandlerComponent {
    pub id: Option<usize>,
    pub subscriptions: Vec<u64>,
}

impl HandlerComponent {
    /// A record with no id and no subscriptions.
    pub fn new() -> (r: HandlerComponent)
        ensures
            r.id is None,
            r.subscriptions@ == Seq::<u64>::empty(),
    {
        HandlerComponent { id: None, subscriptions: Vec::new() }
    }
}

} // verus!
