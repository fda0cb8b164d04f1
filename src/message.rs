use vstd::prelude::*;

verus! {

/// Where an envelope is delivered.
#[derive(Clone, Copy, Debug, PartialEq, Eq, Structural)]
pub enum Destination {
    /// Every actor subscribed to the message's topic.
    All,
    /// The one actor with this id, if it is attached.
    Single(usize),
}

/// Who sent an envelope.
#[derive(Clone, Copy, Debug, PartialEq, Eq, Structural)]
pub enum Origin {
    Anonymous,
    Actor(usize),
}

/// A message on its way through the commutator.
#[derive(Clone, Debug)]
pub struct Envelope<M> {
    pub origin: Origin,
    pub destination: Destination,
    pub message: M,
}

impl<M> Envelope<M> {
    /// An envelope addressed to every subscriber of the message's topic.
    pub fn broadcast(origin: Origin, message: M) -> (r: Envelope<M>)
        ensures
            r.origin == origin,
            r.destination == Destination::All,
            r.message == message,
    {
        Envelope { origin, destination: Destination::All, message }
    }

    /// An envelope addressed to the actor `actor_id` alone.
    pub fn direct(origin: Origin, message: M, actor_id: usize) -> (r: Envelope<M>)
        ensures
            r.origin == origin,
            r.destination == Destination::Single(actor_id),
            r.message == message,
    {
        Envelope { origin, destination: Destination::Single(actor_id), message }
    }
}

/// The payload-free tag of a message, used as a subscription topic.
///
/// Subscriptions go by key: tags with equal keys are one topic, so an
/// implementation gives different tags different keys to tell them apart.
pub trait MessageType: Sized + Copy {
    /// The key of this tag.
    spec fn spec_key(&self) -> u64;

    fn key(&self) -> (k: u64)
        ensures
            k == self.spec_key(),
    ;
}

/// An application's message union.
///
/// `message_type` depends on the variant alone: messages of one variant with
/// different payloads have equal tags.
pub trait Message: Sized {
    type MessageType: MessageType;

    /// The tag of this message.
    spec fn spec_message_type(&self) -> Self::MessageType;

    fn message_type(&self) -> (t: Self::MessageType)
        ensures
            t == self.spec_message_type(),
    ;
}

/// The subscription key of a message: the key of its tag.
pub open spec fn topic_of<M: Message>(m: M) -> u64 {
    m.spec_message_type().spec_key()
}

/// The subscription key of `m`, computed.
pub fn topic<M: Message>(m: &M) -> (k: u64)
    ensures
        k == topic_of(*m),
{
    m.message_type().key()
}

} // verus!
