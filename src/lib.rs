//! Armature: event-driven systems built from actors, some of which carry a
//! hierarchical state machine (stators).
//!
//! - `message`: envelopes, origins, destinations and subscription topics.
//! - `channel`: the unbounded channel that carries envelopes to the commutator.
//! - `publisher`: anything that can inject envelopes into that channel.
//! - `actor`: what the commutator delivers envelopes to.
//! - `stator`: the hierarchical state machine engine and its deferral queue.
//! - `commutator`: the registry of actors, the subscription index and dispatch.
//!
//! States of a stator are numbered handlers: one method, `Stator::call_state`,
//! runs the handler of a given state. The meta-events that drive entry, exit
//! and the parent probe are the variants `Entry`, `Exit` and `Nop` of
//! `Signal`, beside `Signal::Event` for application events. A commutator gives
//! each actor an id of its own when it is attached and never reuses it.
pub mod actor;
pub mod channel;
pub mod commutator;
pub mod message;
pub mod publisher;
pub mod stator;

pub use actor::{Actor, HandlerComponent};
pub use channel::{Receiver, SendError, Sender};
pub use commutator::{Commutator, Flow, InterceptResult};
pub use message::{Destination, Envelope, Message, MessageType, Origin};
pub use publisher::{DeputyPublisher, Publisher};
pub use stator::{
    Action, Deferred, HsmError, Reaction, Response, Signal, Stator, StatorComponent, Step,
    MAX_DEPTH,
};
