use armature::{
    Actor, Commutator, Deferred, DeputyPublisher, Destination, Envelope, Flow, InterceptResult,
    Message, MessageType, Origin, Publisher, Sender,
};
use std::time::{Duration, Instant};

#[derive(Clone, Copy, Debug, PartialEq, Eq)]
pub enum Signal {
    Detach,
    Call,
    Respond,
}

impl MessageType for Signal {
    fn spec_key(&self) -> u64 {
        self.key()
    }

    fn key(&self) -> u64 {
        match self {
            Signal::Detach => 0,
            Signal::Call => 1,
            Signal::Respond => 2,
        }
    }
}

#[derive(Clone, Debug, PartialEq, Eq)]
pub enum Event {
    Detach(usize),
    Call(usize),
    Respond(usize),
}

impl Message for Event {
    type MessageType = Signal;

    fn spec_message_type(&self) -> Signal {
        self.message_type()
    }

    fn message_type(&self) -> Signal {
        match self {
            Event::Detach(_) => Signal::Detach,
            Event::Call(_) => Signal::Call,
            Event::Respond(_) => Signal::Respond,
        }
    }
}

#[derive(Default, Debug)]
struct Listener {
    id: usize,
    sender: Option<Sender<Event>>,
    listeners: Vec<usize>,
    received: Vec<Event>,
    detached: bool,
    initialised: usize,
}

impl Actor for Listener {
    type Message = Event;

    fn handled(_before: Self, _after: Self, _envelope: Envelope<Event>) -> bool {
        true
    }

    fn attached_as(_before: Self, after: Self, id: usize) -> bool {
        after.id == id
    }

    fn initialised(_before: Self, _after: Self) -> bool {
        true
    }

    fn detached(_before: Self, _after: Self) -> bool {
        true
    }


    fn on_attach(&mut self, id: usize, sender: &Sender<Event>) {
        self.id = id;
        self.sender = Some(sender.clone());
    }

    fn on_detach(&mut self) {
        self.detached = true;
    }

    fn init(&mut self) {
        self.initialised += 1;
        self.publish(Event::Call(self.id)).unwrap();
    }

    fn spec_default_subscriptions(&self) -> Vec<Signal> {
        vec![Signal::Respond, Signal::Call]
    }

    fn default_subscriptions(&self) -> Vec<Signal> {
        self.spec_default_subscriptions()
    }

    fn handle(&mut self, envelope: &Envelope<Event>) {
        self.received.push(envelope.message.clone());
        match envelope.message {
            Event::Call(id) => {
                self.post(Event::Respond(self.id), id).unwrap();
            }
            Event::Respond(id) => {
                self.listeners.push(id);
                if self.listeners.len() >= 3 {
                    self.publish(Event::Detach(self.id)).unwrap();
                }
            }
            _ => {}
        }
    }
}

impl Publisher for Listener {
    type Message = Event;

    fn sender(&self) -> &Sender<Event> {
        match &self.sender {
            Some(sender) => sender,
            None => panic!(),
        }
    }
}

type Interceptor = fn(&mut Commutator<Listener>, Event) -> InterceptResult<Event>;

// Runs the loop without waiting: stops on `Break` (true) or when nothing is
// left to deliver (false).
fn run(commutator: &mut Commutator<Listener>, interceptor: Interceptor) -> bool {
    commutator.init();
    while let Some(envelope) = commutator.try_next() {
        let Envelope { origin, destination, message } = envelope;
        let verdict = interceptor(commutator, message);
        if commutator.route(origin, destination, verdict).0 == Flow::Stop {
            return true;
        }
    }
    false
}

#[test]
fn commutator_sending() {
    let l1 = Listener::default();
    let l2 = Listener::default();
    let l3 = Listener::default();

    let mut commutator = Commutator::new();

    let interceptor: Interceptor = |commutator, message| match message {
        Event::Detach(id) => {
            commutator.detach(id);
            if commutator.handlers().iter().count() == 0 {
                InterceptResult::Break
            } else {
                InterceptResult::Interception
            }
        }
        _ => InterceptResult::Pass(message),
    };

    commutator.attach(l1);
    commutator.attach(l2);
    commutator.attach(l3);

    let timeout = Duration::from_millis(1000);
    let start = Instant::now();
    assert!(run(&mut commutator, interceptor));
    assert!(start.elapsed() < timeout);
    assert!(commutator.drain().len() == 0);
}

#[test]
fn attach_gives_fresh_ids_and_subscribes() {
    let mut commutator: Commutator<Listener> = Commutator::new();
    let a = commutator.attach(Listener::default());
    let b = commutator.attach(Listener::default());
    assert_ne!(a, b);
    assert_eq!(commutator.handlers().len(), 2);
    assert_eq!(commutator.get_handler(a).unwrap().id, a);
    assert_eq!(commutator.get_handler(b).unwrap().id, b);
    // not initialised by attach
    assert_eq!(commutator.get_handler(a).unwrap().initialised, 0);
    assert!(commutator.drain().is_empty());

    // a call reaches both subscribers, in the order they were attached
    let reached = commutator.deliver(Envelope::broadcast(Origin::Anonymous, Event::Call(99)));
    assert_eq!(reached, vec![a, b]);
    // nobody subscribed to Detach
    let reached = commutator.deliver(Envelope::broadcast(Origin::Anonymous, Event::Detach(99)));
    assert!(reached.is_empty());
}

#[test]
fn attach_and_init_initialises() {
    let mut commutator: Commutator<Listener> = Commutator::new();
    let a = commutator.attach_and_init(Listener::default());
    assert_eq!(commutator.get_handler(a).unwrap().initialised, 1);
    let queued = commutator.drain();
    assert_eq!(queued.len(), 1);
    assert_eq!(queued[0].message, Event::Call(a));
    assert_eq!(queued[0].origin, Origin::Anonymous);
    assert_eq!(queued[0].destination, Destination::All);
}

#[test]
fn detach_purges_subscriptions() {
    let mut commutator: Commutator<Listener> = Commutator::new();
    let a = commutator.attach(Listener::default());
    let b = commutator.attach(Listener::default());
    let gone = commutator.detach(a).unwrap();
    assert!(gone.detached);
    assert!(commutator.get_handler(a).is_none());
    assert!(commutator.detach(a).is_none());

    let reached = commutator.deliver(Envelope::broadcast(Origin::Anonymous, Event::Call(7)));
    assert_eq!(reached, vec![b]);
    let reached = commutator.deliver(Envelope::direct(Origin::Anonymous, Event::Call(7), a));
    assert!(reached.is_empty());
}

#[test]
fn single_destination_reaches_one_actor() {
    let mut commutator: Commutator<Listener> = Commutator::new();
    let a = commutator.attach(Listener::default());
    let b = commutator.attach(Listener::default());
    let reached = commutator.deliver(Envelope::direct(Origin::Actor(a), Event::Respond(a), b));
    assert_eq!(reached, vec![b]);
    assert_eq!(commutator.get_handler(b).unwrap().received, vec![Event::Respond(a)]);
    assert!(commutator.get_handler(a).unwrap().received.is_empty());
    // to an unknown id: dropped
    let reached = commutator.deliver(Envelope::direct(Origin::Anonymous, Event::Respond(a), 1000));
    assert!(reached.is_empty());
}

#[test]
fn fifo_delivery_to_each_subscriber() {
    let mut commutator: Commutator<Listener> = Commutator::new();
    let a = commutator.attach(Listener::default());
    let b = commutator.attach(Listener::default());
    commutator.publish(Event::Call(1)).unwrap();
    commutator.publish(Event::Respond(2)).unwrap();
    commutator.publish(Event::Call(3)).unwrap();
    let interceptor: Interceptor = |_, message| InterceptResult::Pass(message);
    while let Some(envelope) = commutator.try_next() {
        let Envelope { origin, destination, message } = envelope;
        let verdict = interceptor(&mut commutator, message);
        assert_eq!(commutator.route(origin, destination, verdict).0, Flow::Continue);
    }
    for id in [a, b] {
        let received = &commutator.get_handler(id).unwrap().received;
        assert_eq!(&received[..3], &[Event::Call(1), Event::Respond(2), Event::Call(3)]);
    }
}

#[test]
fn interception_and_break() {
    let mut commutator: Commutator<Listener> = Commutator::new();
    let a = commutator.attach(Listener::default());
    let (flow, reached) = commutator.route(Origin::Anonymous, Destination::All, InterceptResult::Interception);
    assert_eq!(flow, Flow::Continue);
    assert!(reached.is_empty());
    assert!(commutator.get_handler(a).unwrap().received.is_empty());
    let (flow, reached) = commutator.route(Origin::Anonymous, Destination::All, InterceptResult::Break);
    assert_eq!(flow, Flow::Stop);
    assert!(reached.is_empty());
    assert!(commutator.get_handler(a).unwrap().received.is_empty());
    let (flow, reached) =
        commutator.route(Origin::Anonymous, Destination::All, InterceptResult::Pass(Event::Respond(5)));
    assert_eq!(flow, Flow::Continue);
    assert_eq!(reached, vec![a]);
    assert_eq!(commutator.get_handler(a).unwrap().received, vec![Event::Respond(5)]);
}

#[test]
fn deputy_publishes_on_behalf_of_its_actor() {
    let mut commutator: Commutator<Listener> = Commutator::new();
    let a = commutator.attach(Listener::default());
    let deputy = DeputyPublisher::new(commutator.sender(), a);
    assert_eq!(deputy.actor_id(), a);
    assert_eq!(deputy.origin(), Origin::Actor(a));
    deputy.publish(Event::Call(1)).unwrap();
    deputy.post_to_self(Event::Respond(2)).unwrap();
    let queued = commutator.drain();
    assert_eq!(queued.len(), 2);
    assert_eq!(queued[0].origin, Origin::Actor(a));
    assert_eq!(queued[0].destination, Destination::All);
    assert_eq!(queued[1].destination, Destination::Single(a));
    assert_eq!(queued[1].message, Event::Respond(2));
}

#[test]
fn send_after_the_commutator_is_gone_fails() {
    let commutator: Commutator<Listener> = Commutator::new();
    let sender = commutator.sender().clone();
    drop(commutator);
    assert!(sender.publish(Event::Call(1)).is_err());
}

#[test]
fn deferred_event_is_recalled() {
    let mut commutator: Commutator<Listener> = Commutator::new();
    let a = commutator.attach(Listener::default());
    let deputy = DeputyPublisher::new(commutator.sender(), a);
    let mut deferred: Deferred<Event> = Deferred::new();
    assert!(deferred.recall_front(&deputy).is_none());
    deferred.defer(Event::Call(1));
    deferred.defer(Event::Call(2));
    deferred.defer(Event::Call(3));
    assert_eq!(deferred.len(), 3);
    assert_eq!(deferred.recall_front(&deputy), Some(Ok(())));
    assert_eq!(deferred.recall_back(&deputy), Some(Ok(())));
    assert_eq!(deferred.len(), 1);
    let queued = commutator.drain();
    assert_eq!(queued.len(), 2);
    assert_eq!(queued[0].message, Event::Call(1));
    assert_eq!(queued[0].destination, Destination::Single(a));
    assert_eq!(queued[1].message, Event::Call(3));
    assert_eq!(deferred.recall_all(&deputy), vec![Ok(())]);
    assert!(deferred.recall_all(&deputy).is_empty());
    assert_eq!(deferred.len(), 0);
    let queued = commutator.drain();
    assert_eq!(queued.len(), 1);
    assert_eq!(queued[0].message, Event::Call(2));
    deferred.defer(Event::Call(4));
    deferred.clear_deferred();
    assert_eq!(deferred.len(), 0);
}

#[test]
fn init_runs_once() {
    let mut commutator: Commutator<Listener> = Commutator::new();
    let a = commutator.attach(Listener::default());
    let b = commutator.attach(Listener::default());
    commutator.init();
    commutator.init();
    assert_eq!(commutator.get_handler(a).unwrap().initialised, 1);
    assert_eq!(commutator.get_handler(b).unwrap().initialised, 1);
    assert_eq!(commutator.drain().len(), 2);
}
