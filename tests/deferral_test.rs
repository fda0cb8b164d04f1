use armature::{
    Actor, Commutator, Deferred, DeputyPublisher, Envelope, Flow, InterceptResult, Message,
    MessageType, Response, Sender, Signal, Stator, StatorComponent,
};

#[derive(Clone, Copy, Debug, PartialEq, Eq)]
enum Kind {
    Work,
    Go,
}

impl MessageType for Kind {
    fn spec_key(&self) -> u64 {
        self.key()
    }

    fn key(&self) -> u64 {
        match self {
            Kind::Work => 10,
            Kind::Go => 20,
        }
    }
}

#[derive(Clone, Debug, PartialEq, Eq)]
enum Job {
    Work(u32),
    Go,
}

impl Message for Job {
    type MessageType = Kind;

    fn spec_message_type(&self) -> Kind {
        self.message_type()
    }

    fn message_type(&self) -> Kind {
        match self {
            Job::Work(_) => Kind::Work,
            Job::Go => Kind::Go,
        }
    }
}

const ROOT: usize = 0;
const IDLE: usize = 1;
const READY: usize = 2;

#[derive(Default)]
struct Machine {
    deferred: Option<Deferred<Job>>,
    deputy: Option<DeputyPublisher<Job>>,
    worked_when_ready: Vec<u32>,
}

impl Stator for Machine {
    type Event = Job;

    fn parent_of(state: usize) -> Option<usize> {
        if state == ROOT {
            None
        } else {
            Some(ROOT)
        }
    }

    fn answer(state: usize, event: Job) -> Response {
        match (state, event) {
            (ROOT, _) => Response::Handled,
            (IDLE, Job::Work(_)) => Response::Handled,
            (IDLE, Job::Go) => Response::Transition(READY),
            (READY, Job::Work(_)) => Response::Handled,
            _ => Response::Parent(ROOT),
        }
    }

    fn call_state(&mut self, state: usize, signal: &Signal<Job>) -> Response {
        match (state, signal) {
            (ROOT, _) => Response::Handled,
            (_, Signal::Nop) => Response::Parent(ROOT),
            (IDLE, Signal::Event(Job::Work(n))) => {
                self.deferred.as_mut().unwrap().defer(Job::Work(*n));
                Response::Handled
            }
            (IDLE, Signal::Event(Job::Go)) => Response::Transition(READY),
            (READY, Signal::Entry) => {
                let deputy = self.deputy.as_ref().unwrap();
                assert_eq!(self.deferred.as_mut().unwrap().recall_front(deputy), Some(Ok(())));
                Response::Handled
            }
            (READY, Signal::Event(Job::Work(n))) => {
                self.worked_when_ready.push(*n);
                Response::Handled
            }
            _ => Response::Parent(ROOT),
        }
    }
}

struct Worker {
    engine: StatorComponent,
    machine: Machine,
}

impl Actor for Worker {
    type Message = Job;

    fn handled(_before: Self, _after: Self, _envelope: Envelope<Job>) -> bool {
        true
    }

    fn attached_as(_before: Self, after: Self, id: usize) -> bool {
        after.machine.deputy.as_ref().map(|d| d.actor_id()) == Some(id)
    }

    fn initialised(_before: Self, _after: Self) -> bool {
        true
    }

    fn detached(_before: Self, _after: Self) -> bool {
        true
    }

    fn on_detach(&mut self) {}


    fn spec_default_subscriptions(&self) -> Vec<Kind> {
        vec![Kind::Work, Kind::Go]
    }

    fn default_subscriptions(&self) -> Vec<Kind> {
        self.spec_default_subscriptions()
    }

    fn on_attach(&mut self, id: usize, sender: &Sender<Job>) {
        self.machine.deputy = Some(DeputyPublisher::new(sender, id));
        self.machine.deferred = Some(Deferred::new());
    }

    fn init(&mut self) {
        self.engine.init(&mut self.machine);
    }

    fn handle(&mut self, envelope: &Envelope<Job>) {
        self.engine.handle(&mut self.machine, envelope.message.clone()).unwrap();
    }
}

#[test]
fn deferred_work_is_seen_by_the_ready_state() {
    let mut commutator: Commutator<Worker> = Commutator::new();
    assert!(commutator.has_free_id());
    let id = commutator.attach(Worker { engine: StatorComponent::new(IDLE), machine: Machine::default() });
    commutator.init();
    commutator.publish(Job::Work(7)).unwrap();
    commutator.publish(Job::Go).unwrap();
    while let Some(envelope) = commutator.try_next() {
        let Envelope { origin, destination, message } = envelope;
        let (flow, reached) = commutator.route(origin, destination, InterceptResult::Pass(message));
        assert_eq!(flow, Flow::Continue);
        assert_eq!(reached, vec![id]);
    }
    let worker = commutator.get_handler(id).unwrap();
    assert_eq!(worker.engine.state(), READY);
    assert_eq!(worker.machine.worked_when_ready, vec![7]);
    assert_eq!(worker.machine.deferred.as_ref().unwrap().len(), 0);
}
