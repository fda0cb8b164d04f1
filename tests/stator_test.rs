use armature::stator::trim_common;
use armature::{Action, HsmError, Reaction, Response, Signal, Stator, StatorComponent, Step};

// The state tree:
// s
// ├─ s1 ─ s11, s12
// └─ s2 ─ s21 ─ s211
const S: usize = 0;
const S1: usize = 1;
const S11: usize = 2;
const S12: usize = 3;
const S2: usize = 4;
const S21: usize = 5;
const S211: usize = 6;

#[derive(Clone, Copy)]
enum Event {
    A,
    B,
    C,
    D,
}

#[derive(Default)]
struct Foo {
    path: Vec<(usize, Action)>,
}

impl Stator for Foo {
    type Event = Event;

    fn parent_of(state: usize) -> Option<usize> {
        match state {
            S11 | S12 => Some(S1),
            S1 | S2 => Some(S),
            S211 => Some(S21),
            S21 => Some(S2),
            _ => None,
        }
    }

    fn answer(state: usize, event: Event) -> Response {
        match state {
            S11 => match event {
                Event::A => Response::Transition(S11),
                Event::B => Response::Transition(S12),
                _ => Response::Parent(S1),
            },
            S12 => match event {
                Event::C => Response::Transition(S211),
                _ => Response::Parent(S1),
            },
            S1 => Response::Parent(S),
            S211 => Response::Parent(S21),
            S21 => Response::Parent(S2),
            S2 => match event {
                Event::D => Response::Transition(S11),
                _ => Response::Parent(S),
            },
            _ => Response::Handled,
        }
    }

    fn call_state(&mut self, state: usize, signal: &Signal<Event>) -> Response {
        match signal {
            Signal::Entry => {
                self.path.push((state, Action::Entry));
                Response::Handled
            }
            Signal::Exit => {
                self.path.push((state, Action::Exit));
                Response::Handled
            }
            Signal::Nop => match Self::parent_of(state) {
                Some(p) => Response::Parent(p),
                None => Response::Handled,
            },
            Signal::Event(event) => Self::answer(state, *event),
        }
    }
}

#[test]
fn stator_transition() {
    let mut foo = Foo::default();
    let mut engine = StatorComponent::new(S11);

    engine.init(&mut foo);
    engine.handle(&mut foo, Event::A).unwrap();
    engine.handle(&mut foo, Event::B).unwrap();
    engine.handle(&mut foo, Event::C).unwrap();
    engine.handle(&mut foo, Event::D).unwrap();

    let expected_path: [(usize, Action); 17] = [
        (S, Action::Entry),
        (S1, Action::Entry),
        (S11, Action::Entry),
        (S11, Action::Exit),
        (S11, Action::Entry),
        (S11, Action::Exit),
        (S12, Action::Entry),
        (S12, Action::Exit),
        (S1, Action::Exit),
        (S2, Action::Entry),
        (S21, Action::Entry),
        (S211, Action::Entry),
        (S211, Action::Exit),
        (S21, Action::Exit),
        (S2, Action::Exit),
        (S1, Action::Entry),
        (S11, Action::Entry),
    ];

    assert_eq!(foo.path.len(), expected_path.len());
    for i in 0..expected_path.len() {
        if foo.path[i] != expected_path[i] {
            panic!("Transition path is wrong.")
        } else {
            continue;
        }
    }
}

fn step(state: usize, action: Action) -> Step {
    Step { state, action }
}

#[test]
fn init_enters_root_to_initial_state() {
    let mut foo = Foo::default();
    let engine = StatorComponent::new(S211);
    let steps = engine.init(&mut foo);
    assert_eq!(
        steps,
        vec![step(S, Action::Entry), step(S2, Action::Entry), step(S21, Action::Entry), step(S211, Action::Entry)]
    );
    assert_eq!(engine.state(), S211);
}

#[test]
fn transition_steps_are_returned_and_state_changes() {
    let mut foo = Foo::default();
    let mut engine = StatorComponent::new(S12);
    let steps = engine.transition(&mut foo, S211);
    assert_eq!(
        steps,
        vec![
            step(S12, Action::Exit),
            step(S1, Action::Exit),
            step(S2, Action::Entry),
            step(S21, Action::Entry),
            step(S211, Action::Entry),
        ]
    );
    assert_eq!(engine.state(), S211);
}

#[test]
fn self_transition_exits_and_enters_once() {
    let mut foo = Foo::default();
    let mut engine = StatorComponent::new(S11);
    let steps = engine.handle(&mut foo, Event::A).unwrap();
    assert_eq!(steps, vec![step(S11, Action::Exit), step(S11, Action::Entry)]);
    assert_eq!(engine.state(), S11);
}

#[test]
fn handled_event_changes_nothing() {
    let mut foo = Foo::default();
    let mut engine = StatorComponent::new(S211);
    let steps = engine.handle(&mut foo, Event::A).unwrap();
    assert!(steps.is_empty());
    assert!(foo.path.is_empty());
    assert_eq!(engine.state(), S211);
}

#[test]
fn transition_to_an_ancestor_is_refused() {
    let mut foo = Foo::default();
    let mut engine = StatorComponent::new(S11);
    assert_eq!(engine.try_transition(&mut foo, S1), Err(HsmError::NotALeaf));
    assert_eq!(engine.state(), S11);
    assert!(foo.path.is_empty());
}

// A chain of states where state k's parent is k + 1, up to `TOP`.
struct Chain<const TOP: usize> {
    entered: usize,
}

impl<const TOP: usize> Stator for Chain<TOP> {
    type Event = ();

    fn parent_of(state: usize) -> Option<usize> {
        if state < TOP {
            Some(state + 1)
        } else {
            None
        }
    }

    fn answer(state: usize, _event: ()) -> Response {
        if state < TOP {
            Response::Parent(state + 1)
        } else {
            Response::Handled
        }
    }

    fn call_state(&mut self, state: usize, signal: &Signal<()>) -> Response {
        match signal {
            Signal::Entry => {
                self.entered += 1;
                Response::Handled
            }
            Signal::Exit => Response::Handled,
            _ => Self::answer(state, ()),
        }
    }
}

#[test]
fn depth_of_max_is_accepted() {
    // 17 states on the path: depth 16
    let mut chain: Chain<16> = Chain { entered: 0 };
    let engine = StatorComponent::new(0);
    let steps = engine.init(&mut chain);
    assert_eq!(steps.len(), 17);
    assert_eq!(steps[0], step(16, Action::Entry));
    assert_eq!(steps[16], step(0, Action::Entry));
}

#[test]
fn depth_over_max_is_fatal() {
    // 18 states on the path: depth 17
    let mut chain: Chain<17> = Chain { entered: 0 };
    let mut engine = StatorComponent::new(0);
    assert_eq!(engine.try_init(&mut chain), Err(HsmError::MaxDepthExceeded));
    assert_eq!(chain.entered, 0);
    assert_eq!(engine.try_transition(&mut chain, 1), Err(HsmError::MaxDepthExceeded));
    assert_eq!(engine.state(), 0);
}

#[test]
fn trim_keeps_parts_below_the_common_ancestor() {
    // exit path s12, s1, s; entry path s211, s21, s2, s
    let r = trim_common(vec![S12, S1, S], vec![S211, S21, S2, S]);
    assert_eq!(r, Some((vec![S12, S1], vec![S211, S21, S2])));
    // same state on both sides
    assert_eq!(trim_common(vec![S11, S1, S], vec![S11, S1, S]), Some((vec![S11], vec![S11])));
    // siblings
    assert_eq!(trim_common(vec![S11, S1, S], vec![S12, S1, S]), Some((vec![S11], vec![S12])));
    // different roots
    assert_eq!(trim_common(vec![1, 0], vec![3, 2]), Some((vec![1, 0], vec![3, 2])));
    // the target is an ancestor of the source
    assert_eq!(trim_common(vec![S11, S1, S], vec![S1, S]), None);
    assert_eq!(trim_common(vec![], vec![S]), None);
}

#[test]
fn react_follows_each_answer() {
    let mut foo = Foo::default();
    let mut engine = StatorComponent::new(S11);
    assert_eq!(engine.react(&mut foo, Response::Handled), Ok(Reaction::Handled));
    assert_eq!(engine.react(&mut foo, Response::Parent(S1)), Ok(Reaction::Bubble(S1)));
    assert_eq!(engine.state(), S11);
    assert!(foo.path.is_empty());
    assert_eq!(
        engine.react(&mut foo, Response::Transition(S12)),
        Ok(Reaction::Transitioned(vec![step(S11, Action::Exit), step(S12, Action::Entry)]))
    );
    assert_eq!(engine.state(), S12);
    assert_eq!(engine.react(&mut foo, Response::Transition(S)), Err(HsmError::NotALeaf));
    assert_eq!(engine.state(), S12);
}

#[test]
fn bubbling_past_max_depth_is_fatal() {
    let mut chain: Chain<16> = Chain { entered: 0 };
    let mut engine = StatorComponent::new(0);
    assert_eq!(engine.handle(&mut chain, ()), Ok(vec![]));
    let mut chain: Chain<17> = Chain { entered: 0 };
    assert_eq!(engine.handle(&mut chain, ()), Err(HsmError::MaxDepthExceeded));
    assert_eq!(engine.state(), 0);
}

#[test]
fn checked_transition_between_leaves_succeeds() {
    let mut foo = Foo::default();
    let mut engine = StatorComponent::new(S211);
    let steps = engine.try_transition(&mut foo, S11).unwrap();
    assert_eq!(
        steps,
        vec![
            step(S211, Action::Exit),
            step(S21, Action::Exit),
            step(S2, Action::Exit),
            step(S1, Action::Entry),
            step(S11, Action::Entry),
        ]
    );
    assert_eq!(engine.state(), S11);
    assert_eq!(engine.try_init(&mut foo).unwrap().len(), 3);
}
