use std::collections::VecDeque;
use vstd::prelude::*;

use crate::channel::SendError;
use crate::publisher::{DeputyPublisher, Publisher};

verus! {

/// How deep states may be nested: a path from a state up to its root holds at
/// most `MAX_DEPTH + 1` states.
pub const MAX_DEPTH: usize = 16;

/// What a state handler is asked to react to: one of the three meta-events, or
/// an application event.
pub enum Signal<E> {
    /// The state is being entered.
    Entry,
    /// The state is being left.
    Exit,
    /// A probe: the handler answers `Parent(p)` when `p` is its parent state.
    Nop,
    /// An application event.
    Event(E),
}

/// A state handler's answer.
#[derive(Clone, Copy, Debug, PartialEq, Eq, Structural)]
pub enum Response {
    Handled,
    /// Let the parent state handle the event (or, to a `Nop`, name the parent).
    Parent(usize),
    /// Change to the given (leaf) state.
    Transition(usize),
}

/// Whether a state is being left or entered.
#[derive(Clone, Copy, Debug, PartialEq, Eq, Structural)]
pub enum Action {
    Entry,
    Exit,
}

/// One entry or exit event fired at a state.
#[derive(Clone, Copy, Debug, PartialEq, Eq, Structural)]
pub struct Step {
    pub state: usize,
    pub action: Action,
}

/// Programmer errors in a state machine.
#[derive(Clone, Copy, Debug, PartialEq, Eq, Structural)]
pub enum HsmError {
    /// A path from a state to its root is longer than `MAX_DEPTH + 1` states
    /// (or never reaches a root).
    MaxDepthExceeded,
    /// A transition leaves no state to exit or to enter: its source and target
    /// are not both leaves.
    NotALeaf,
}

/// The parent that a `Nop` answer names, if any.
pub open spec fn named_parent(r: Response) -> Option<usize> {
    match r {
        Response::Parent(p) => Some(p),
        _ => None,
    }
}

/// The states `[s, parent(s), parent(parent(s)), ...]`, at most `fuel` of them.
pub open spec fn chain(parent: spec_fn(usize) -> Option<usize>, s: usize, fuel: nat) -> Seq<usize>
    decreases fuel,
{
    if fuel == 0 {
        Seq::empty()
    } else {
        seq![s] + match parent(s) {
            Some(p) => chain(parent, p, (fuel - 1) as nat),
            None => Seq::empty(),
        }
    }
}

/// Following parents from `s` reaches a root within `fuel` states.
pub open spec fn reaches_root(parent: spec_fn(usize) -> Option<usize>, s: usize, fuel: nat) -> bool
    decreases fuel,
{
    fuel > 0 && match parent(s) {
        Some(p) => reaches_root(parent, p, (fuel - 1) as nat),
        None => true,
    }
}

/// The path from `s` up to its root, as the engine builds it.
pub open spec fn path_up(parent: spec_fn(usize) -> Option<usize>, s: usize) -> Seq<usize> {
    chain(parent, s, (MAX_DEPTH + 1) as nat)
}

/// `s` lies in a tree of allowed depth.
pub open spec fn rooted(parent: spec_fn(usize) -> Option<usize>, s: usize) -> bool {
    reaches_root(parent, s, (MAX_DEPTH + 1) as nat)
}

/// The exit and entry paths once their shared top has been taken off: shared
/// states are removed from the root side while both paths end in the same
/// state, except that two paths of one (equal) state are kept. `None` when a
/// path runs out.
pub open spec fn trim(exit: Seq<usize>, entry: Seq<usize>) -> Option<(Seq<usize>, Seq<usize>)>
    decreases exit.len(),
{
    if exit.len() == 0 || entry.len() == 0 {
        None
    } else if exit.last() != entry.last() || (exit.len() == 1 && entry.len() == 1) {
        Some((exit, entry))
    } else {
        trim(exit.drop_last(), entry.drop_last())
    }
}

/// Trimming never leaves an empty path.
pub proof fn lemma_trim_nonempty(exit: Seq<usize>, entry: Seq<usize>)
    ensures
        trim(exit, entry) matches Some((x, n)) ==> x.len() > 0 && n.len() > 0,
    decreases exit.len(),
{
    if exit.len() > 0 && entry.len() > 0 && exit.last() == entry.last() && !(exit.len() == 1
        && entry.len() == 1) {
        lemma_trim_nonempty(exit.drop_last(), entry.drop_last());
    }
}

/// Removes the shared top of an exit path and an entry path (see `trim`).
pub fn trim_common(exit_path: Vec<usize>, entry_path: Vec<usize>) -> (r: Option<(Vec<usize>, Vec<usize>)>)
    ensures
        match r {
            Some((x, n)) => trim(exit_path@, entry_path@) == Some((x@, n@)),
            None => trim(exit_path@, entry_path@) is None,
        },
{
    let mut exit = exit_path;
    let mut entry = entry_path;
    loop
        invariant
            trim(exit@, entry@) == trim(exit_path@, entry_path@),
        decreases exit.len(),
    {
        if exit.len() == 0 || entry.len() == 0 {
            return None;
        }
        let x = exit[exit.len() - 1];
        let n = entry[entry.len() - 1];
        if x != n || (exit.len() == 1 && entry.len() == 1) {
            return Some((exit, entry));
        }
        exit.pop();
        entry.pop();
    }
}


/// A state machine whose states are numbered handlers.
///
/// Each state answers a `Nop` probe with `Parent(p)` when `p` is its parent and
/// with anything else when it is a root; the parent links form a tree. A
/// state never answers an entry or exit event with a transition, and its
/// answer to an application event depends on the state and the event alone.
pub trait Stator: Sized {
    type Event;

    /// The parent of `state`, as its handler names it.
    spec fn parent_of(state: usize) -> Option<usize>;

    /// The answer of the handler of `state` to the application event `event`.
    spec fn answer(state: usize, event: Self::Event) -> Response;

    /// Runs the handler of `state` on `signal`.
    fn call_state(&mut self, state: usize, signal: &Signal<Self::Event>) -> (r: Response)
        ensures
            *signal is Nop ==> named_parent(r) == Self::parent_of(state),
            (*signal is Entry || *signal is Exit) ==> !(r is Transition),
            (*signal matches Signal::Event(e) ==> r == Self::answer(state, e)),
    ;
}

/// Where an application event ends up when it is handed to `state`: the
/// state whose handler does not pass it on, and that handler's answer; `None`
/// when more than `fuel` handlers would pass it on.
pub open spec fn bubble<S: Stator>(state: usize, event: S::Event, fuel: nat) -> Option<(usize, Response)>
    decreases fuel,
{
    if fuel == 0 {
        None
    } else {
        match S::answer(state, event) {
            Response::Parent(p) => bubble::<S>(p, event, (fuel - 1) as nat),
            r => Some((state, r)),
        }
    }
}

/// What a checked transition from `source` to `target` gives, and the state
/// it leaves the stator in: the depth error when a path is too long, the
/// leaf error when trimming runs out, and otherwise the transition's steps.
pub open spec fn transition_result<S: Stator>(
    source: usize,
    target: usize,
    r: Result<Vec<Step>, HsmError>,
    after: usize,
) -> bool {
    let pf = parents::<S>();
    if !rooted(pf, source) || !rooted(pf, target) {
        r == Err::<Vec<Step>, HsmError>(HsmError::MaxDepthExceeded) && after == source
    } else if trim(path_up(pf, source), path_up(pf, target)) is None {
        r == Err::<Vec<Step>, HsmError>(HsmError::NotALeaf) && after == source
    } else {
        (r matches Ok(steps) && steps@ == transition_steps(pf, source, target)) && after == target
    }
}

/// The parent links of a stator's states.
pub open spec fn parents<S: Stator>() -> spec_fn(usize) -> Option<usize> {
    |s: usize| S::parent_of(s)
}

/// The exit events fired along `path`, in its order.
pub open spec fn exit_steps(path: Seq<usize>) -> Seq<Step> {
    Seq::new(path.len(), |i: int| Step { state: path[i], action: Action::Exit })
}

/// The entry events fired along `path`, from its last state to its first.
pub open spec fn entry_steps(path: Seq<usize>) -> Seq<Step> {
    Seq::new(path.len(), |i: int| Step { state: path[path.len() - 1 - i], action: Action::Entry })
}

/// The entry events that put a fresh stator into `init`: from the root down.
pub open spec fn init_steps(parent: spec_fn(usize) -> Option<usize>, init: usize) -> Seq<Step> {
    entry_steps(path_up(parent, init))
}

/// The exit events, then the entry events, of a transition from `source` to
/// `target`.
pub open spec fn transition_steps(
    parent: spec_fn(usize) -> Option<usize>,
    source: usize,
    target: usize,
) -> Seq<Step> {
    match trim(path_up(parent, source), path_up(parent, target)) {
        Some((x, n)) => exit_steps(x) + entry_steps(n),
        None => Seq::empty(),
    }
}

/// Probes `state` with `Nop` for its parent.
pub fn get_parent_state<S: Stator>(machine: &mut S, state: usize) -> (r: Option<usize>)
    ensures
        r == S::parent_of(state),
{
    match machine.call_state(state, &Signal::Nop) {
        Response::Parent(p) => Some(p),
        _ => None,
    }
}

/// The path `[state, parent(state), ..., root]`, built by probing.
pub fn path_to_root<S: Stator>(machine: &mut S, state: usize) -> (r: Result<Vec<usize>, HsmError>)
    ensures
        match r {
            Ok(p) => rooted(parents::<S>(), state) && p@ == path_up(parents::<S>(), state),
            Err(e) => !rooted(parents::<S>(), state) && e == HsmError::MaxDepthExceeded,
        },
{
    let ghost pf = parents::<S>();
    let ghost full = (MAX_DEPTH + 1) as nat;
    let mut path: Vec<usize> = Vec::new();
    let mut cur = state;
    let mut i: usize = 0;
    loop
        invariant
            i <= MAX_DEPTH,
            path@.len() == i,
            path@ + chain(pf, cur, (full - i) as nat) == chain(pf, state, full),
            reaches_root(pf, cur, (full - i) as nat) == reaches_root(pf, state, full),
            pf == parents::<S>(),
            full == (MAX_DEPTH + 1) as nat,
        decreases MAX_DEPTH - i,
    {
        let ghost before = path@;
        path.push(cur);
        let parent = get_parent_state(machine, cur);
        proof {
            assert(pf(cur) == S::parent_of(cur));
            let f = (full - i) as nat;
            assert(f > 0);
            assert(chain(pf, cur, f) == seq![cur] + match pf(cur) {
                Some(p) => chain(pf, p, (f - 1) as nat),
                None => Seq::empty(),
            });
        }
        match parent {
            None => {
                proof {
                    assert(chain(pf, cur, (full - i) as nat) =~= seq![cur]);
                }
                return Ok(path);
            },
            Some(p) => {
                if i == MAX_DEPTH {
                    proof {
                        assert(!reaches_root(pf, p, 0));
                        assert(!reaches_root(pf, cur, 1));
                    }
                    return Err(HsmError::MaxDepthExceeded);
                }
                proof {
                    let f = (full - i) as nat;
                    assert(chain(pf, cur, f) == seq![cur] + chain(pf, p, (f - 1) as nat));
                    assert(before + chain(pf, cur, f) =~= path@ + chain(pf, p, (f - 1) as nat));
                }
                cur = p;
                i = i + 1;
            },
        }
    }
}

/// Fires `Exit` at each state of `path`, in order.
fn fire_exits<S: Stator>(machine: &mut S, path: &Vec<usize>) -> (steps: Vec<Step>)
    ensures
        steps@ == exit_steps(path@),
{
    let mut steps: Vec<Step> = Vec::new();
    let mut k: usize = 0;
    while k < path.len()
        invariant
            k <= path@.len(),
            steps@ == exit_steps(path@).take(k as int),
        decreases path@.len() - k,
    {
        let state = path[k];
        machine.call_state(state, &Signal::Exit);
        steps.push(Step { state, action: Action::Exit });
        k = k + 1;
        assert(steps@ =~= exit_steps(path@).take(k as int));
    }
    assert(steps@ =~= exit_steps(path@));
    steps
}

/// Fires `Entry` at each state of `path`, from its last state to its first.
fn fire_entries<S: Stator>(machine: &mut S, path: &Vec<usize>) -> (steps: Vec<Step>)
    ensures
        steps@ == entry_steps(path@),
{
    let mut steps: Vec<Step> = Vec::new();
    let mut k: usize = path.len();
    while k > 0
        invariant
            k <= path@.len(),
            steps@ == entry_steps(path@).take(path@.len() - k),
        decreases k,
    {
        k = k - 1;
        let state = path[k];
        machine.call_state(state, &Signal::Entry);
        steps.push(Step { state, action: Action::Entry });
        assert(steps@ =~= entry_steps(path@).take(path@.len() - k));
    }
    assert(steps@ =~= entry_steps(path@));
    steps
}

/// What the engine did with a handler's answer to an application event.
#[derive(Debug, PartialEq, Eq)]
pub enum Reaction {
    /// The event was handled; nothing changed.
    Handled,
    /// The event goes on to this (parent) state.
    Bubble(usize),
    /// The state changed, firing these steps.
    Transitioned(Vec<Step>),
}

/// The engine's state: the current state of a stator.
pub struct StatorComponent {
    state: usize,
}

impl StatorComponent {
    /// The current state.
    pub closed spec fn current(&self) -> usize {
        self.state
    }

    /// A stator that starts in `init`; `init` runs the entry events into it.
    pub fn new(init: usize) -> (r: StatorComponent)
        ensures
            r.current() == init,
    {
        StatorComponent { state: init }
    }

    /// The current state.
    pub fn state(&self) -> (r: usize)
        ensures
            r == self.current(),
    {
        self.state
    }

    /// Enters the initial state, which lies in a tree of allowed depth: fires
    /// `Entry` at every state from the root down to it, and returns those
    /// steps.
    pub fn init<S: Stator>(&self, machine: &mut S) -> (steps: Vec<Step>)
        requires
            rooted(parents::<S>(), self.current()),
        ensures
            steps@ == init_steps(parents::<S>(), self.current()),
    {
        match path_to_root(machine, self.state) {
            Ok(path) => fire_entries(machine, &path),
            Err(_) => Vec::new(),
        }
    }

    /// `init`, for an initial state that may lie too deep: the depth error
    /// exactly when its path is too long, before any entry is fired.
    pub fn try_init<S: Stator>(&self, machine: &mut S) -> (r: Result<Vec<Step>, HsmError>)
        ensures
            match r {
                Ok(steps) => rooted(parents::<S>(), self.current()) && steps@ == init_steps(
                    parents::<S>(),
                    self.current(),
                ),
                Err(e) => !rooted(parents::<S>(), self.current()) && e == HsmError::MaxDepthExceeded,
            },
    {
        let path = path_to_root(machine, self.state)?;
        Ok(fire_entries(machine, &path))
    }

    /// Fires the steps of the transition to `target` along the given paths,
    /// and moves to `target`.
    fn run_transition<S: Stator>(
        &mut self,
        machine: &mut S,
        target: usize,
        exit_path: Vec<usize>,
        entry_path: Vec<usize>,
    ) -> (steps: Vec<Step>)
        requires
            exit_path@ == path_up(parents::<S>(), old(self).current()),
            entry_path@ == path_up(parents::<S>(), target),
            trim(exit_path@, entry_path@) is Some,
        ensures
            final(self).current() == target,
            steps@ == transition_steps(parents::<S>(), old(self).current(), target),
    {
        match trim_common(exit_path, entry_path) {
            Some((exit_path, entry_path)) => {
                let mut steps = fire_exits(machine, &exit_path);
                let mut entries = fire_entries(machine, &entry_path);
                steps.append(&mut entries);
                self.state = target;
                steps
            },
            None => {
                self.state = target;
                Vec::new()
            },
        }
    }

    /// Changes from the current state to `target`, both in a tree of allowed
    /// depth and with neither an ancestor of the other: fires `Exit` from the
    /// current state up to, not including, the least common ancestor, then
    /// `Entry` from just below it down to `target`, and returns those steps.
    pub fn transition<S: Stator>(&mut self, machine: &mut S, target: usize) -> (steps: Vec<Step>)
        requires
            rooted(parents::<S>(), old(self).current()),
            rooted(parents::<S>(), target),
            trim(path_up(parents::<S>(), old(self).current()), path_up(parents::<S>(), target)) is Some,
        ensures
            final(self).current() == target,
            steps@ == transition_steps(parents::<S>(), old(self).current(), target),
    {
        let exit_path = match path_to_root(machine, self.state) {
            Ok(path) => path,
            Err(_) => {
                return Vec::new();
            },
        };
        let entry_path = match path_to_root(machine, target) {
            Ok(path) => path,
            Err(_) => {
                return Vec::new();
            },
        };
        self.run_transition(machine, target, exit_path, entry_path)
    }

    /// `transition`, for any target: the depth error when a path is too long,
    /// the leaf error when one state is an ancestor of the other, both before
    /// any event is fired and with the state unchanged.
    pub fn try_transition<S: Stator>(&mut self, machine: &mut S, target: usize) -> (r: Result<
        Vec<Step>,
        HsmError,
    >)
        ensures
            transition_result::<S>(old(self).current(), target, r, final(self).current()),
    {
        let exit_path = path_to_root(machine, self.state)?;
        let entry_path = path_to_root(machine, target)?;
        if trim_common(exit_path.clone(), entry_path.clone()).is_none() {
            return Err(HsmError::NotALeaf);
        }
        Ok(self.run_transition(machine, target, exit_path, entry_path))
    }

    /// Acts on a handler's answer to an application event: `Handled` ends
    /// the dispatch, `Parent(p)` passes the event on to `p`, and
    /// `Transition(t)` runs the transition to `t` (see `try_transition`).
    pub fn react<S: Stator>(&mut self, machine: &mut S, response: Response) -> (r: Result<
        Reaction,
        HsmError,
    >)
        ensures
            match response {
                Response::Handled => (r matches Ok(Reaction::Handled)) && (final(self).current()
                    == old(self).current()),
                Response::Parent(p) => (r matches Ok(Reaction::Bubble(q)) && q == p) && (final(
                    self).current() == old(self).current()),
                Response::Transition(t) => transition_result::<S>(
                    old(self).current(),
                    t,
                    match r {
                        Ok(Reaction::Transitioned(steps)) => Ok(steps),
                        Ok(_) => Err(HsmError::NotALeaf),
                        Err(e) => Err(e),
                    },
                    final(self).current(),
                ) && !(r matches Ok(Reaction::Handled)) && !(r matches Ok(Reaction::Bubble(_))),
            },
    {
        match response {
            Response::Handled => Ok(Reaction::Handled),
            Response::Parent(p) => Ok(Reaction::Bubble(p)),
            Response::Transition(target) => {
                let steps = self.try_transition(machine, target)?;
                Ok(Reaction::Transitioned(steps))
            },
        }
    }

    /// Handles an application event: hands it to the current state, then to
    /// each parent that a handler passes it on to, until a handler answers
    /// `Handled` (no steps, no change) or `Transition(t)` (the transition to
    /// `t`, checked as by `try_transition`). More than `MAX_DEPTH + 1`
    /// handlers passing it on is the depth error.
    pub fn handle<S: Stator>(&mut self, machine: &mut S, event: S::Event) -> (r: Result<
        Vec<Step>,
        HsmError,
    >)
        ensures
            match bubble::<S>(old(self).current(), event, (MAX_DEPTH + 1) as nat) {
                None => (r == Err::<Vec<Step>, HsmError>(HsmError::MaxDepthExceeded))
                    && (final(self).current() == old(self).current()),
                Some((_, Response::Transition(t))) => transition_result::<S>(
                    old(self).current(),
                    t,
                    r,
                    final(self).current(),
                ),
                Some(_) => (r matches Ok(steps) && steps@.len() == 0) && (final(self).current()
                    == old(self).current()),
            },
    {
        let ghost ev = event;
        let signal = Signal::Event(event);
        let mut state = self.state;
        let mut i: usize = 0;
        while i <= MAX_DEPTH
            invariant
                self.current() == old(self).current(),
                signal == Signal::Event(ev),
                ev == event,
                i <= MAX_DEPTH + 1,
                bubble::<S>(state, ev, (MAX_DEPTH + 1 - i) as nat) == bubble::<S>(
                    old(self).current(),
                    ev,
                    (MAX_DEPTH + 1) as nat,
                ),
            decreases MAX_DEPTH + 1 - i,
        {
            let response = machine.call_state(state, &signal);
            proof {
                assert(response == S::answer(state, ev));
                let f = (MAX_DEPTH + 1 - i) as nat;
                assert(f > 0);
                assert(bubble::<S>(state, ev, f) == match S::answer(state, ev) {
                    Response::Parent(p) => bubble::<S>(p, ev, (f - 1) as nat),
                    r => Some((state, r)),
                });
            }
            match response {
                Response::Handled => {
                    return Ok(Vec::new());
                },
                Response::Parent(p) => {
                    state = p;
                },
                Response::Transition(target) => {
                    return self.try_transition(machine, target);
                },
            }
            i = i + 1;
        }
        Err(HsmError::MaxDepthExceeded)
    }
}

/// Position in `path` of its first state that `other` also holds;
/// `path.len()` when there is none.
pub open spec fn first_shared(path: Seq<usize>, other: Seq<usize>) -> nat
    decreases path.len(),
{
    if path.len() == 0 || other.contains(path[0]) {
        0
    } else {
        1 + first_shared(path.drop_first(), other)
    }
}

proof fn lemma_first_shared(path: Seq<usize>, other: Seq<usize>)
    ensures
        first_shared(path, other) <= path.len(),
        forall|k: int| 0 <= k < first_shared(path, other) ==> !other.contains(#[trigger] path[k]),
        first_shared(path, other) < path.len() ==> other.contains(path[first_shared(path, other) as int]),
    decreases path.len(),
{
    if path.len() > 0 && !other.contains(path[0]) {
        lemma_first_shared(path.drop_first(), other);
        assert forall|k: int| 0 <= k < first_shared(path, other) implies !other.contains(
            #[trigger] path[k],
        ) by {
            if k > 0 {
                assert(path[k] == path.drop_first()[k - 1]);
            }
        }
    }
}

/// The tail of a chain from its `a`-th state is the chain from that state.
proof fn lemma_chain_skip(pf: spec_fn(usize) -> Option<usize>, s: usize, f: nat, a: int)
    requires
        0 <= a < chain(pf, s, f).len(),
    ensures
        chain(pf, s, f).skip(a) == chain(pf, chain(pf, s, f)[a], (f - a) as nat),
        reaches_root(pf, s, f) ==> reaches_root(pf, chain(pf, s, f)[a], (f - a) as nat),
        chain(pf, s, f)[0] == s,
    decreases a,
{
    if a > 0 {
        let p = pf(s)->Some_0;
        assert(chain(pf, s, f) == seq![s] + chain(pf, p, (f - 1) as nat));
        lemma_chain_skip(pf, p, (f - 1) as nat, a - 1);
        assert(chain(pf, s, f).skip(a) =~= chain(pf, p, (f - 1) as nat).skip(a - 1));
    } else {
        assert(chain(pf, s, f).skip(0) =~= chain(pf, s, f));
    }
}

/// From a state that reaches its root, the chain does not depend on the fuel.
proof fn lemma_chain_fuel(pf: spec_fn(usize) -> Option<usize>, x: usize, f1: nat, f2: nat)
    requires
        reaches_root(pf, x, f1),
        reaches_root(pf, x, f2),
    ensures
        chain(pf, x, f1) == chain(pf, x, f2),
        chain(pf, x, f1).len() > 0,
    decreases f1,
{
    if let Some(p) = pf(x) {
        lemma_chain_fuel(pf, p, (f1 - 1) as nat, (f2 - 1) as nat);
    }
}

/// Two paths in one tree that meet share everything above the meeting state.
proof fn lemma_paths_meet(pf: spec_fn(usize) -> Option<usize>, s: usize, t: usize, a: int, b: int)
    requires
        reaches_root(pf, s, (MAX_DEPTH + 1) as nat),
        reaches_root(pf, t, (MAX_DEPTH + 1) as nat),
        0 <= a < path_up(pf, s).len(),
        0 <= b < path_up(pf, t).len(),
        path_up(pf, s)[a] == path_up(pf, t)[b],
    ensures
        path_up(pf, s).skip(a) == path_up(pf, t).skip(b),
{
    let full = (MAX_DEPTH + 1) as nat;
    let x = path_up(pf, s)[a];
    lemma_chain_skip(pf, s, full, a);
    lemma_chain_skip(pf, t, full, b);
    lemma_chain_fuel(pf, x, (full - a) as nat, (full - b) as nat);
}

/// Taking off a shared top of equal length leaves the parts below it, when
/// the states just below it differ.
proof fn lemma_trim_to_meeting(e: Seq<usize>, n: Seq<usize>, i: int, j: int)
    requires
        0 < i <= e.len(),
        0 < j <= n.len(),
        e.skip(i) == n.skip(j),
        e[i - 1] != n[j - 1],
    ensures
        trim(e, n) == Some((e.take(i), n.take(j))),
    decreases e.len(),
{
    assert(e.len() - i == e.skip(i).len());
    if e.len() == i {
        assert(e.take(i) =~= e);
        assert(n.take(j) =~= n);
    } else {
        assert(e.last() == e.skip(i).last());
        assert(n.last() == n.skip(j).last());
        assert(e.drop_last().skip(i) =~= e.skip(i).drop_last());
        assert(n.drop_last().skip(j) =~= n.skip(j).drop_last());
        lemma_trim_to_meeting(e.drop_last(), n.drop_last(), i, j);
        assert(e.drop_last().take(i) =~= e.take(i));
        assert(n.drop_last().take(j) =~= n.take(j));
    }
}

/// When one path lies wholly above the other's start, trimming runs out.
proof fn lemma_trim_runs_out(e: Seq<usize>, n: Seq<usize>, a: int, b: int)
    requires
        0 <= a <= e.len(),
        0 <= b <= n.len(),
        e.skip(a) == n.skip(b),
        (a == 0 && b > 0) || (b == 0 && a > 0),
    ensures
        trim(e, n) is None,
    decreases e.len(),
{
    assert(e.len() - a == e.skip(a).len());
    if e.len() > 0 && n.len() > 0 {
        assert(e.last() == e.skip(a).last());
        assert(n.last() == n.skip(b).last());
        assert(e.drop_last().skip(a) =~= e.skip(a).drop_last());
        assert(n.drop_last().skip(b) =~= n.skip(b).drop_last());
        lemma_trim_runs_out(e.drop_last(), n.drop_last(), a, b);
    }
}

/// Trimming a path against itself keeps its first state on both sides.
proof fn lemma_trim_same(e: Seq<usize>)
    requires
        e.len() > 0,
    ensures
        trim(e, e) == Some((seq![e[0]], seq![e[0]])),
    decreases e.len(),
{
    if e.len() == 1 {
        assert(e =~= seq![e[0]]);
    } else {
        lemma_trim_same(e.drop_last());
    }
}

/// A transition `source -> target` in a tree of allowed depth fires `Exit`
/// from `source` upward, stopping before the least common ancestor, then
/// `Entry` from just below that ancestor down to `target`. A transition of a
/// state to itself exits and re-enters it once. A transition between a state
/// and one of its own ancestors has nothing to trim to and is refused.
pub proof fn lca_transition<S: Stator>(source: usize, target: usize)
    requires
        rooted(parents::<S>(), source),
        rooted(parents::<S>(), target),
    ensures
        ({
            let pf = parents::<S>();
            let exit = path_up(pf, source);
            let entry = path_up(pf, target);
            let i = first_shared(exit, entry) as int;
            let j = first_shared(entry, exit) as int;
            &&& exit[0] == source && entry[0] == target
            &&& source == target ==> transition_steps(pf, source, target) == seq![
                Step { state: source, action: Action::Exit },
                Step { state: source, action: Action::Entry },
            ]
            &&& source != target && i > 0 && j > 0 ==> trim(exit, entry) == Some(
                (exit.take(i), entry.take(j)),
            ) && transition_steps(pf, source, target) == exit_steps(exit.take(i)) + entry_steps(
                entry.take(j),
            )
            &&& i < exit.len() ==> exit[i] == entry[j]
            &&& source != target && (i == 0 || j == 0) ==> trim(exit, entry) is None
        }),
{
    let pf = parents::<S>();
    let full = (MAX_DEPTH + 1) as nat;
    let exit = path_up(pf, source);
    let entry = path_up(pf, target);
    lemma_chain_fuel(pf, source, full, full);
    lemma_chain_fuel(pf, target, full, full);
    lemma_chain_skip(pf, source, full, 0);
    lemma_chain_skip(pf, target, full, 0);
    lemma_first_shared(exit, entry);
    lemma_first_shared(entry, exit);
    let i = first_shared(exit, entry) as int;
    let j = first_shared(entry, exit) as int;
    if source == target {
        lemma_trim_same(exit);
        assert(exit_steps(seq![source]) + entry_steps(seq![source]) =~= seq![
            Step { state: source, action: Action::Exit },
            Step { state: source, action: Action::Entry },
        ]);
    }
    if i < exit.len() {
        // the meeting state, seen from the entry side
        let b = entry.index_of(exit[i]);
        assert(entry[b] == exit[i]);
        lemma_paths_meet(pf, source, target, i, b);
        assert(exit.skip(i).len() == entry.skip(b).len());
        assert(exit.len() - i == entry.len() - b);
        assert(exit.contains(entry[b]));
        if b < j {
            assert(!exit.contains(entry[b]));
        }
        if j < b {
            assert(exit.contains(entry[j]));
            let a = exit.index_of(entry[j]);
            assert(exit[a] == entry[j]);
            lemma_paths_meet(pf, source, target, a, j);
            assert(exit.skip(a).len() == entry.skip(j).len());
            assert(exit.len() - a == entry.len() - j);
            assert(a < i);
            assert(entry.contains(exit[a]));
        }
        assert(j == b);
        if i > 0 && j > 0 && source != target {
            assert(!entry.contains(exit[i - 1]));
            lemma_trim_to_meeting(exit, entry, i, j);
        }
        if source != target && (i == 0 || j == 0) {
            if j == 0 && i == 0 {
                assert(exit[0] == entry[0]);
            }
            lemma_trim_runs_out(exit, entry, i, j);
        }
    } else {
        // no shared state: the paths end in different roots
        if j < entry.len() {
            assert(exit.contains(entry[j]));
            let a = exit.index_of(entry[j]);
            assert(entry.contains(exit[a]));
            assert(false);
        }
        assert(exit.skip(i) =~= entry.skip(j));
        assert(!entry.contains(exit[i - 1]));
        lemma_trim_to_meeting(exit, entry, i, j);
    }
}

/// Each state of a rooted chain has the next as its parent; the last is a root.
proof fn lemma_chain_links(pf: spec_fn(usize) -> Option<usize>, s: usize, f: nat)
    requires
        reaches_root(pf, s, f),
    ensures
        chain(pf, s, f).len() > 0,
        chain(pf, s, f)[0] == s,
        pf(chain(pf, s, f).last()) is None,
        forall|k: int|
            0 <= k < chain(pf, s, f).len() - 1 ==> pf(#[trigger] chain(pf, s, f)[k]) == Some(
                chain(pf, s, f)[k + 1],
            ),
    decreases f,
{
    let c = chain(pf, s, f);
    if let Some(p) = pf(s) {
        lemma_chain_links(pf, p, (f - 1) as nat);
        let rest = chain(pf, p, (f - 1) as nat);
        assert(c == seq![s] + rest);
        assert forall|k: int| 0 <= k < c.len() - 1 implies pf(#[trigger] c[k]) == Some(c[k + 1]) by {
            if k > 0 {
                assert(c[k] == rest[k - 1]);
                assert(c[k + 1] == rest[k]);
            }
        }
    } else {
        assert(c =~= seq![s]);
    }
}

/// Initialising a stator whose initial state lies in a tree of allowed depth
/// enters, in order, a root, then each child on the way, down to the initial
/// state: the root-to-initial-state path, entries only.
pub proof fn init_sequence<S: Stator>(init: usize)
    requires
        rooted(parents::<S>(), init),
    ensures
        ({
            let steps = init_steps(parents::<S>(), init);
            &&& steps.len() > 0
            &&& S::parent_of(steps[0].state) is None
            &&& steps.last().state == init
            &&& forall|k: int| 0 <= k < steps.len() ==> (#[trigger] steps[k]).action == Action::Entry
            &&& forall|k: int|
                0 <= k < steps.len() - 1 ==> S::parent_of(#[trigger] steps[k + 1].state) == Some(
                    steps[k].state,
                )
        }),
{
    let pf = parents::<S>();
    let path = path_up(pf, init);
    lemma_chain_links(pf, init, (MAX_DEPTH + 1) as nat);
    let steps = init_steps(pf, init);
    assert(pf(path.last()) == S::parent_of(path.last()));
    assert forall|k: int| 0 <= k < steps.len() - 1 implies S::parent_of(
        #[trigger] steps[k + 1].state,
    ) == Some(steps[k].state) by {
        let m = path.len() - 2 - k;
        assert(steps[k + 1].state == path[m]);
        assert(steps[k].state == path[m + 1]);
        assert(pf(path[m]) == S::parent_of(path[m]));
    }
}

/// Events a stator has put aside, to be posted back to itself later.
pub struct Deferred<E> {
    queue: VecDeque<E>,
}

impl<E> View for Deferred<E> {
    type V = Seq<E>;

    closed spec fn view(&self) -> Seq<E> {
        self.queue@
    }
}

impl<E> Deferred<E> {
    /// No deferred events.
    pub fn new() -> (r: Deferred<E>)
        ensures
            r@ == Seq::<E>::empty(),
    {
        Deferred { queue: VecDeque::new() }
    }

    /// How many events wait.
    pub fn len(&self) -> (r: usize)
        ensures
            r == self@.len(),
    {
        self.queue.len()
    }

    /// Puts `event` aside, after those already there.
    pub fn defer(&mut self, event: E)
        ensures
            final(self)@ == old(self)@.push(event),
    {
        self.queue.push_back(event);
    }

    /// Posts the oldest deferred event back to the stator that `deputy`
    /// speaks for. `None` when nothing waits; otherwise the result of the send.
    pub fn recall_front(&mut self, deputy: &DeputyPublisher<E>) -> (r: Option<Result<(), SendError>>)
        ensures
            r is Some <==> old(self)@.len() > 0,
            final(self)@ == if old(self)@.len() > 0 {
                old(self)@.drop_first()
            } else {
                old(self)@
            },
    {
        match self.queue.pop_front() {
            Some(event) => Some(deputy.post_to_self(event)),
            None => None,
        }
    }

    /// Posts the newest deferred event back to the stator that `deputy`
    /// speaks for. `None` when nothing waits; otherwise the result of the send.
    pub fn recall_back(&mut self, deputy: &DeputyPublisher<E>) -> (r: Option<Result<(), SendError>>)
        ensures
            r is Some <==> old(self)@.len() > 0,
            final(self)@ == if old(self)@.len() > 0 {
                old(self)@.drop_last()
            } else {
                old(self)@
            },
    {
        match self.queue.pop_back() {
            Some(event) => Some(deputy.post_to_self(event)),
            None => None,
        }
    }

    /// Posts every deferred event back, oldest first, and empties the queue.
    /// Returns the outcome of each send, in order: one per event that waited.
    pub fn recall_all(&mut self, deputy: &DeputyPublisher<E>) -> (r: Vec<Result<(), SendError>>)
        ensures
            final(self)@ == Seq::<E>::empty(),
            r@.len() == old(self)@.len(),
    {
        let mut outcomes: Vec<Result<(), SendError>> = Vec::new();
        while self.queue.len() > 0
            invariant
                outcomes@.len() + self.queue@.len() == old(self)@.len(),
            decreases self.queue@.len(),
        {
            if let Some(event) = self.queue.pop_front() {
                outcomes.push(deputy.post_to_self(event));
            }
        }
        outcomes
    }

    /// Drops every deferred event.
    pub fn clear_deferred(&mut self)
        ensures
            final(self)@ == Seq::<E>::empty(),
    {
        self.queue.clear();
    }
}

} // verus!
