use std::collections::HashMap;
use vstd::prelude::*;

use crate::actor::{topic_keys, Actor, HandlerComponent};
use crate::channel::{send_envelope, Receiver, SendError, Sender};
use crate::message::{topic, topic_of, Destination, Envelope, Message, MessageType, Origin};

verus! {

broadcast use vstd::std_specs::hash::group_hash_axioms;

/// The subscribers of `topic` in an index.
pub open spec fn subscribers_in(map: Map<u64, Vec<usize>>, topic: u64) -> Seq<usize> {
    if map.contains_key(topic) {
        map[topic]@
    } else {
        Seq::empty()
    }
}

/// Every subscriber list of an index holds each id once.
pub open spec fn index_wf(map: Map<u64, Vec<usize>>) -> bool {
    forall|t: u64| #[trigger] map.contains_key(t) ==> map[t]@.no_duplicates()
}

/// Whether `v` holds `x`.
fn holds(v: &Vec<u64>, x: u64) -> (r: bool)
    ensures
        r == v@.contains(x),
{
    let mut k: usize = 0;
    while k < v.len()
        invariant
            k <= v@.len(),
            forall|j: int| 0 <= j < k ==> v@[j] != x,
        decreases v@.len() - k,
    {
        if v[k] == x {
            return true;
        }
        k = k + 1;
    }
    false
}

/// `v` without `x`, in the same order.
fn without(v: &Vec<usize>, x: usize) -> (r: Vec<usize>)
    ensures
        forall|y: usize| r@.contains(y) <==> (v@.contains(y) && y != x),
        v@.no_duplicates() ==> r@.no_duplicates(),
        !v@.contains(x) ==> r@ == v@,
{
    let mut r: Vec<usize> = Vec::new();
    let mut k: usize = 0;
    while k < v.len()
        invariant
            k <= v@.len(),
            forall|y: usize| r@.contains(y) <==> (v@.take(k as int).contains(y) && y != x),
            v@.no_duplicates() ==> r@.no_duplicates(),
            !v@.contains(x) ==> r@ == v@.take(k as int),
        decreases v@.len() - k,
    {
        let y = v[k];
        let ghost before = r@;
        proof {
            assert(v@.take(k + 1) =~= v@.take(k as int).push(y));
        }
        if y != x {
            r.push(y);
            proof {
                assert forall|z: usize| r@.contains(z) <==> (v@.take(k + 1).contains(z) && z != x) by {
                    if r@.contains(z) && z != y {
                        let j = r@.index_of(z);
                        assert(before[j] == z);
                        assert(before.contains(z));
                        let i = v@.take(k as int).index_of(z);
                        assert(v@.take(k + 1)[i] == z);
                    }
                    if v@.take(k + 1).contains(z) && z != x && z != y {
                        let j = v@.take(k + 1).index_of(z);
                        assert(v@.take(k + 1)[k as int] == y);
                        assert(j < k);
                        assert(v@.take(k as int)[j] == z);
                        assert(before.contains(z));
                        let i = before.index_of(z);
                        assert(r@[i] == z);
                    }
                    if z == y {
                        assert(r@[r@.len() - 1] == y);
                        assert(v@.take(k + 1)[k as int] == y);
                    }
                }
                if v@.no_duplicates() {
                    assert(!v@.take(k as int).contains(y)) by {
                        if v@.take(k as int).contains(y) {
                            let j = v@.take(k as int).index_of(y);
                            assert(v@[j] == v@[k as int]);
                        }
                    }
                    assert(!before.contains(y));
                    assert forall|a: int, b: int| 0 <= a < b < r@.len() implies r@[a] != r@[b] by {
                        if b == r@.len() - 1 {
                            assert(before.contains(r@[a]) || a == b);
                        }
                    }
                }
                if !v@.contains(x) {
                    assert(r@ =~= v@.take(k + 1));
                }
            }
        } else {
            proof {
                assert forall|z: usize| r@.contains(z) <==> (v@.take(k + 1).contains(z) && z != x) by {
                    if v@.take(k + 1).contains(z) && z != x {
                        let j = v@.take(k + 1).index_of(z);
                        assert(v@.take(k as int)[j] == z);
                    }
                }
                assert(v@.contains(x));
            }
        }
        k = k + 1;
    }
    assert(v@.take(v@.len() as int) =~= v@);
    r
}

/// Adds `id`, which no list holds yet, to the subscribers of `topic`.
fn add_subscriber(map: &mut HashMap<u64, Vec<usize>>, topic: u64, id: usize)
    requires
        index_wf(old(map)@),
        !subscribers_in(old(map)@, topic).contains(id),
    ensures
        index_wf(final(map)@),
        subscribers_in(final(map)@, topic) == subscribers_in(old(map)@, topic).push(id),
        forall|t: u64| t != topic ==> subscribers_in(final(map)@, t) == subscribers_in(old(map)@, t),
{
    let mut list = match map.remove(&topic) {
        Some(list) => list,
        None => Vec::new(),
    };
    list.push(id);
    map.insert(topic, list);
    proof {
        assert forall|t: u64| #[trigger] final(map)@.contains_key(t) implies final(map)@[t]@.no_duplicates() by {
            if t == topic {
                assert(final(map)@[t]@ == subscribers_in(old(map)@, topic).push(id));
                assert forall|a: int, b: int| 0 <= a < b < final(map)@[t]@.len() implies final(map)@[t]@[a] != final(map)@[t]@[b] by {
                    if b == final(map)@[t]@.len() - 1 {
                        assert(subscribers_in(old(map)@, topic).contains(final(map)@[t]@[a]) || a == b);
                    }
                }
            }
        }
    }
}

/// Takes `id` out of the subscribers of `topic`.
fn remove_subscriber(map: &mut HashMap<u64, Vec<usize>>, topic: u64, id: usize)
    requires
        index_wf(old(map)@),
    ensures
        index_wf(final(map)@),
        forall|y: usize| subscribers_in(final(map)@, topic).contains(y) <==> (subscribers_in(old(map)@, topic).contains(y) && y != id),
        forall|t: u64| t != topic ==> subscribers_in(final(map)@, t) == subscribers_in(old(map)@, t),
{
    if let Some(list) = map.remove(&topic) {
        let kept = without(&list, id);
        map.insert(topic, kept);
    }
}

/// Subscribes `id`, which no list holds yet, to each topic of `declared`
/// once; returns the keys of those topics.
fn subscribe_all<T: MessageType>(map: &mut HashMap<u64, Vec<usize>>, declared: &Vec<T>, id: usize) -> (topics: Vec<u64>)
    requires
        index_wf(old(map)@),
        forall|t: u64| !(#[trigger] subscribers_in(old(map)@, t)).contains(id),
    ensures
        index_wf(final(map)@),
        topics@.no_duplicates(),
        topics@.to_set() == topic_keys(declared@),
        forall|t: u64| #[trigger] subscribers_in(final(map)@, t) == if topics@.contains(t) {
            subscribers_in(old(map)@, t).push(id)
        } else {
            subscribers_in(old(map)@, t)
        },
{
    let mut topics: Vec<u64> = Vec::new();
    let mut k: usize = 0;
    while k < declared.len()
        invariant
            k <= declared@.len(),
            index_wf(map@),
            topics@.no_duplicates(),
            forall|y: u64| topics@.contains(y) <==> (exists|j: int| 0 <= j < k && #[trigger] declared@[j].spec_key() == y),
            forall|t: u64| #[trigger] subscribers_in(map@, t) == if topics@.contains(t) {
                subscribers_in(old(map)@, t).push(id)
            } else {
                subscribers_in(old(map)@, t)
            },
            forall|t: u64| !(#[trigger] subscribers_in(old(map)@, t)).contains(id),
        decreases declared@.len() - k,
    {
        let key = declared[k].key();
        let ghost prev = topics@;
        if !holds(&topics, key) {
            let ghost before = topics@;
            let ghost map_before = map@;
            assert(!subscribers_in(map@, key).contains(id));
            add_subscriber(map, key, id);
            topics.push(key);
            proof {
                assert forall|a: int, b: int| 0 <= a < b < topics@.len() implies topics@[a] != topics@[b] by {
                    if b == topics@.len() - 1 {
                        assert(before.contains(topics@[a]) || a == b);
                    }
                }
                assert forall|y: u64| topics@.contains(y) <==> before.contains(y) || y == key by {
                    if before.contains(y) {
                        let i = before.index_of(y);
                        assert(topics@[i] == y);
                    }
                    if topics@.contains(y) && y != key {
                        let i = topics@.index_of(y);
                        assert(before[i] == y);
                    }
                    if y == key {
                        assert(topics@[topics@.len() - 1] == key);
                    }
                }
                assert forall|t: u64| #[trigger] subscribers_in(map@, t) == if topics@.contains(t) {
                    subscribers_in(old(map)@, t).push(id)
                } else {
                    subscribers_in(old(map)@, t)
                } by {
                    if t != key {
                        assert(subscribers_in(map@, t) == subscribers_in(map_before, t));
                    }
                }
            }
        }
        proof {
            assert(forall|y: u64| topics@.contains(y) <==> (prev.contains(y) || y == key));
            assert forall|y: u64| topics@.contains(y) <==> (exists|j: int| 0 <= j < k + 1 && #[trigger] declared@[j].spec_key() == y) by {
                if prev.contains(y) {
                    let j = choose|j: int| 0 <= j < k && #[trigger] declared@[j].spec_key() == y;
                    assert(0 <= j < k + 1 && declared@[j].spec_key() == y);
                }
                if y == key {
                    assert(declared@[k as int].spec_key() == y);
                }
                if exists|j: int| 0 <= j < k + 1 && #[trigger] declared@[j].spec_key() == y {
                    let j = choose|j: int| 0 <= j < k + 1 && #[trigger] declared@[j].spec_key() == y;
                    if j < k {
                        assert(prev.contains(y));
                    }
                }
            }
        }
        k = k + 1;
    }
    assert(topics@.to_set() =~= topic_keys(declared@));
    topics
}

/// Takes `id` out of the subscribers of each of `topics`.
fn unsubscribe_all(map: &mut HashMap<u64, Vec<usize>>, topics: &Vec<u64>, id: usize)
    requires
        index_wf(old(map)@),
    ensures
        index_wf(final(map)@),
        forall|t: u64, x: usize| #[trigger] subscribers_in(final(map)@, t).contains(x) <==> (
        subscribers_in(old(map)@, t).contains(x) && !(x == id && topics@.contains(t))),
{
    let mut k: usize = 0;
    while k < topics.len()
        invariant
            k <= topics@.len(),
            index_wf(map@),
            forall|t: u64, x: usize| #[trigger] subscribers_in(map@, t).contains(x) <==> (
            subscribers_in(old(map)@, t).contains(x) && !(x == id && topics@.take(k as int).contains(t))),
        decreases topics@.len() - k,
    {
        let topic = topics[k];
        let ghost before = map@;
        remove_subscriber(map, topic, id);
        proof {
            assert(topics@.take(k + 1) =~= topics@.take(k as int).push(topic));
            assert forall|t: u64, x: usize| #[trigger] subscribers_in(map@, t).contains(x) <==> (
            subscribers_in(old(map)@, t).contains(x) && !(x == id && topics@.take(k + 1).contains(t))) by {
                if topics@.take(k as int).contains(t) {
                    let i = topics@.take(k as int).index_of(t);
                    assert(topics@.take(k + 1)[i] == t);
                }
                if topics@.take(k + 1).contains(t) && t != topic {
                    let i = topics@.take(k + 1).index_of(t);
                    assert(topics@.take(k as int)[i] == t);
                }
                if t == topic {
                    assert(topics@.take(k + 1)[k as int] == t);
                }
                if t != topic {
                    assert(subscribers_in(map@, t) == subscribers_in(before, t));
                }
            }
        }
        k = k + 1;
    }
    assert(topics@.take(topics@.len() as int) =~= topics@);
}

/// What an interceptor decides for a message before it is dispatched.
pub enum InterceptResult<T> {
    /// Dispatch this (possibly changed) message.
    Pass(T),
    /// The message was dealt with: drop it and wait for the next one.
    Interception,
    /// Stop the loop.
    Break,
}

/// Whether the dispatch loop goes on.
#[derive(Clone, Copy, Debug, PartialEq, Eq, Structural)]
pub enum Flow {
    Continue,
    Stop,
}

/// The single-task event loop's state: the channel of envelopes, the attached
/// actors, and the index from topics to their subscribers.
///
/// Each topic's subscribers are kept in a `Vec` that holds each id once, in
/// the order they subscribed, rather than in a `HashSet`: dispatch walks them,
/// and a `HashSet` would be walked in an order that each process seeds anew,
/// so no contract could say in which order an envelope reaches them.
#[verifier::reject_recursive_types(A)]
pub struct Commutator<A: Actor> {
    message_sender: Sender<A::Message>,
    message_receiver: Receiver<A::Message>,
    handlers: HashMap<usize, A>,
    components: HashMap<usize, HandlerComponent>,
    message_map: HashMap<u64, Vec<usize>>,
    attached: Vec<usize>,
    next_id: usize,
    started: bool,
    /// Every delivery so far: the envelope's number and the actor reached.
    log: Ghost<Seq<(nat, usize)>>,
    /// How many envelopes have been delivered.
    delivered: Ghost<nat>,
}

impl<A: Actor> Commutator<A> {
    /// `id` names an attached actor.
    pub closed spec fn is_attached(&self, id: usize) -> bool {
        self.handlers@.contains_key(id)
    }

    /// The ids of the attached actors, in the order they were attached.
    pub closed spec fn attached_ids(&self) -> Seq<usize> {
        self.attached@
    }

    /// The subscribers of a topic key, in the order they subscribed.
    pub closed spec fn subscribers(&self, topic: u64) -> Seq<usize> {
        subscribers_in(self.message_map@, topic)
    }

    /// The topic keys that the attached actor `id` subscribed to.
    pub closed spec fn topics_of(&self, id: usize) -> Set<u64> {
        self.components@[id].subscriptions@.to_set()
    }

    /// The attached actor `id`.
    pub closed spec fn actor(&self, id: usize) -> A {
        self.handlers@[id]
    }

    /// The id the next attached actor gets.
    pub closed spec fn spec_next_id(&self) -> usize {
        self.next_id
    }

    /// The attached actors have been initialised by `init`.
    pub closed spec fn is_started(&self) -> bool {
        self.started
    }

    /// Every delivery so far, in order: the number of the envelope (counting
    /// from 0 in the order `deliver` was called) and the actor it reached.
    pub closed spec fn delivery_log(&self) -> Seq<(nat, usize)> {
        self.log@
    }

    /// How many envelopes have been delivered.
    pub closed spec fn delivery_count(&self) -> nat {
        self.delivered@
    }

    /// The registry, the subscription index and the record of each actor's
    /// topics agree: an actor is subscribed to a topic exactly when it is
    /// attached and declared that topic.
    pub closed spec fn wf(&self) -> bool {
        &&& forall|id: usize| #[trigger]
            self.handlers@.contains_key(id) == self.components@.contains_key(id)
        &&& forall|id: usize| #[trigger]
            self.handlers@.contains_key(id) == self.attached@.contains(id)
        &&& self.attached@.no_duplicates()
        &&& forall|id: usize| #[trigger]
            self.components@.contains_key(id) ==> self.components@[id].subscriptions@.no_duplicates()
                && self.components@[id].id == Some(id)
        &&& forall|t: u64| #[trigger]
            self.message_map@.contains_key(t) ==> self.message_map@[t]@.no_duplicates()
        &&& forall|t: u64, id: usize|
            #![trigger self.subscribers(t).contains(id)]
            #![trigger self.topics_of(id).contains(t)]
            self.subscribers(t).contains(id) <==> (self.is_attached(id) && self.topics_of(id).contains(t))
        &&& forall|id: usize| #[trigger] self.handlers@.contains_key(id) ==> id < self.next_id
        &&& self.log_ordered()
    }

    /// The delivery log numbers envelopes below the count, and each actor
    /// appears in it under increasing envelope numbers.
    pub closed spec fn log_ordered(&self) -> bool {
        &&& forall|p: int| 0 <= p < self.log@.len() ==> (#[trigger] self.log@[p]).0 < self.delivered@
        &&& forall|p: int, q: int|
            0 <= p < q < self.log@.len() && (#[trigger] self.log@[p]).1 == (#[trigger] self.log@[q]).1
                ==> self.log@[p].0 < self.log@[q].0
    }

    /// Two states route envelopes alike: same actors, same subscriptions.
    pub open spec fn same_routing(&self, other: &Self) -> bool {
        &&& self.attached_ids() == other.attached_ids()
        &&& forall|id: usize| #[trigger] self.is_attached(id) == other.is_attached(id)
        &&& forall|t: u64| #[trigger] self.subscribers(t) == other.subscribers(t)
        &&& forall|id: usize| #[trigger] self.topics_of(id) == other.topics_of(id)
        &&& self.spec_next_id() == other.spec_next_id()
    }

    /// Room for another id.
    pub open spec fn can_attach(&self) -> bool {
        self.spec_next_id() < usize::MAX
    }

    /// The actors that an envelope reaches, in delivery order.
    pub open spec fn recipients(&self, envelope: Envelope<A::Message>) -> Seq<usize> {
        match envelope.destination {
            Destination::Single(id) => if self.is_attached(id) {
                seq![id]
            } else {
                Seq::empty()
            },
            Destination::All => self.subscribers(topic_of(envelope.message)),
        }
    }

    /// A commutator with no actors and a fresh channel.
    pub fn new() -> (r: Self)
        ensures
            r.wf(),
            r.attached_ids() == Seq::<usize>::empty(),
            forall|id: usize| !r.is_attached(id),
            forall|t: u64| r.subscribers(t) == Seq::<usize>::empty(),
            r.spec_next_id() == 0,
            !r.is_started(),
            r.delivery_log() == Seq::<(nat, usize)>::empty(),
            r.delivery_count() == 0,
    {
        let (message_sender, message_receiver) = futures::channel::mpsc::unbounded();
        let r = Commutator {
            message_sender,
            message_receiver,
            handlers: HashMap::new(),
            components: HashMap::new(),
            message_map: HashMap::new(),
            attached: Vec::new(),
            next_id: 0,
            started: false,
            log: Ghost(Seq::empty()),
            delivered: Ghost(0),
        };
        assert forall|t: u64, id: usize| #[trigger] r.subscribers(t).contains(id) <==> (
        r.is_attached(id) && r.topics_of(id).contains(t)) by {}
        r
    }

    fn custom_attach(&mut self, actor: A, init: bool) -> (id: usize)
        requires
            old(self).wf(),
            old(self).can_attach(),
        ensures
            final(self).wf(),
            id == old(self).spec_next_id(),
            final(self).spec_next_id() == id + 1,
            !old(self).is_attached(id),
            final(self).is_attached(id),
            final(self).attached_ids() == old(self).attached_ids().push(id),
            forall|x: usize| x != id ==> #[trigger] final(self).is_attached(x) == old(self).is_attached(x),
            forall|x: usize| x != id ==> #[trigger] final(self).topics_of(x) == old(self).topics_of(x),
            forall|x: usize| #[trigger] old(self).is_attached(x) ==> final(self).actor(x) == old(self).actor(x),
            forall|t: u64| #[trigger] final(self).subscribers(t) == if final(self).topics_of(id).contains(t) {
                old(self).subscribers(t).push(id)
            } else {
                old(self).subscribers(t)
            },
            exists|a: A|
                #![trigger A::attached_as(actor, a, id)]
                A::attached_as(actor, a, id) && final(self).topics_of(id) == topic_keys(
                    a.spec_default_subscriptions()@,
                ) && if init {
                    A::initialised(a, final(self).actor(id))
                } else {
                    final(self).actor(id) == a
                },
            final(self).delivery_log() == old(self).delivery_log(),
            final(self).delivery_count() == old(self).delivery_count(),
            final(self).is_started() == old(self).is_started(),
    {
        let id = self.next_id;
        let ghost given = actor;
        let mut actor = actor;
        actor.on_attach(id, &self.message_sender);
        let ghost told = actor;
        let declared = actor.default_subscriptions();
        proof {
            assert forall|t: u64| !(#[trigger] subscribers_in(self.message_map@, t)).contains(id) by {
                if self.subscribers(t).contains(id) {
                    assert(self.is_attached(id));
                }
            }
        }
        let topics = subscribe_all(&mut self.message_map, &declared, id);
        if init {
            actor.init();
        }
        let ghost old_components = self.components@;
        self.components.insert(id, HandlerComponent { id: Some(id), subscriptions: topics });
        self.handlers.insert(id, actor);
        let ghost old_attached = self.attached@;
        self.attached.push(id);
        self.next_id = id + 1;
        proof {
            assert(!old_attached.contains(id));
            assert forall|a: int, b: int| 0 <= a < b < self.attached@.len() implies self.attached@[a] != self.attached@[b] by {
                if b == self.attached@.len() - 1 {
                    assert(old_attached.contains(self.attached@[a]) || a == b);
                }
            }
            assert forall|x: usize| #[trigger] self.handlers@.contains_key(x) == self.attached@.contains(x) by {
                if old_attached.contains(x) {
                    let i = old_attached.index_of(x);
                    assert(self.attached@[i] == x);
                }
                if self.attached@.contains(x) && x != id {
                    let i = self.attached@.index_of(x);
                    assert(old_attached[i] == x);
                }
                if x == id {
                    assert(self.attached@[self.attached@.len() - 1] == id);
                }
            }
            assert forall|x: usize| x != id implies #[trigger] self.topics_of(x) == old(self).topics_of(x) by {
                assert(self.components@[x] == old_components[x]);
            }
            assert(self.topics_of(id) == topics@.to_set());
            assert forall|t: u64, x: usize| #[trigger] self.subscribers(t).contains(x) <==> (
            self.is_attached(x) && self.topics_of(x).contains(t)) by {
                if x != id {
                    assert(self.topics_of(x) == old(self).topics_of(x));
                    if topics@.contains(t) {
                        assert(self.subscribers(t) == old(self).subscribers(t).push(id));
                        if self.subscribers(t).contains(x) {
                            let i = self.subscribers(t).index_of(x);
                            assert(old(self).subscribers(t)[i] == x);
                        }
                        if old(self).subscribers(t).contains(x) {
                            let i = old(self).subscribers(t).index_of(x);
                            assert(self.subscribers(t)[i] == x);
                        }
                    }
                } else {
                    if topics@.contains(t) {
                        assert(self.subscribers(t)[self.subscribers(t).len() - 1] == id);
                    }
                }
            }
        }
        proof {
            assert(A::attached_as(given, told, id) && self.topics_of(id) == topic_keys(
                told.spec_default_subscriptions()@,
            ));
        }
        id
    }

    /// Attaches an actor: gives it a fresh id, calls its `on_attach`, and
    /// subscribes it to each of its default topics. Does not call `init`.
    pub fn attach(&mut self, actor: A) -> (id: usize)
        requires
            old(self).wf(),
            old(self).can_attach(),
        ensures
            final(self).wf(),
            id == old(self).spec_next_id(),
            final(self).spec_next_id() == id + 1,
            !old(self).is_attached(id),
            final(self).is_attached(id),
            final(self).attached_ids() == old(self).attached_ids().push(id),
            forall|x: usize| x != id ==> #[trigger] final(self).is_attached(x) == old(self).is_attached(x),
            forall|x: usize| x != id ==> #[trigger] final(self).topics_of(x) == old(self).topics_of(x),
            forall|x: usize| #[trigger] old(self).is_attached(x) ==> final(self).actor(x) == old(self).actor(x),
            forall|t: u64| #[trigger] final(self).subscribers(t) == if final(self).topics_of(id).contains(t) {
                old(self).subscribers(t).push(id)
            } else {
                old(self).subscribers(t)
            },
            A::attached_as(actor, final(self).actor(id), id),
            final(self).topics_of(id) == topic_keys(final(self).actor(id).spec_default_subscriptions()@),
            final(self).delivery_log() == old(self).delivery_log(),
            final(self).delivery_count() == old(self).delivery_count(),
            final(self).is_started() == old(self).is_started(),
    {
        self.custom_attach(actor, false)
    }

    /// As `attach`, then calls the actor's `init` once: the actor's topics
    /// are those it declared once told its id, before `init` ran.
    pub fn attach_and_init(&mut self, actor: A) -> (id: usize)
        requires
            old(self).wf(),
            old(self).can_attach(),
        ensures
            final(self).wf(),
            id == old(self).spec_next_id(),
            final(self).spec_next_id() == id + 1,
            !old(self).is_attached(id),
            final(self).is_attached(id),
            final(self).attached_ids() == old(self).attached_ids().push(id),
            forall|x: usize| x != id ==> #[trigger] final(self).is_attached(x) == old(self).is_attached(x),
            forall|x: usize| x != id ==> #[trigger] final(self).topics_of(x) == old(self).topics_of(x),
            forall|x: usize| #[trigger] old(self).is_attached(x) ==> final(self).actor(x) == old(self).actor(x),
            forall|t: u64| #[trigger] final(self).subscribers(t) == if final(self).topics_of(id).contains(t) {
                old(self).subscribers(t).push(id)
            } else {
                old(self).subscribers(t)
            },
            exists|a: A|
                #![trigger A::attached_as(actor, a, id)]
                A::attached_as(actor, a, id) && final(self).topics_of(id) == topic_keys(
                    a.spec_default_subscriptions()@,
                ) && A::initialised(a, final(self).actor(id)),
            final(self).delivery_log() == old(self).delivery_log(),
            final(self).delivery_count() == old(self).delivery_count(),
            final(self).is_started() == old(self).is_started(),
    {
        self.custom_attach(actor, true)
    }

    /// Detaches the actor `id`: takes it out of every subscription and of the
    /// registry, calls its `on_detach`, and returns it; `None` when no actor
    /// has that id.
    pub fn detach(&mut self, id: usize) -> (r: Option<A>)
        requires
            old(self).wf(),
        ensures
            final(self).wf(),
            r is Some <==> old(self).is_attached(id),
            r matches Some(a) ==> A::detached(old(self).actor(id), a),
            final(self).delivery_log() == old(self).delivery_log(),
            final(self).delivery_count() == old(self).delivery_count(),
            final(self).is_started() == old(self).is_started(),
            !final(self).is_attached(id),
            forall|t: u64| !(#[trigger] final(self).subscribers(t)).contains(id),
            forall|t: u64, x: usize| #[trigger] final(self).subscribers(t).contains(x) <==> (
            old(self).subscribers(t).contains(x) && x != id),
            forall|x: usize| x != id ==> #[trigger] final(self).is_attached(x) == old(self).is_attached(x),
            forall|x: usize| x != id && #[trigger] old(self).is_attached(x) ==> final(self).topics_of(x) == old(self).topics_of(x)
                && final(self).actor(x) == old(self).actor(x),
            forall|x: usize| #[trigger] final(self).attached_ids().contains(x) <==> (old(self).attached_ids().contains(x) && x != id),
            !old(self).is_attached(id) ==> final(self).attached_ids() == old(self).attached_ids(),
            final(self).spec_next_id() == old(self).spec_next_id(),
    {
        let ghost old_components = self.components@;
        proof {
            assert forall|t: u64| !old(self).is_attached(id) ==> !(#[trigger] old(self).subscribers(t)).contains(id) by {
                if old(self).subscribers(t).contains(id) {
                    assert(old(self).is_attached(id));
                }
            }
        }
        if let Some(component) = self.components.remove(&id) {
            unsubscribe_all(&mut self.message_map, &component.subscriptions, id);
            proof {
                assert forall|t: u64, x: usize| #[trigger] self.subscribers(t).contains(x) <==> (
                old(self).subscribers(t).contains(x) && x != id) by {
                    if x == id && old(self).subscribers(t).contains(x) {
                        assert(old(self).topics_of(id).contains(t));
                        assert(component.subscriptions@.to_set().contains(t));
                    }
                }
            }
        }
        let kept = without(&self.attached, id);
        self.attached = kept;
        let r = match self.handlers.remove(&id) {
            Some(actor) => {
                let mut actor = actor;
                actor.on_detach();
                Some(actor)
            },
            None => None,
        };
        proof {
            if !old(self).is_attached(id) {
                assert(!old_components.contains_key(id));
                assert(self.message_map@ == old(self).message_map@);
            }
            assert(forall|t: u64, x: usize| #[trigger] self.subscribers(t).contains(x) <==> (
                old(self).subscribers(t).contains(x) && x != id));
            assert forall|x: usize| x != id && old(self).is_attached(x) implies #[trigger] self.topics_of(x) == old(self).topics_of(x) by {
                assert(old_components.contains_key(x));
                assert(self.components@[x] == old_components[x]);
            }
            assert forall|t: u64, x: usize| #[trigger] self.subscribers(t).contains(x) <==> (
            self.is_attached(x) && self.topics_of(x).contains(t)) by {
                if x != id {
                    assert(self.is_attached(x) == old(self).is_attached(x));
                    if old(self).is_attached(x) {
                        assert(self.topics_of(x) == old(self).topics_of(x));
                    }
                    assert(old(self).subscribers(t).contains(x) <==> (old(self).is_attached(x) && old(self).topics_of(x).contains(t)));
                }
            }
        }
        r
    }

    /// Two states that differ at most in their channel's receiving half.
    pub closed spec fn same_tables(&self, other: &Self) -> bool {
        &&& self.components@ == other.components@
        &&& self.message_map@ == other.message_map@
        &&& self.attached@ == other.attached@
        &&& self.next_id == other.next_id
        &&& self.handlers@ == other.handlers@
        &&& self.started == other.started
        &&& self.log@ == other.log@
        &&& self.delivered@ == other.delivered@
    }

    /// A state that differs from a well-formed one at most in its channel's
    /// receiving half is well formed and routes alike.
    pub proof fn lemma_same_tables_wf(a: &Self, b: &Self)
        requires
            a.wf(),
            b.same_tables(a),
        ensures
            b.wf(),
            b.same_routing(a),
    {
        Self::lemma_same_tables(a, b);
    }

    /// Two states whose tables agree and whose registries hold the same ids
    /// route alike, and the second is well formed when the first is.
    proof fn lemma_same_tables(a: &Self, b: &Self)
        requires
            a.wf(),
            b.components@ == a.components@,
            b.message_map@ == a.message_map@,
            b.attached@ == a.attached@,
            b.next_id == a.next_id,
            b.handlers@.dom() == a.handlers@.dom(),
            (b.log@ == a.log@ && b.delivered@ == a.delivered@) || b.log_ordered(),
        ensures
            b.wf(),
            b.same_routing(a),
    {
        assert forall|id: usize| #[trigger] b.handlers@.contains_key(id) == a.handlers@.contains_key(id) by {
            assert(b.handlers@.dom().contains(id) == a.handlers@.dom().contains(id));
        }
        assert forall|t: u64, id: usize| #[trigger] b.subscribers(t).contains(id) <==> (
        b.is_attached(id) && b.topics_of(id).contains(t)) by {
            assert(b.subscribers(t) == a.subscribers(t));
            assert(b.topics_of(id) == a.topics_of(id));
            assert(a.subscribers(t).contains(id) <==> (a.is_attached(id) && a.topics_of(id).contains(t)));
        }
        assert forall|t: u64| #[trigger] b.subscribers(t) == a.subscribers(t) by {}
        assert forall|id: usize| #[trigger] b.topics_of(id) == a.topics_of(id) by {}
    }

    /// An envelope reaches each actor at most once.
    pub proof fn lemma_recipients_distinct(&self, envelope: Envelope<A::Message>)
        requires
            self.wf(),
        ensures
            self.recipients(envelope).no_duplicates(),
    {
        let key = topic_of(envelope.message);
        if self.message_map@.contains_key(key) {
            assert(self.message_map@[key]@.no_duplicates());
        }
    }

    /// A copy of the subscribers of `key`.
    fn subscriber_list(&self, key: u64) -> (r: Vec<usize>)
        ensures
            r@ == self.subscribers(key),
    {
        let mut r: Vec<usize> = Vec::new();
        if let Some(list) = self.message_map.get(&key) {
            let mut k: usize = 0;
            while k < list.len()
                invariant
                    k <= list@.len(),
                    r@ == list@.take(k as int),
                decreases list@.len() - k,
            {
                r.push(list[k]);
                k = k + 1;
                assert(r@ =~= list@.take(k as int));
            }
            assert(list@.take(list@.len() as int) =~= list@);
        }
        r
    }

    /// Hands `envelope` to the actor `id`, if it is attached.
    fn deliver_to(&mut self, id: usize, envelope: &Envelope<A::Message>) -> (delivered: bool)
        requires
            old(self).wf(),
        ensures
            final(self).wf(),
            final(self).same_routing(old(self)),
            delivered == old(self).is_attached(id),
            delivered ==> A::handled(old(self).actor(id), final(self).actor(id), *envelope),
            forall|x: usize| x != id && #[trigger] old(self).is_attached(x) ==> final(self).actor(x) == old(self).actor(x),
            final(self).delivery_log() == old(self).delivery_log(),
            final(self).delivery_count() == old(self).delivery_count(),
            final(self).is_started() == old(self).is_started(),
    {
        match self.handlers.remove(&id) {
            Some(actor) => {
                let mut actor = actor;
                actor.handle(envelope);
                self.handlers.insert(id, actor);
                proof {
                    assert(self.handlers@.dom() =~= old(self).handlers@.dom());
                    Self::lemma_same_tables(old(self), self);
                }
                true
            },
            None => {
                proof {
                    assert(self.handlers@ =~= old(self).handlers@);
                    Self::lemma_same_tables(old(self), self);
                }
                false
            },
        }
    }

    /// Hands `envelope` to each subscriber of its message's topic, in order;
    /// returns them.
    fn dispatch(&mut self, envelope: &Envelope<A::Message>) -> (r: Vec<usize>)
        requires
            old(self).wf(),
        ensures
            final(self).wf(),
            final(self).same_routing(old(self)),
            r@ == old(self).subscribers(topic_of(envelope.message)),
            forall|x: usize| #[trigger] old(self).is_attached(x) && !r@.contains(x) ==> final(self).actor(x) == old(self).actor(x),
            forall|x: usize| #[trigger] r@.contains(x) ==> A::handled(old(self).actor(x), final(self).actor(x), *envelope),
            final(self).delivery_log() == old(self).delivery_log(),
            final(self).delivery_count() == old(self).delivery_count(),
            final(self).is_started() == old(self).is_started(),
    {
        let key = topic(&envelope.message);
        let ids = self.subscriber_list(key);
        proof {
            if self.message_map@.contains_key(key) {
                assert(self.message_map@[key]@.no_duplicates());
            }
        }
        let mut delivered: Vec<usize> = Vec::new();
        let mut k: usize = 0;
        while k < ids.len()
            invariant
                k <= ids@.len(),
                ids@ == old(self).subscribers(key),
                self.wf(),
                self.same_routing(old(self)),
                delivered@ == ids@.take(k as int),
                forall|x: usize| #[trigger] old(self).is_attached(x) && !delivered@.contains(x) ==> self.actor(x) == old(self).actor(x),
                forall|x: usize| #[trigger] delivered@.contains(x) ==> A::handled(old(self).actor(x), self.actor(x), *envelope),
                ids@.no_duplicates(),
                self.delivery_log() == old(self).delivery_log(),
                self.delivery_count() == old(self).delivery_count(),
                self.is_started() == old(self).is_started(),
            decreases ids@.len() - k,
        {
            let id = ids[k];
            assert(old(self).subscribers(key).contains(id));
            assert(self.subscribers(key) == old(self).subscribers(key));
            let ghost before = delivered@;
            let ghost mid = *self;
            let delivered_now = self.deliver_to(id, envelope);
            assert(delivered_now);
            delivered.push(id);
            k = k + 1;
            proof {
                assert(delivered@[before.len() as int] == id);
                assert(delivered@ =~= ids@.take(k as int));
                assert forall|x: usize| #[trigger] old(self).is_attached(x) && !delivered@.contains(x) implies self.actor(x) == old(self).actor(x) by {
                    assert(!before.contains(x)) by {
                        if before.contains(x) {
                            let i = before.index_of(x);
                            assert(delivered@[i] == x);
                        }
                    }
                    if x == id {
                        assert(delivered@.contains(x));
                    }
                    assert(mid.is_attached(x) == old(self).is_attached(x));
                    assert(mid.actor(x) == old(self).actor(x));
                }
                assert(!before.contains(id)) by {
                    if before.contains(id) {
                        let i = before.index_of(id);
                        assert(ids@[i] == id);
                        assert(ids@[k - 1] == id);
                    }
                }
                assert(mid.actor(id) == old(self).actor(id));
                assert forall|x: usize| #[trigger] delivered@.contains(x) implies A::handled(old(self).actor(x), self.actor(x), *envelope) by {
                    if x != id {
                        let i = delivered@.index_of(x);
                        assert(before[i] == x);
                        assert(ids@[i] == x);
                        assert(old(self).subscribers(key).contains(x));
                        assert(old(self).is_attached(x));
                        assert(mid.is_attached(x));
                        assert(before.contains(x));
                    }
                }
            }
        }
        assert(ids@.take(ids@.len() as int) =~= ids@);
        delivered
    }

    /// Delivers `envelope`: to the one actor it names, if that actor is
    /// attached, or to every subscriber of its message's topic. Returns the
    /// actors reached, in delivery order: each has handled the envelope once,
    /// and actors not reached are untouched. The deliveries are added to the
    /// delivery log under the envelope's number.
    pub fn deliver(&mut self, envelope: Envelope<A::Message>) -> (r: Vec<usize>)
        requires
            old(self).wf(),
        ensures
            final(self).wf(),
            final(self).same_routing(old(self)),
            r@ == old(self).recipients(envelope),
            forall|x: usize| #[trigger] old(self).is_attached(x) && !r@.contains(x) ==> final(self).actor(x) == old(self).actor(x),
            forall|x: usize| #[trigger] r@.contains(x) ==> A::handled(old(self).actor(x), final(self).actor(x), envelope),
            final(self).delivery_log() == old(self).delivery_log() + r@.map_values(
                |id: usize| (old(self).delivery_count(), id),
            ),
            final(self).delivery_count() == old(self).delivery_count() + 1,
            final(self).is_started() == old(self).is_started(),
    {
        let r = self.deliver_now(&envelope);
        let ghost count = self.delivered@;
        let ghost added = r@.map_values(|id: usize| (count, id));
        proof {
            old(self).lemma_recipients_distinct(envelope);
            let log = self.log@ + added;
            assert forall|p: int| 0 <= p < log.len() implies (#[trigger] log[p]).0 < count + 1 by {
                if p < self.log@.len() {
                    assert(log[p] == self.log@[p]);
                }
            }
            assert forall|p: int, q: int|
                0 <= p < q < log.len() && (#[trigger] log[p]).1 == (#[trigger] log[q]).1 implies log[p].0
                    < log[q].0 by {
                let n = self.log@.len() as int;
                if q < n {
                    assert(log[p] == self.log@[p]);
                    assert(log[q] == self.log@[q]);
                } else if p < n {
                    assert(log[p] == self.log@[p]);
                    assert(log[q] == added[q - n]);
                } else {
                    assert(log[p] == added[p - n]);
                    assert(log[q] == added[q - n]);
                    assert(r@[p - n] != r@[q - n]);
                }
            }
        }
        let ghost before = *self;
        self.log = Ghost(self.log@ + added);
        self.delivered = Ghost(count + 1);
        proof {
            assert(self.handlers@.dom() =~= before.handlers@.dom());
            Self::lemma_same_tables(&before, self);
        }
        r
    }

    /// `deliver` without the log.
    fn deliver_now(&mut self, envelope: &Envelope<A::Message>) -> (r: Vec<usize>)
        requires
            old(self).wf(),
        ensures
            final(self).wf(),
            final(self).same_routing(old(self)),
            r@ == old(self).recipients(*envelope),
            forall|x: usize| #[trigger] old(self).is_attached(x) && !r@.contains(x) ==> final(self).actor(x) == old(self).actor(x),
            forall|x: usize| #[trigger] r@.contains(x) ==> A::handled(old(self).actor(x), final(self).actor(x), *envelope),
            final(self).delivery_log() == old(self).delivery_log(),
            final(self).delivery_count() == old(self).delivery_count(),
            final(self).is_started() == old(self).is_started(),
    {
        match envelope.destination {
            Destination::Single(id) => {
                let mut r: Vec<usize> = Vec::new();
                if self.deliver_to(id, envelope) {
                    r.push(id);
                    assert(r@[0] == id);
                }
                assert(r@ =~= old(self).recipients(*envelope));
                assert forall|x: usize| #[trigger] old(self).is_attached(x) && !r@.contains(x) implies self.actor(x) == old(self).actor(x) by {
                    if x == id {
                        assert(r@[0] == id);
                    }
                }
                assert forall|x: usize| #[trigger] r@.contains(x) implies A::handled(old(self).actor(x), self.actor(x), *envelope) by {
                    assert(r@[0] == id);
                }
                r
            },
            Destination::All => self.dispatch(envelope),
        }
    }

    /// Acts on an interceptor's verdict on a message that arrived from
    /// `origin` for `destination`: a passed message is delivered (see
    /// `deliver`) and the loop goes on; an intercepted one is dropped and the
    /// loop goes on; `Break` stops the loop. Returns the decision and the
    /// actors reached.
    pub fn route(&mut self, origin: Origin, destination: Destination, verdict: InterceptResult<A::Message>) -> (r: (Flow, Vec<usize>))
        requires
            old(self).wf(),
        ensures
            final(self).wf(),
            final(self).same_routing(old(self)),
            r.0 == (if verdict is Break {
                Flow::Stop
            } else {
                Flow::Continue
            }),
            match verdict {
                InterceptResult::Pass(m) => {
                    let envelope = Envelope { origin, destination, message: m };
                    &&& r.1@ == old(self).recipients(envelope)
                    &&& forall|x: usize| #[trigger] r.1@.contains(x) ==> A::handled(old(self).actor(x), final(self).actor(x), envelope)
                    &&& forall|x: usize| #[trigger] old(self).is_attached(x) && !r.1@.contains(x) ==> final(self).actor(x) == old(self).actor(x)
                    &&& final(self).delivery_log() == old(self).delivery_log() + r.1@.map_values(
                        |id: usize| (old(self).delivery_count(), id),
                    )
                    &&& final(self).delivery_count() == old(self).delivery_count() + 1
                    &&& final(self).is_started() == old(self).is_started()
                },
                _ => r.1@.len() == 0 && *final(self) == *old(self),
            },
    {
        match verdict {
            InterceptResult::Pass(message) => {
                let envelope = Envelope { origin, destination, message };
                let reached = self.deliver(envelope);
                (Flow::Continue, reached)
            },
            InterceptResult::Interception => (Flow::Continue, Vec::new()),
            InterceptResult::Break => (Flow::Stop, Vec::new()),
        }
    }

    /// Starts the loop's actors: the first time, calls `init` once on every
    /// attached actor, in the order they were attached; later calls do
    /// nothing.
    pub fn init(&mut self)
        requires
            old(self).wf(),
        ensures
            final(self).wf(),
            final(self).same_routing(old(self)),
            final(self).is_started(),
            final(self).delivery_log() == old(self).delivery_log(),
            final(self).delivery_count() == old(self).delivery_count(),
            old(self).is_started() ==> *final(self) == *old(self),
            !old(self).is_started() ==> forall|x: usize| #[trigger] old(self).is_attached(x) ==> A::initialised(
                old(self).actor(x),
                final(self).actor(x),
            ),
    {
        if self.started {
            return;
        }
        let ids = self.attached_list();
        let mut k: usize = 0;
        while k < ids.len()
            invariant
                k <= ids@.len(),
                ids@ == old(self).attached_ids(),
                self.wf(),
                self.same_routing(old(self)),
                !self.started,
                self.delivery_log() == old(self).delivery_log(),
                self.delivery_count() == old(self).delivery_count(),
                forall|x: usize| #[trigger] old(self).is_attached(x) ==> if ids@.take(k as int).contains(x) {
                    A::initialised(old(self).actor(x), self.actor(x))
                } else {
                    self.actor(x) == old(self).actor(x)
                },
            decreases ids@.len() - k,
        {
            let id = ids[k];
            let ghost before = *self;
            proof {
                assert(old(self).attached@.contains(id));
                assert(!ids@.take(k as int).contains(id)) by {
                    if ids@.take(k as int).contains(id) {
                        let i = ids@.take(k as int).index_of(id);
                        assert(ids@[i] == ids@[k as int]);
                    }
                }
            }
            if let Some(actor) = self.handlers.remove(&id) {
                let mut actor = actor;
                actor.init();
                self.handlers.insert(id, actor);
                proof {
                    assert(self.handlers@.dom() =~= before.handlers@.dom());
                }
            } else {
                proof {
                    assert(self.handlers@.dom() =~= before.handlers@.dom());
                }
            }
            proof {
                Self::lemma_same_tables(&before, self);
                assert(ids@.take(k + 1) =~= ids@.take(k as int).push(id));
                assert forall|x: usize| #[trigger] old(self).is_attached(x) implies if ids@.take(k + 1).contains(x) {
                    A::initialised(old(self).actor(x), self.actor(x))
                } else {
                    self.actor(x) == old(self).actor(x)
                } by {
                    if x != id {
                        assert(ids@.take(k + 1).contains(x) == ids@.take(k as int).contains(x)) by {
                            if ids@.take(k + 1).contains(x) {
                                let i = ids@.take(k + 1).index_of(x);
                                assert(ids@.take(k as int)[i] == x);
                            }
                            if ids@.take(k as int).contains(x) {
                                let i = ids@.take(k as int).index_of(x);
                                assert(ids@.take(k + 1)[i] == x);
                            }
                        }
                        assert(before.is_attached(x));
                    } else {
                        assert(ids@.take(k + 1)[k as int] == id);
                    }
                }
            }
            k = k + 1;
        }
        let ghost before = *self;
        self.started = true;
        proof {
            Self::lemma_same_tables(&before, self);
            assert(ids@.take(ids@.len() as int) =~= ids@);
            assert forall|x: usize| #[trigger] old(self).is_attached(x) implies A::initialised(
                old(self).actor(x),
                self.actor(x),
            ) by {
                assert(old(self).attached@.contains(x));
            }
        }
    }

    /// A copy of the attached ids.
    fn attached_list(&self) -> (r: Vec<usize>)
        ensures
            r@ == self.attached_ids(),
    {
        let mut r: Vec<usize> = Vec::new();
        let mut k: usize = 0;
        while k < self.attached.len()
            invariant
                k <= self.attached@.len(),
                r@ == self.attached@.take(k as int),
            decreases self.attached@.len() - k,
        {
            r.push(self.attached[k]);
            k = k + 1;
            assert(r@ =~= self.attached@.take(k as int));
        }
        assert(self.attached@.take(self.attached@.len() as int) =~= self.attached@);
        r
    }

    /// The attached actor `id`, if any.
    pub fn get_handler(&self, id: usize) -> (r: Option<&A>)
        ensures
            match r {
                Some(a) => self.is_attached(id) && *a == self.actor(id),
                None => !self.is_attached(id),
            },
    {
        self.handlers.get(&id)
    }

    /// The attached actors by id.
    pub fn handlers(&self) -> (r: &HashMap<usize, A>)
        ensures
            forall|id: usize| #[trigger] r@.contains_key(id) == self.is_attached(id),
            forall|id: usize| #[trigger] self.is_attached(id) ==> r@[id] == self.actor(id),
    {
        &self.handlers
    }

    /// Whether another actor can be attached: ids are not used up.
    pub fn has_free_id(&self) -> (r: bool)
        ensures
            r == self.can_attach(),
    {
        self.next_id < usize::MAX
    }

    /// The receiving half of this commutator's channel, for the loop that
    /// awaits envelopes.
    pub fn receiver_mut(&mut self) -> (r: &mut Receiver<A::Message>)
        ensures
            final(self).same_tables(old(self)),
    {
        &mut self.message_receiver
    }

    /// The sending half of this commutator's channel.
    pub fn sender(&self) -> &Sender<A::Message> {
        &self.message_sender
    }

    /// Publishes `message` to every subscriber of its topic, from no actor.
    pub fn publish(&self, message: A::Message) -> (r: Result<(), SendError>) {
        send_envelope(&self.message_sender, Envelope::broadcast(Origin::Anonymous, message))
    }

    /// Takes, without waiting, the envelope at the front of the channel, if any.
    pub fn try_next(&mut self) -> (r: Option<Envelope<A::Message>>)
        requires
            old(self).wf(),
        ensures
            final(self).wf(),
            final(self).same_routing(old(self)),
            final(self).delivery_log() == old(self).delivery_log(),
            final(self).delivery_count() == old(self).delivery_count(),
            final(self).is_started() == old(self).is_started(),
    {
        let ghost before = *self;
        let received = self.message_receiver.try_recv();
        proof {
            assert(self.handlers@.dom() =~= before.handlers@.dom());
            Self::lemma_same_tables_wf(&before, self);
        }
        match received {
            Ok(envelope) => Some(envelope),
            Err(_) => None,
        }
    }

    /// Takes, without waiting, the envelopes that wait in the channel now.
    pub fn drain(&mut self) -> (r: Vec<Envelope<A::Message>>)
        requires
            old(self).wf(),
        ensures
            final(self).wf(),
            final(self).same_routing(old(self)),
            final(self).delivery_log() == old(self).delivery_log(),
            final(self).delivery_count() == old(self).delivery_count(),
            final(self).is_started() == old(self).is_started(),
    {
        let waiting = self.message_sender.len();
        let mut envelopes: Vec<Envelope<A::Message>> = Vec::new();
        let mut k: usize = 0;
        while k < waiting
            invariant
                self.wf(),
                self.same_routing(old(self)),
                self.delivery_log() == old(self).delivery_log(),
                self.delivery_count() == old(self).delivery_count(),
                self.is_started() == old(self).is_started(),
            decreases waiting - k,
        {
            let ghost before = *self;
            let received = self.message_receiver.try_recv();
            proof {
                assert(self.handlers@.dom() =~= before.handlers@.dom());
                Self::lemma_same_tables_wf(&before, self);
            }
            match received {
                Ok(envelope) => envelopes.push(envelope),
                Err(_) => {
                    break;
                },
            }
            k = k + 1;
        }
        envelopes
    }
}

/// In a well-formed commutator (one reached from `new` through any sequence of
/// `attach` and `detach`), an actor is subscribed to a topic exactly when it
/// is attached and declared that topic when it was attached.
pub proof fn subscription_consistency<A: Actor>(c: &Commutator<A>)
    requires
        c.wf(),
    ensures
        forall|t: u64, id: usize| #[trigger] c.subscribers(t).contains(id) <==> (c.is_attached(id)
            && c.topics_of(id).contains(t)),
{
}

/// An actor that is not attached (as `detach` leaves it) is in no
/// subscription, and no envelope reaches it.
pub proof fn detached_never_reached<A: Actor>(c: &Commutator<A>, id: usize, envelope: Envelope<A::Message>)
    requires
        c.wf(),
        !c.is_attached(id),
    ensures
        forall|t: u64| !(#[trigger] c.subscribers(t)).contains(id),
        !c.recipients(envelope).contains(id),
{
    assert forall|t: u64| !(#[trigger] c.subscribers(t)).contains(id) by {
        if c.subscribers(t).contains(id) {
            assert(c.is_attached(id));
        }
    }
}

/// Envelopes are delivered in the order they are handed to `deliver` (which
/// `route` calls for each passed message): in a commutator's delivery log,
/// each actor appears under increasing envelope numbers, so it sees an
/// earlier envelope before a later one, and each envelope at most once.
pub proof fn fifo_delivery<A: Actor>(c: &Commutator<A>)
    requires
        c.wf(),
    ensures
        forall|p: int| 0 <= p < c.delivery_log().len() ==> (#[trigger] c.delivery_log()[p]).0 < c.delivery_count(),
        forall|p: int, q: int|
            0 <= p < q < c.delivery_log().len() && (#[trigger] c.delivery_log()[p]).1
                == (#[trigger] c.delivery_log()[q]).1 ==> c.delivery_log()[p].0 < c.delivery_log()[q].0,
{
}

} // verus!
