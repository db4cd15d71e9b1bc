//! The broker: the authoritative subscription registry, the address book of
//! connected sessions, and the submit / subscribe / unsubscribe decisions,
//! including the fan-out of issue notifications.

use vstd::prelude::*;
use vstd::string::StringExecFns;
use crate::assoc::{
    lookup, keys_unique, unique_seq, remove_first, lemma_lookup_at, lemma_lookup_absent,
    lemma_lookup_update_other, lemma_lookup_remove_other, lemma_lookup_push,
    lemma_push_preserves_unique, lemma_remove_first_at, lemma_remove_first_absent,
    lemma_remove_preserves_unique,
};
use crate::ids::{Uid, uid_text, uid_to_string, find_uid, fresh_uid};

verus! {

/// Errors raised while interacting with the broker.
#[derive(Debug, Clone, PartialEq, Eq)]
pub enum PublicationError {
    DataLoggingError(String),
    SessionService(String),
    Publishing(String),
    Subscriptions(String),
}

impl PublicationError {
    /// The textual form reported to clients.
    pub fn message(&self) -> (r: String)
        ensures
            self matches PublicationError::DataLoggingError(s) ==> r@
                == "Could not log publication to the data log: "@ + s@,
            self matches PublicationError::SessionService(s) ==> r@
                == "Error while communicating with SessionService: "@ + s@,
            self matches PublicationError::Publishing(s) ==> r@ == "Error while publishing: "@
                + s@,
            self matches PublicationError::Subscriptions(s) ==> r@
                == "Error while handling subscriptions: "@ + s@,
    {
        match self {
            PublicationError::DataLoggingError(s) => {
                let mut m: String = "Could not log publication to the data log: ".to_owned();
                m.append(s.as_str());
                m
            }
            PublicationError::SessionService(s) => {
                let mut m: String = "Error while communicating with SessionService: ".to_owned();
                m.append(s.as_str());
                m
            }
            PublicationError::Publishing(s) => {
                let mut m: String = "Error while publishing: ".to_owned();
                m.append(s.as_str());
                m
            }
            PublicationError::Subscriptions(s) => {
                let mut m: String = "Error while handling subscriptions: ".to_owned();
                m.append(s.as_str());
                m
            }
        }
    }
}

/// An accepted submission, ready to be stored and distributed.
#[derive(Debug, Clone, PartialEq, Eq)]
pub struct Publication {
    pub publication_id: Uid,
    pub subscription_id: Uid,
    pub data: Vec<u8>,
}

/// The mathematical content of a `Publication`.
pub ghost struct PublicationView {
    pub publication_id: Uid,
    pub subscription_id: Uid,
    pub data: Seq<u8>,
}

impl View for Publication {
    type V = PublicationView;

    open spec fn view(&self) -> PublicationView {
        PublicationView {
            publication_id: self.publication_id,
            subscription_id: self.subscription_id,
            data: self.data@,
        }
    }
}

/// A named topic together with the set of currently subscribed clients.
#[derive(Debug, PartialEq, Eq)]
pub struct Subscription {
    /// Unique identifier
    pub id: Uid,
    /// Descriptive name
    pub name: String,
    /// The currently subscribed clients; order of first subscription, no
    /// client twice
    pub subscribers: Vec<Uid>,
}

/// The mathematical content of a `Subscription`.
pub ghost struct SubscriptionView {
    pub id: Uid,
    pub name: Seq<char>,
    pub subscribers: Seq<Uid>,
}

impl SubscriptionView {
    /// No client is listed twice.
    pub open spec fn wf(self) -> bool {
        unique_seq(self.subscribers)
    }
}

impl View for Subscription {
    type V = SubscriptionView;

    open spec fn view(&self) -> SubscriptionView {
        SubscriptionView { id: self.id, name: self.name@, subscribers: self.subscribers@ }
    }
}

impl Clone for Subscription {
    fn clone(&self) -> (r: Subscription)
        ensures
            r@ == self@,
    {
        let r = Subscription {
            id: self.id,
            name: self.name.clone(),
            subscribers: self.subscribers.clone(),
        };
        proof {
            assert(r.subscribers@ =~= self.subscribers@);
            assert(r@ =~= self@);
        }
        r
    }
}

impl Subscription {
    /// Creates a new `Subscription` with no subscribers yet.
    pub fn new(id: &Uid, name: &str) -> (r: Subscription)
        ensures
            r@ == (SubscriptionView { id: *id, name: name@, subscribers: Seq::<Uid>::empty() }),
            r@.wf(),
    {
        let r = Subscription { id: *id, name: name.to_owned(), subscribers: Vec::new() };
        proof {
            assert(r@ =~= SubscriptionView {
                id: *id,
                name: name@,
                subscribers: Seq::<Uid>::empty(),
            });
        }
        r
    }

    /// Adds a subscriber; a client already present is left alone, so
    /// subscribing twice is idempotent.
    pub fn append_subscriber(&mut self, subscriber: &Uid)
        requires
            old(self)@.wf(),
        ensures
            final(self)@.wf(),
            final(self).id == old(self).id,
            final(self)@.name == old(self)@.name,
            old(self)@.subscribers.contains(*subscriber) ==> final(self)@.subscribers == old(
                self,
            )@.subscribers,
            !old(self)@.subscribers.contains(*subscriber) ==> final(self)@.subscribers == old(
                self,
            )@.subscribers.push(*subscriber),
            final(self)@.subscribers.contains(*subscriber),
    {
        match find_uid(&self.subscribers, subscriber) {
            Some(_) => {
                proof {
                    assert(old(self)@.subscribers.contains(*subscriber));
                }
            }
            None => {
                self.subscribers.push(*subscriber);
                proof {
                    let s = old(self)@.subscribers;
                    assert forall|i: int, j: int|
                        0 <= i < j < s.push(*subscriber).len() implies #[trigger] s.push(
                        *subscriber,
                    )[i] != #[trigger] s.push(*subscriber)[j] by {
                        if j < s.len() {
                        } else {
                            assert(s.push(*subscriber)[j] == *subscriber);
                            assert(s.push(*subscriber)[i] == s[i]);
                            assert(s.contains(s[i]));
                        }
                    }
                    assert(s.push(*subscriber)[s.len() as int] == *subscriber);
                }
            }
        }
    }

    /// Removes a subscriber; removing an absent client is a no-op.
    pub fn remove_subscriber(&mut self, subscriber: &Uid)
        requires
            old(self)@.wf(),
        ensures
            final(self)@.wf(),
            final(self).id == old(self).id,
            final(self)@.name == old(self)@.name,
            final(self)@.subscribers == remove_first(old(self)@.subscribers, *subscriber),
            !final(self)@.subscribers.contains(*subscriber),
    {
        match find_uid(&self.subscribers, subscriber) {
            Some(i) => {
                self.subscribers.remove(i);
                proof {
                    lemma_remove_first_at(old(self)@.subscribers, *subscriber, i as int);
                    lemma_remove_preserves_unique(old(self)@.subscribers, i as int);
                }
            }
            None => {
                proof {
                    lemma_remove_first_absent(old(self)@.subscribers, *subscriber);
                }
            }
        }
    }
}

/// The subscription store: an insertion-ordered map from subscription id to
/// `Subscription`, with unique keys.
#[derive(Debug, Clone)]
pub struct Subscriptions {
    store: Vec<(Uid, Subscription)>,
}

impl View for Subscriptions {
    type V = Seq<(Uid, Subscription)>;

    closed spec fn view(&self) -> Seq<(Uid, Subscription)> {
        self.store@
    }
}

impl Subscriptions {
    /// Every key occurs once, names its record, and the record is
    /// well-formed.
    pub open spec fn wf(&self) -> bool {
        &&& keys_unique(self@)
        &&& forall|i: int|
            0 <= i < self@.len() ==> (#[trigger] self@[i]).1.id == self@[i].0 && self@[i].1@.wf()
    }

    /// Initialize a new subscription store
    pub fn new() -> (r: Subscriptions)
        ensures
            r@ == Seq::<(Uid, Subscription)>::empty(),
            r.wf(),
    {
        let r = Subscriptions { store: Vec::new() };
        proof {
            assert(r@ =~= Seq::<(Uid, Subscription)>::empty());
        }
        r
    }

    /// The index of the entry holding `id`, scanning from the front.
    fn position(&self, id: &Uid) -> (r: Option<usize>)
        ensures
            r matches Some(i) ==> i < self@.len() && self@[i as int].0 == *id && (forall|j: int|
                0 <= j < i ==> (#[trigger] self@[j]).0 != *id),
            r is None ==> forall|j: int| 0 <= j < self@.len() ==> (#[trigger] self@[j]).0 != *id,
    {
        let mut i: usize = 0;
        while i < self.store.len()
            invariant
                i <= self@.len(),
                forall|j: int| 0 <= j < i ==> (#[trigger] self@[j]).0 != *id,
            decreases self@.len() - i,
        {
            if self.store[i].0 == *id {
                return Some(i);
            }
            i += 1;
        }
        None
    }

    /// Updates the subscription store with a new entry, silently replacing
    /// an existing one under the same id.
    pub fn update(&mut self, sub: &Subscription)
        requires
            old(self).wf(),
            sub@.wf(),
        ensures
            final(self).wf(),
            lookup(final(self)@, sub.id) matches Some(v) && v@ == sub@,
            forall|k: Uid| k != sub.id ==> lookup(final(self)@, k) == lookup(old(self)@, k),
    {
        match self.position(&sub.id) {
            Some(i) => {
                self.store[i] = (sub.id, sub.clone());
                proof {
                    let s0 = old(self)@;
                    let s1 = final(self)@;
                    assert(s1 == s0.update(i as int, (sub.id, final(self)@[i as int].1)));
                    assert forall|p: int, q: int|
                        0 <= p < q < s1.len() implies (#[trigger] s1[p]).0 != (
                    #[trigger] s1[q]).0 by {
                        assert(s0[p].0 == s1[p].0);
                        assert(s0[q].0 == s1[q].0);
                    }
                    assert forall|j: int| 0 <= j < i implies (#[trigger] s1[j]).0 != sub.id by {
                        assert(s1[j] == s0[j]);
                    }
                    lemma_lookup_at(s1, sub.id, i as int);
                    assert forall|k: Uid| k != sub.id implies lookup(s1, k) == lookup(s0, k) by {
                        lemma_lookup_update_other(
                            s0,
                            i as int,
                            (sub.id, s1[i as int].1),
                            k,
                        );
                    }
                }
            }
            None => {
                let i = self.store.len();
                self.store.push((sub.id, sub.clone()));
                proof {
                    let s0 = old(self)@;
                    let s1 = final(self)@;
                    assert(s1 == s0.push((sub.id, s1[i as int].1)));
                    assert forall|p: int, q: int|
                        0 <= p < q < s1.len() implies (#[trigger] s1[p]).0 != (
                    #[trigger] s1[q]).0 by {
                        if q < s0.len() {
                            assert(s0[p].0 == s1[p].0);
                            assert(s0[q].0 == s1[q].0);
                        } else {
                            assert(s1[p] == s0[p]);
                            assert(s1[q].0 == sub.id);
                        }
                    }
                    assert forall|j: int| 0 <= j < i implies (#[trigger] s1[j]).0 != sub.id by {
                        assert(s1[j] == s0[j]);
                    }
                    lemma_lookup_at(s1, sub.id, i as int);
                    assert forall|k: Uid| k != sub.id implies lookup(s1, k) == lookup(s0, k) by {
                        lemma_lookup_push(s0, (sub.id, s1[i as int].1), k);
                        lemma_lookup_absent(s0, sub.id);
                    }
                }
            }
        }
    }

    /// Attempts to retrieve a subscription from the store; a copy of the
    /// stored record is returned.
    pub fn fetch(&self, id: &Uid) -> (r: Result<Subscription, PublicationError>)
        requires
            self.wf(),
        ensures
            r is Ok <==> lookup(self@, *id) is Some,
            r matches Ok(s) ==> lookup(self@, *id) matches Some(v) && s@ == v@ && s.id == *id
                && s@.wf(),
            r matches Err(e) ==> e matches PublicationError::Subscriptions(m) && m@
                == "Subscription not found"@,
    {
        match self.position(id) {
            Some(i) => {
                proof {
                    lemma_lookup_at(self@, *id, i as int);
                }
                Ok(self.store[i].1.clone())
            }
            None => {
                proof {
                    lemma_lookup_absent(self@, *id);
                }
                Err(PublicationError::Subscriptions("Subscription not found".to_owned()))
            }
        }
    }

    /// Removes a subscription from the subscription store; removing an
    /// absent id is a no-op.
    pub fn remove(&mut self, id: &Uid)
        requires
            old(self).wf(),
        ensures
            final(self).wf(),
            lookup(final(self)@, *id) is None,
            forall|k: Uid| k != *id ==> lookup(final(self)@, k) == lookup(old(self)@, k),
    {
        match self.position(id) {
            Some(i) => {
                self.store.remove(i);
                proof {
                    let s0 = old(self)@;
                    let s1 = final(self)@;
                    assert(s1 == s0.remove(i as int));
                    assert forall|p: int, q: int|
                        0 <= p < q < s1.len() implies (#[trigger] s1[p]).0 != (
                    #[trigger] s1[q]).0 by {
                        let p0 = if p < i { p } else { p + 1 };
                        let q0 = if q < i { q } else { q + 1 };
                        assert(s1[p] == s0[p0]);
                        assert(s1[q] == s0[q0]);
                    }
                    assert forall|j: int| 0 <= j < s1.len() implies (#[trigger] s1[j]).0
                        != *id by {
                        let j0 = if j < i { j } else { j + 1 };
                        assert(s1[j] == s0[j0]);
                    }
                    lemma_lookup_absent(s1, *id);
                    assert forall|k: Uid| k != *id implies lookup(s1, k) == lookup(s0, k) by {
                        lemma_lookup_remove_other(s0, i as int, k);
                    }
                }
            }
            None => {
                proof {
                    lemma_lookup_absent(self@, *id);
                }
            }
        }
    }
}

/// A message to register or unregister a client's live endpoint with the
/// broker's address book. The endpoint's channel handle itself is kept by
/// the unverified shell; the broker records which clients are reachable.
#[derive(Debug, Clone, Copy, PartialEq, Eq, Structural)]
pub enum ManageSession {
    /// Record the client's endpoint in the address book, replacing any
    /// previous entry.
    Add { client_id: Uid },
    /// Remove the client's endpoint from the address book.
    Remove { client_id: Uid },
}

/// A message to add or remove a client id from a subscription.
#[derive(Debug, Clone, Copy, PartialEq, Eq, Structural)]
pub enum ManageSubscription {
    /// Add client to a Subscription, creating it, if it doesn't exist
    Add { client_id: Uid, subscription_id: Uid },
    /// Clients _are_ allowed to cancel their Subscription
    Remove { client_id: Uid, subscription_id: Uid },
}

/// A message to submit data for publishing
#[derive(Debug, Clone, PartialEq, Eq)]
pub struct SubmitCommand {
    client_id: Uid,
    subscription_id: Uid,
    submission: Vec<u8>,
}

/// The mathematical content of a `SubmitCommand`.
pub ghost struct SubmitCommandView {
    pub client_id: Uid,
    pub subscription_id: Uid,
    pub submission: Seq<u8>,
}

impl View for SubmitCommand {
    type V = SubmitCommandView;

    closed spec fn view(&self) -> SubmitCommandView {
        SubmitCommandView {
            client_id: self.client_id,
            subscription_id: self.subscription_id,
            submission: self.submission@,
        }
    }
}

impl SubmitCommand {
    pub fn new(client: &Uid, subscription_id: &Uid, submission: &Vec<u8>) -> (r: SubmitCommand)
        ensures
            r@ == (SubmitCommandView {
                client_id: *client,
                subscription_id: *subscription_id,
                submission: submission@,
            }),
    {
        let r = SubmitCommand {
            client_id: *client,
            subscription_id: *subscription_id,
            submission: submission.clone(),
        };
        proof {
            assert(r.submission@ =~= submission@);
        }
        r
    }
}

/// A notification informing a client about a newly persisted publication:
/// the subscription id, then the publication id.
#[derive(Debug, Clone, Copy, PartialEq, Eq, Structural)]
pub struct Issue(pub Uid, pub Uid);

impl Publication {
    /// Wraps an accepted submission, drawing a fresh publication id.
    fn new(subscription_id: &Uid, data: &Vec<u8>) -> (r: Publication)
        ensures
            r.subscription_id == *subscription_id,
            r@.data == data@,
    {
        let r = Publication {
            publication_id: fresh_uid(),
            subscription_id: *subscription_id,
            data: data.clone(),
        };
        proof {
            assert(r.data@ =~= data@);
        }
        r
    }
}

/// Whether `c` is currently a subscriber of `sid` in the given registry.
pub open spec fn is_subscriber(store: Seq<(Uid, Subscription)>, sid: Uid, c: Uid) -> bool {
    lookup(store, sid) matches Some(v) && v@.subscribers.contains(c)
}

/// How one subscribe/unsubscribe action changes whether `c` subscribes to
/// `sid`: its own Add makes it true, its own Remove makes it false, and
/// any action on another client or subscription leaves it alone.
pub open spec fn member_step(m: bool, a: ManageSubscription, sid: Uid, c: Uid) -> bool {
    match a {
        ManageSubscription::Add { client_id, subscription_id } => {
            if subscription_id == sid && client_id == c {
                true
            } else {
                m
            }
        },
        ManageSubscription::Remove { client_id, subscription_id } => {
            if subscription_id == sid && client_id == c {
                false
            } else {
                m
            }
        },
    }
}

/// Membership of `c` in `sid` after a sequence of subscribe/unsubscribe
/// actions, starting from membership `m0`.
pub open spec fn run_member(m0: bool, actions: Seq<ManageSubscription>, sid: Uid, c: Uid) -> bool
    decreases actions.len(),
{
    if actions.len() == 0 {
        m0
    } else {
        member_step(run_member(m0, actions.drop_last(), sid, c), actions.last(), sid, c)
    }
}

/// Whether the last action in `actions` that touches `(sid, c)` is a
/// subscribe.
pub open spec fn last_action_subscribes(actions: Seq<ManageSubscription>, sid: Uid, c: Uid) -> bool
    decreases actions.len(),
{
    if actions.len() == 0 {
        false
    } else {
        match actions.last() {
            ManageSubscription::Add { client_id, subscription_id } => {
                if subscription_id == sid && client_id == c {
                    true
                } else {
                    last_action_subscribes(actions.drop_last(), sid, c)
                }
            },
            ManageSubscription::Remove { client_id, subscription_id } => {
                if subscription_id == sid && client_id == c {
                    false
                } else {
                    last_action_subscribes(actions.drop_last(), sid, c)
                }
            },
        }
    }
}

/// Law: starting from an empty registry, after any sequence of subscribe
/// and unsubscribe actions a client subscribes to a topic exactly when its
/// last action on that topic was a subscribe. In particular a second
/// subscribe changes nothing (idempotence), and each `handle_subscription`
/// call performs exactly one `member_step` on the registry's membership.
pub proof fn lemma_member_is_last_action(actions: Seq<ManageSubscription>, sid: Uid, c: Uid)
    ensures
        run_member(false, actions, sid, c) == last_action_subscribes(actions, sid, c),
    decreases actions.len(),
{
    if actions.len() > 0 {
        lemma_member_is_last_action(actions.drop_last(), sid, c);
    }
}

/// The fan-out of one issue: one `(recipient, Issue)` pair for each
/// subscriber, in subscription order, that has a live session.
pub open spec fn fan_out_spec(subs: Seq<Uid>, sess: Seq<Uid>, sid: Uid, pid: Uid) -> Seq<
    (Uid, Issue),
>
    decreases subs.len(),
{
    if subs.len() == 0 {
        Seq::<(Uid, Issue)>::empty()
    } else {
        let rest = fan_out_spec(subs.drop_first(), sess, sid, pid);
        if sess.contains(subs[0]) {
            seq![(subs[0], Issue(sid, pid))] + rest
        } else {
            rest
        }
    }
}

/// The broker state: the subscription registry and the address book of
/// connected sessions.
#[derive(Debug, Clone)]
pub struct PubSubService {
    subscriptions: Subscriptions,
    sessions: Vec<Uid>,
}

/// The mathematical content of the broker state.
pub ghost struct PubSubView {
    pub subscriptions: Seq<(Uid, Subscription)>,
    pub sessions: Seq<Uid>,
}

impl View for PubSubService {
    type V = PubSubView;

    closed spec fn view(&self) -> PubSubView {
        PubSubView { subscriptions: self.subscriptions@, sessions: self.sessions@ }
    }
}

impl PubSubService {
    /// The registry is well-formed and no session is recorded twice.
    pub open spec fn wf(&self) -> bool {
        &&& self.inv_subscriptions()
        &&& unique_seq(self@.sessions)
    }

    /// The registry component of well-formedness.
    pub closed spec fn inv_subscriptions(&self) -> bool {
        self.subscriptions.wf()
    }

    /// Creates a new broker with an empty registry and address book.
    pub fn new() -> (r: PubSubService)
        ensures
            r@.subscriptions == Seq::<(Uid, Subscription)>::empty(),
            r@.sessions == Seq::<Uid>::empty(),
            r.wf(),
    {
        let r = PubSubService { subscriptions: Subscriptions::new(), sessions: Vec::new() };
        proof {
            assert(r@.sessions =~= Seq::<Uid>::empty());
        }
        r
    }

    /// Registers or unregisters a client's endpoint. Registering twice is
    /// idempotent; unregistering an absent client is a no-op.
    pub fn handle_session(&mut self, msg: ManageSession) -> (r: Result<(), PublicationError>)
        requires
            old(self).wf(),
        ensures
            final(self).wf(),
            r is Ok,
            final(self)@.subscriptions == old(self)@.subscriptions,
            msg matches ManageSession::Add { client_id } ==> {
                &&& old(self)@.sessions.contains(client_id) ==> final(self)@.sessions == old(
                    self,
                )@.sessions
                &&& !old(self)@.sessions.contains(client_id) ==> final(self)@.sessions == old(
                    self,
                )@.sessions.push(client_id)
                &&& final(self)@.sessions.contains(client_id)
            },
            msg matches ManageSession::Remove { client_id } ==> {
                &&& final(self)@.sessions == remove_first(old(self)@.sessions, client_id)
                &&& !final(self)@.sessions.contains(client_id)
            },
    {
        match msg {
            ManageSession::Add { client_id } => {
                match find_uid(&self.sessions, &client_id) {
                    Some(_) => { }
                    None => {
                        self.sessions.push(client_id);
                        proof {
                            lemma_push_preserves_unique(old(self)@.sessions, client_id);
                            assert(final(self)@.sessions[old(self)@.sessions.len() as int]
                                == client_id);
                        }
                    }
                }
            }
            ManageSession::Remove { client_id } => {
                match find_uid(&self.sessions, &client_id) {
                    Some(i) => {
                        self.sessions.remove(i);
                        proof {
                            lemma_remove_first_at(old(self)@.sessions, client_id, i as int);
                            lemma_remove_preserves_unique(old(self)@.sessions, i as int);
                        }
                    }
                    None => {
                        proof {
                            lemma_remove_first_absent(old(self)@.sessions, client_id);
                        }
                    }
                }
            }
        }
        Ok(())
    }

    /// Adds a client to a subscription, creating the subscription if it
    /// does not exist, or removes a client from one, deleting the
    /// subscription when its last subscriber leaves.
    pub fn handle_subscription(&mut self, cmd: ManageSubscription) -> (r: Result<
        (),
        PublicationError,
    >)
        requires
            old(self).wf(),
        ensures
            final(self).wf(),
            final(self)@.sessions == old(self)@.sessions,
            forall|s2: Uid, x: Uid|
                is_subscriber(final(self)@.subscriptions, s2, x) == member_step(
                    is_subscriber(old(self)@.subscriptions, s2, x),
                    cmd,
                    s2,
                    x,
                ),
            cmd matches ManageSubscription::Add { client_id, subscription_id } ==> {
                &&& r is Ok
                &&& forall|k: Uid|
                    k != subscription_id ==> lookup(final(self)@.subscriptions, k) == lookup(
                        old(self)@.subscriptions,
                        k,
                    )
                &&& (lookup(old(self)@.subscriptions, subscription_id) matches Some(o) ==> (
                lookup(
                    final(self)@.subscriptions,
                    subscription_id,
                ) matches Some(v) && v@.name == o@.name && v@.subscribers == (
                if o@.subscribers.contains(client_id) {
                    o@.subscribers
                } else {
                    o@.subscribers.push(client_id)
                })))
                &&& (lookup(old(self)@.subscriptions, subscription_id) is None ==> (lookup(
                    final(self)@.subscriptions,
                    subscription_id,
                ) matches Some(v) && v@ == (SubscriptionView {
                    id: subscription_id,
                    name: uid_text(client_id),
                    subscribers: seq![client_id],
                })))
                &&& forall|x: Uid|
                    is_subscriber(final(self)@.subscriptions, subscription_id, x) == (x
                        == client_id || is_subscriber(
                        old(self)@.subscriptions,
                        subscription_id,
                        x,
                    ))
            },
            cmd matches ManageSubscription::Remove { client_id, subscription_id } ==> {
                &&& r is Ok <==> is_subscriber(
                    old(self)@.subscriptions,
                    subscription_id,
                    client_id,
                )
                &&& r is Err ==> final(self)@.subscriptions == old(self)@.subscriptions
                &&& (lookup(old(self)@.subscriptions, subscription_id) is None ==> (r matches Err(
                    e,
                ) && e matches PublicationError::Subscriptions(m) && m@
                    == "Subscription not found"@))
                &&& ((lookup(old(self)@.subscriptions, subscription_id) matches Some(v)
                    && !v@.subscribers.contains(client_id)) ==> (r matches Err(e) && e matches
                    PublicationError::Subscriptions(m) && m@ == "not subscribed"@))
                &&& (r is Ok ==> (lookup(old(self)@.subscriptions, subscription_id) matches Some(
                    v,
                ) && (remove_first(v@.subscribers, client_id).len() == 0 ==> lookup(
                    final(self)@.subscriptions,
                    subscription_id,
                ) is None) && (remove_first(v@.subscribers, client_id).len() != 0 ==> (lookup(
                    final(self)@.subscriptions,
                    subscription_id,
                ) matches Some(w) && w@.name == v@.name && w@.subscribers == remove_first(
                    v@.subscribers,
                    client_id,
                )))))
                &&& forall|k: Uid|
                    k != subscription_id ==> lookup(final(self)@.subscriptions, k) == lookup(
                        old(self)@.subscriptions,
                        k,
                    )
                &&& forall|x: Uid|
                    is_subscriber(final(self)@.subscriptions, subscription_id, x) == (
                    is_subscriber(old(self)@.subscriptions, subscription_id, x) && x != client_id)
            },
    {
        match cmd {
            ManageSubscription::Add { client_id, subscription_id } => {
                match self.subscriptions.fetch(&subscription_id) {
                    Ok(mut s) => {
                        s.append_subscriber(&client_id);
                        self.subscriptions.update(&s);
                        proof {
                            let o = lookup(old(self)@.subscriptions, subscription_id)->Some_0;
                            let vw = lookup(
                                final(self)@.subscriptions,
                                subscription_id,
                            )->Some_0@;
                            assert forall|x: Uid|
                                is_subscriber(final(self)@.subscriptions, subscription_id, x)
                                    == (x == client_id || is_subscriber(
                                    old(self)@.subscriptions,
                                    subscription_id,
                                    x,
                                )) by {
                                if !o@.subscribers.contains(client_id) {
                                    assert(vw.subscribers == o@.subscribers.push(client_id));
                                    if x == client_id {
                                        assert(vw.subscribers[o@.subscribers.len() as int] == x);
                                    } else if o@.subscribers.contains(x) {
                                        let j = choose|j: int|
                                            0 <= j < o@.subscribers.len() && o@.subscribers[j]
                                                == x;
                                        assert(vw.subscribers[j] == x);
                                    } else if vw.subscribers.contains(x) {
                                        let j = choose|j: int|
                                            0 <= j < vw.subscribers.len() && vw.subscribers[j]
                                                == x;
                                        assert(j < o@.subscribers.len());
                                        assert(o@.subscribers[j] == x);
                                    }
                                }
                            }
                        }
                        Ok(())
                    }
                    Err(_) => {
                        let name = uid_to_string(&client_id);
                        let mut new_sub = Subscription::new(&subscription_id, name.as_str());
                        new_sub.append_subscriber(&client_id);
                        self.subscriptions.update(&new_sub);
                        proof {
                            assert(new_sub@.subscribers =~= seq![client_id]);
                            let vw = lookup(
                                final(self)@.subscriptions,
                                subscription_id,
                            )->Some_0@;
                            assert(vw =~= SubscriptionView {
                                id: subscription_id,
                                name: uid_text(client_id),
                                subscribers: seq![client_id],
                            });
                            assert forall|x: Uid|
                                is_subscriber(final(self)@.subscriptions, subscription_id, x)
                                    == (x == client_id || is_subscriber(
                                    old(self)@.subscriptions,
                                    subscription_id,
                                    x,
                                )) by {
                                if x == client_id {
                                    assert(vw.subscribers[0] == x);
                                } else if vw.subscribers.contains(x) {
                                    let j = choose|j: int|
                                        0 <= j < vw.subscribers.len() && vw.subscribers[j] == x;
                                }
                            }
                        }
                        Ok(())
                    }
                }
            }
            ManageSubscription::Remove { client_id, subscription_id } => {
                match self.subscriptions.fetch(&subscription_id) {
                    Err(e) => Err(e),
                    Ok(mut s) => {
                        match find_uid(&s.subscribers, &client_id) {
                            None => {
                                Err(PublicationError::Subscriptions("not subscribed".to_owned()))
                            }
                            Some(i) => {
                                let ghost v = lookup(
                                    old(self)@.subscriptions,
                                    subscription_id,
                                )->Some_0;
                                s.remove_subscriber(&client_id);
                                if s.subscribers.is_empty() {
                                    self.subscriptions.remove(&subscription_id);
                                } else {
                                    self.subscriptions.update(&s);
                                }
                                proof {
                                    assert forall|x: Uid|
                                        is_subscriber(
                                            final(self)@.subscriptions,
                                            subscription_id,
                                            x,
                                        ) == (is_subscriber(
                                            old(self)@.subscriptions,
                                            subscription_id,
                                            x,
                                        ) && x != client_id) by {
                                        lemma_remove_first_at(
                                            v@.subscribers,
                                            client_id,
                                            i as int,
                                        );
                                        lemma_remove_preserves_unique(v@.subscribers, i as int);
                                        let rem = remove_first(v@.subscribers, client_id);
                                        if rem.len() != 0 {
                                            if x != client_id {
                                                if rem.contains(x) {
                                                    let j = choose|j: int|
                                                        0 <= j < rem.len() && rem[j] == x;
                                                    let j0 = if j < i {
                                                        j
                                                    } else {
                                                        j + 1
                                                    };
                                                    assert(v@.subscribers[j0] == x);
                                                } else if v@.subscribers.contains(x) {
                                                    let j0 = choose|j0: int|
                                                        0 <= j0 < v@.subscribers.len()
                                                            && v@.subscribers[j0] == x;
                                                    let j = if j0 < i {
                                                        j0
                                                    } else {
                                                        j0 - 1
                                                    };
                                                    assert(rem[j] == x);
                                                }
                                            }
                                        }
                                    }
                                }
                                Ok(())
                            }
                        }
                    }
                }
            }
        }
    }

    /// Accepts a submission: the subscription must exist, and the accepted
    /// publication carries the submitted bytes under a fresh publication
    /// id. Nothing is stored or delivered yet; the caller persists the
    /// publication first and only then fans it out.
    pub fn prepare_submit(&self, cmd: &SubmitCommand) -> (r: Result<
        Publication,
        PublicationError,
    >)
        requires
            self.wf(),
        ensures
            r is Ok <==> lookup(self@.subscriptions, cmd@.subscription_id) is Some,
            r matches Ok(p) ==> p.subscription_id == cmd@.subscription_id && p@.data
                == cmd@.submission,
            r matches Err(e) ==> e matches PublicationError::Publishing(m) && m@
                == "no such subscription"@,
    {
        match self.subscriptions.fetch(&cmd.subscription_id) {
            Ok(_) => Ok(Publication::new(&cmd.subscription_id, &cmd.submission)),
            Err(_) => Err(PublicationError::Publishing("no such subscription".to_owned())),
        }
    }

    /// Computes the issue notifications for a persisted publication: one
    /// per subscriber with a live endpoint, in subscription order. A
    /// subscriber without a live endpoint is skipped.
    pub fn fan_out(&self, publication: &Publication) -> (r: Vec<(Uid, Issue)>)
        requires
            self.wf(),
        ensures
            lookup(self@.subscriptions, publication.subscription_id) matches Some(v) ==> r@
                == fan_out_spec(
                v@.subscribers,
                self@.sessions,
                publication.subscription_id,
                publication.publication_id,
            ),
            lookup(self@.subscriptions, publication.subscription_id) is None ==> r@ == Seq::<
                (Uid, Issue),
            >::empty(),
    {
        let sid = publication.subscription_id;
        let pid = publication.publication_id;
        let mut r: Vec<(Uid, Issue)> = Vec::new();
        proof {
            assert(r@ =~= Seq::<(Uid, Issue)>::empty());
        }
        match self.subscriptions.fetch(&sid) {
            Ok(s) => {
                let ghost subs = s@.subscribers;
                let ghost sess = self@.sessions;
                let mut i: usize = 0;
                proof {
                    assert(subs.skip(0) =~= subs);
                    assert(Seq::<(Uid, Issue)>::empty() + fan_out_spec(subs, sess, sid, pid)
                        =~= fan_out_spec(subs, sess, sid, pid));
                }
                while i < s.subscribers.len()
                    invariant
                        i <= subs.len(),
                        s@.subscribers == subs,
                        self@.sessions == sess,
                        self.wf(),
                        fan_out_spec(subs, sess, sid, pid) == r@ + fan_out_spec(
                            subs.skip(i as int),
                            sess,
                            sid,
                            pid,
                        ),
                    decreases subs.len() - i,
                {
                    let c = s.subscribers[i];
                    proof {
                        assert(subs.skip(i as int).drop_first() =~= subs.skip(i as int + 1));
                        assert(subs.skip(i as int)[0] == subs[i as int]);
                    }
                    let ghost r_pre = r@;
                    match find_uid(&self.sessions, &c) {
                        Some(_) => {
                            r.push((c, Issue(sid, pid)));
                            proof {
                                assert(sess.contains(c));
                                assert(r@ =~= r_pre + seq![(c, Issue(sid, pid))]);
                                assert(r_pre + (seq![(c, Issue(sid, pid))] + fan_out_spec(
                                    subs.skip(i as int + 1),
                                    sess,
                                    sid,
                                    pid,
                                )) =~= r@ + fan_out_spec(subs.skip(i as int + 1), sess, sid, pid));
                            }
                        }
                        None => {
                            proof {
                                assert(!sess.contains(c));
                            }
                        }
                    }
                    i += 1;
                }
                proof {
                    assert(subs.skip(subs.len() as int) =~= Seq::<Uid>::empty());
                }
                r
            }
            Err(_) => {
                r
            }
        }
    }
}

/// Law: an issue reaches exactly the clients that are both subscribed and
/// connected, and every computed issue names the given subscription and
/// publication.
pub proof fn lemma_fan_out_membership(subs: Seq<Uid>, sess: Seq<Uid>, sid: Uid, pid: Uid, c: Uid)
    ensures
        fan_out_spec(subs, sess, sid, pid).contains((c, Issue(sid, pid))) <==> (subs.contains(c)
            && sess.contains(c)),
        forall|t: (Uid, Issue)|
            #[trigger] fan_out_spec(subs, sess, sid, pid).contains(t) ==> t.1 == Issue(sid, pid)
                && subs.contains(t.0) && sess.contains(t.0),
    decreases subs.len(),
{
    if subs.len() == 0 {
        assert(!fan_out_spec(subs, sess, sid, pid).contains((c, Issue(sid, pid))));
        if subs.contains(c) {
            let j = choose|j: int| 0 <= j < subs.len() && subs[j] == c;
        }
    } else {
        lemma_fan_out_membership(subs.drop_first(), sess, sid, pid, c);
        let rest = fan_out_spec(subs.drop_first(), sess, sid, pid);
        let all = fan_out_spec(subs, sess, sid, pid);
        assert(subs.contains(c) <==> (subs[0] == c || subs.drop_first().contains(c))) by {
            if subs.contains(c) {
                let j = choose|j: int| 0 <= j < subs.len() && subs[j] == c;
                if j > 0 {
                    assert(subs.drop_first()[j - 1] == c);
                }
            } else {
                if subs.drop_first().contains(c) {
                    let j = choose|j: int|
                        0 <= j < subs.drop_first().len() && subs.drop_first()[j] == c;
                    assert(subs[j + 1] == c);
                }
            }
        }
        assert(subs.drop_first().contains(subs[0]) ==> subs.contains(subs[0]));
        if sess.contains(subs[0]) {
            let head = seq![(subs[0], Issue(sid, pid))];
            assert(all == head + rest);
            assert forall|t: (Uid, Issue)| #[trigger] all.contains(t) implies t.1 == Issue(
                sid,
                pid,
            ) && subs.contains(t.0) && sess.contains(t.0) by {
                let j = choose|j: int| 0 <= j < all.len() && all[j] == t;
                if j == 0 {
                    assert(t == (subs[0], Issue(sid, pid)));
                } else {
                    assert(rest[j - 1] == t);
                    assert(rest.contains(t));
                    assert(subs.drop_first().contains(t.0));
                }
            }
            if subs.contains(c) && sess.contains(c) {
                if c == subs[0] {
                    assert(all[0] == (c, Issue(sid, pid)));
                } else {
                    assert(rest.contains((c, Issue(sid, pid))));
                    let j = choose|j: int|
                        0 <= j < rest.len() && rest[j] == (c, Issue(sid, pid));
                    assert(all[j + 1] == (c, Issue(sid, pid)));
                }
            } else {
                if all.contains((c, Issue(sid, pid))) {
                    let j = choose|j: int|
                        0 <= j < all.len() && all[j] == (c, Issue(sid, pid));
                    if j > 0 {
                        assert(rest[j - 1] == (c, Issue(sid, pid)));
                        assert(rest.contains((c, Issue(sid, pid))));
                    }
                }
            }
        } else {
            assert(all == rest);
            assert forall|t: (Uid, Issue)| #[trigger] all.contains(t) implies t.1 == Issue(
                sid,
                pid,
            ) && subs.contains(t.0) && sess.contains(t.0) by {
                assert(rest.contains(t));
                assert(subs.drop_first().contains(t.0));
            }
            if subs.contains(c) && sess.contains(c) {
                assert(c != subs[0]);
                assert(subs.drop_first().contains(c));
            }
        }
    }
}

/// Law: no client receives the same issue twice; with no duplicate
/// subscribers, the fan-out lists each recipient at most once, so a client
/// subscribed twice (an idempotent re-subscribe) still receives exactly one
/// issue.
pub proof fn lemma_fan_out_unique(subs: Seq<Uid>, sess: Seq<Uid>, sid: Uid, pid: Uid)
    requires
        unique_seq(subs),
    ensures
        unique_seq(fan_out_spec(subs, sess, sid, pid)),
        forall|i: int, j: int|
            0 <= i < j < fan_out_spec(subs, sess, sid, pid).len() ==> (#[trigger] fan_out_spec(
                subs,
                sess,
                sid,
                pid,
            )[i]).0 != (#[trigger] fan_out_spec(subs, sess, sid, pid)[j]).0,
    decreases subs.len(),
{
    if subs.len() > 0 {
        assert forall|p: int, q: int|
            0 <= p < q < subs.drop_first().len() implies #[trigger] subs.drop_first()[p]
            != #[trigger] subs.drop_first()[q] by {
            assert(subs.drop_first()[p] == subs[p + 1]);
            assert(subs.drop_first()[q] == subs[q + 1]);
        }
        lemma_fan_out_unique(subs.drop_first(), sess, sid, pid);
        let rest = fan_out_spec(subs.drop_first(), sess, sid, pid);
        let all = fan_out_spec(subs, sess, sid, pid);
        if sess.contains(subs[0]) {
            assert(all == seq![(subs[0], Issue(sid, pid))] + rest);
            assert forall|i: int, j: int| 0 <= i < j < all.len() implies (#[trigger] all[i]).0
                != (#[trigger] all[j]).0 by {
                if i == 0 {
                    assert(all[j] == rest[j - 1]);
                    assert(rest.contains(rest[j - 1]));
                    lemma_fan_out_membership(subs.drop_first(), sess, sid, pid, subs[0]);
                    assert(subs.drop_first().contains(rest[j - 1].0));
                    let m = choose|m: int|
                        0 <= m < subs.drop_first().len() && subs.drop_first()[m] == rest[j
                            - 1].0;
                    assert(subs[m + 1] == rest[j - 1].0);
                } else {
                    assert(all[i] == rest[i - 1]);
                    assert(all[j] == rest[j - 1]);
                }
            }
            assert forall|i: int, j: int| 0 <= i < j < all.len() implies #[trigger] all[i]
                != #[trigger] all[j] by {
                assert(all[i].0 != all[j].0);
            }
        } else {
            assert(all == rest);
        }
    }
}

} // verus!
