//! A named topic carrying its own metadata, subscriber list and a log of
//! published entry ids, together with the store that keeps one record per
//! topic id.

use vstd::prelude::*;
use crate::assoc::{
    lookup, keys_unique, unique_seq, remove_first, lemma_lookup_at, lemma_lookup_absent,
    lemma_lookup_push, lemma_lookup_update_other, lemma_lookup_remove_other,
    lemma_push_preserves_unique, lemma_remove_first_at, lemma_remove_first_absent,
    lemma_remove_preserves_unique,
};
use crate::errors::ClientError;
use crate::ids::{Uid, find_uid};

verus! {

///Holds Subscription specific information
#[derive(Debug, Clone, PartialEq, Eq)]
pub struct SubscriptionMeta {
    /// The name of the subscription
    pub name: String,
}

/// Represents an entry in `Subscriptions`
#[derive(Debug, PartialEq, Eq)]
pub struct Subscription {
    /// Identifier, corresponds to the id of the creating client
    pub id: Uid,
    /// Metadata represented by `SubscriptionMeta`
    pub metadata: SubscriptionMeta,
    /// List of currently subscribed clients
    pub subscribers: Vec<Uid>,
    /// Log of published messages
    pub log: Vec<Uid>,
}

impl Clone for Subscription {
    fn clone(&self) -> (r: Subscription)
        ensures
            r.id == self.id,
            r.metadata.name@ == self.metadata.name@,
            r.subscribers@ == self.subscribers@,
            r.log@ == self.log@,
    {
        let r = Subscription {
            id: self.id,
            metadata: SubscriptionMeta { name: self.metadata.name.clone() },
            subscribers: self.subscribers.clone(),
            log: self.log.clone(),
        };
        proof {
            assert(r.subscribers@ =~= self.subscribers@);
            assert(r.log@ =~= self.log@);
        }
        r
    }
}

impl Subscription {
    /// The subscriber list and the log are sets: nothing occurs twice.
    pub open spec fn wf(&self) -> bool {
        &&& unique_seq(self.subscribers@)
        &&& unique_seq(self.log@)
    }

    /// Generates metadata and creates a new `Subscription`
    pub fn new(id: &Uid, name: &str) -> (r: Subscription)
        ensures
            r.id == *id,
            r.metadata.name@ == name@,
            r.subscribers@ == Seq::<Uid>::empty(),
            r.log@ == Seq::<Uid>::empty(),
            r.wf(),
    {
        let r = Subscription {
            id: *id,
            metadata: SubscriptionMeta { name: name.to_owned() },
            subscribers: Vec::new(),
            log: Vec::new(),
        };
        proof {
            assert(r.subscribers@ =~= Seq::<Uid>::empty());
            assert(r.log@ =~= Seq::<Uid>::empty());
        }
        r
    }

    /// Appends a new subscriber; a client already present is left alone.
    pub fn append_subscriber(&mut self, subscriber: &Uid)
        requires
            old(self).wf(),
        ensures
            final(self).wf(),
            final(self).id == old(self).id,
            final(self).metadata == old(self).metadata,
            final(self).log == old(self).log,
            old(self).subscribers@.contains(*subscriber) ==> final(self).subscribers@ == old(
                self,
            ).subscribers@,
            !old(self).subscribers@.contains(*subscriber) ==> final(self).subscribers@ == old(
                self,
            ).subscribers@.push(*subscriber),
            final(self).subscribers@.contains(*subscriber),
    {
        match find_uid(&self.subscribers, subscriber) {
            Some(i) => {
                proof {
                    assert(old(self).subscribers@.contains(*subscriber));
                }
            }
            None => {
                self.subscribers.push(*subscriber);
                proof {
                    lemma_push_preserves_unique(old(self).subscribers@, *subscriber);
                    assert(final(self).subscribers@[old(self).subscribers@.len() as int]
                        == *subscriber);
                }
            }
        }
    }

    /// Removes a subscriber; removing an absent client is a no-op.
    pub fn remove_subscriber(&mut self, subscriber: &Uid)
        requires
            old(self).wf(),
        ensures
            final(self).wf(),
            final(self).id == old(self).id,
            final(self).metadata == old(self).metadata,
            final(self).log == old(self).log,
            final(self).subscribers@ == remove_first(old(self).subscribers@, *subscriber),
            !final(self).subscribers@.contains(*subscriber),
    {
        match find_uid(&self.subscribers, subscriber) {
            Some(i) => {
                self.subscribers.remove(i);
                proof {
                    lemma_remove_first_at(old(self).subscribers@, *subscriber, i as int);
                    lemma_remove_preserves_unique(old(self).subscribers@, i as int);
                }
            }
            None => {
                proof {
                    lemma_remove_first_absent(old(self).subscribers@, *subscriber);
                }
            }
        }
    }

    /// Appends a published entry's id to the log; returns whether the id
    /// was new. An id already logged is left alone.
    pub fn log_publication(&mut self, publication_id: &Uid) -> (r: bool)
        requires
            old(self).wf(),
        ensures
            final(self).wf(),
            final(self).id == old(self).id,
            final(self).metadata == old(self).metadata,
            final(self).subscribers == old(self).subscribers,
            r == !old(self).log@.contains(*publication_id),
            old(self).log@.contains(*publication_id) ==> final(self).log@ == old(self).log@,
            !old(self).log@.contains(*publication_id) ==> final(self).log@ == old(
                self,
            ).log@.push(*publication_id),
            final(self).log@.contains(*publication_id),
    {
        match find_uid(&self.log, publication_id) {
            Some(_) => false,
            None => {
                self.log.push(*publication_id);
                proof {
                    lemma_push_preserves_unique(old(self).log@, *publication_id);
                    assert(final(self).log@[old(self).log@.len() as int] == *publication_id);
                }
                true
            }
        }
    }
}

/// Holds the subscription store. One record per topic id, in insertion
/// order.
#[derive(Debug, Clone)]
pub struct Subscriptions {
    store: Vec<(Uid, Subscription)>,
}

impl View for Subscriptions {
    type V = Seq<(Uid, Subscription)>;

    closed spec fn view(&self) -> Seq<(Uid, Subscription)> {
        self.store@
    }
}

impl Subscriptions {
    /// Each id occurs once and names its record.
    pub open spec fn wf(&self) -> bool {
        &&& keys_unique(self@)
        &&& forall|i: int|
            0 <= i < self@.len() ==> (#[trigger] self@[i]).1.id == self@[i].0
                && self@[i].1.wf()
    }

    /// Initialize a new subscription store
    pub fn new() -> (r: Subscriptions)
        ensures
            r@ == Seq::<(Uid, Subscription)>::empty(),
            r.wf(),
    {
        let r = Subscriptions { store: Vec::new() };
        proof {
            assert(r@ =~= Seq::<(Uid, Subscription)>::empty());
        }
        r
    }

    /// The position of the record for `id`, scanning from the front.
    fn position(&self, id: &Uid) -> (r: Option<usize>)
        ensures
            r matches Some(i) ==> i < self@.len() && self@[i as int].0 == *id && (forall|j: int|
                0 <= j < i ==> (#[trigger] self@[j]).0 != *id),
            r is None ==> forall|j: int| 0 <= j < self@.len() ==> (#[trigger] self@[j]).0 != *id,
    {
        let mut i: usize = 0;
        while i < self.store.len()
            invariant
                i <= self@.len(),
                forall|j: int| 0 <= j < i ==> (#[trigger] self@[j]).0 != *id,
            decreases self@.len() - i,
        {
            if self.store[i].0 == *id {
                return Some(i);
            }
            i += 1;
        }
        None
    }

    /// Retrieves a list of the ids of the current subscriptions.
    pub fn index(&self) -> (r: Vec<Uid>)
        ensures
            r@.len() == self@.len(),
            forall|i: int| 0 <= i < r@.len() ==> r@[i] == (#[trigger] self@[i]).0,
    {
        let mut r: Vec<Uid> = Vec::new();
        let mut i: usize = 0;
        while i < self.store.len()
            invariant
                i <= self@.len(),
                r@.len() == i,
                forall|j: int| 0 <= j < i ==> r@[j] == (#[trigger] self@[j]).0,
            decreases self@.len() - i,
        {
            r.push(self.store[i].0);
            i += 1;
        }
        r
    }

    /// Updates the subscription store with new entries, silently replacing
    /// existing ones
    pub fn update(&mut self, sub: &Subscription)
        requires
            old(self).wf(),
            sub.wf(),
        ensures
            final(self).wf(),
            lookup(final(self)@, sub.id) matches Some(v) && v.id == sub.id && v.metadata.name@
                == sub.metadata.name@ && v.subscribers@ == sub.subscribers@ && v.log@
                == sub.log@,
            forall|k: Uid| k != sub.id ==> lookup(final(self)@, k) == lookup(old(self)@, k),
    {
        match self.position(&sub.id) {
            Some(i) => {
                self.store[i] = (sub.id, sub.clone());
                proof {
                    let s0 = old(self)@;
                    let s1 = final(self)@;
                    assert(s1 == s0.update(i as int, (sub.id, s1[i as int].1)));
                    assert forall|p: int, q: int|
                        0 <= p < q < s1.len() implies (#[trigger] s1[p]).0 != (
                    #[trigger] s1[q]).0 by {
                        assert(s0[p].0 == s1[p].0);
                        assert(s0[q].0 == s1[q].0);
                    }
                    assert forall|j: int| 0 <= j < i implies (#[trigger] s1[j]).0 != sub.id by {
                        assert(s1[j] == s0[j]);
                    }
                    lemma_lookup_at(s1, sub.id, i as int);
                    assert forall|k: Uid| k != sub.id implies lookup(s1, k) == lookup(s0, k) by {
                        lemma_lookup_update_other(s0, i as int, (sub.id, s1[i as int].1), k);
                    }
                }
            }
            None => {
                let i = self.store.len();
                self.store.push((sub.id, sub.clone()));
                proof {
                    let s0 = old(self)@;
                    let s1 = final(self)@;
                    assert(s1 == s0.push((sub.id, s1[i as int].1)));
                    assert forall|p: int, q: int|
                        0 <= p < q < s1.len() implies (#[trigger] s1[p]).0 != (
                    #[trigger] s1[q]).0 by {
                        if q < s0.len() {
                            assert(s0[p].0 == s1[p].0);
                            assert(s0[q].0 == s1[q].0);
                        } else {
                            assert(s1[p] == s0[p]);
                            assert(s1[q].0 == sub.id);
                        }
                    }
                    assert forall|j: int| 0 <= j < i implies (#[trigger] s1[j]).0 != sub.id by {
                        assert(s1[j] == s0[j]);
                    }
                    lemma_lookup_at(s1, sub.id, i as int);
                    assert forall|k: Uid| k != sub.id implies lookup(s1, k) == lookup(s0, k) by {
                        lemma_lookup_push(s0, (sub.id, s1[i as int].1), k);
                        lemma_lookup_absent(s0, sub.id);
                    }
                }
            }
        }
    }

    /// Attempts to retrieve a subscription from the store; a copy of the
    /// stored record is returned.
    pub fn fetch(&self, id: &Uid) -> (r: Result<Subscription, ClientError>)
        requires
            self.wf(),
        ensures
            r is Ok <==> lookup(self@, *id) is Some,
            r matches Ok(s) ==> lookup(self@, *id) matches Some(v) && s.id == *id
                && s.metadata.name@ == v.metadata.name@ && s.subscribers@ == v.subscribers@
                && s.log@ == v.log@ && s.wf(),
            r matches Err(e) ==> e matches ClientError::InvalidInput(m) && m@
                == "No such entry"@,
    {
        match self.position(id) {
            Some(i) => {
                proof {
                    lemma_lookup_at(self@, *id, i as int);
                }
                Ok(self.store[i].1.clone())
            }
            None => {
                proof {
                    lemma_lookup_absent(self@, *id);
                }
                Err(ClientError::InvalidInput("No such entry".to_owned()))
            }
        }
    }

    /// Removes a subscription from the subscription store; removing an
    /// absent id is a no-op.
    pub fn remove(&mut self, id: &Uid)
        requires
            old(self).wf(),
        ensures
            final(self).wf(),
            lookup(final(self)@, *id) is None,
            forall|k: Uid| k != *id ==> lookup(final(self)@, k) == lookup(old(self)@, k),
    {
        match self.position(id) {
            Some(i) => {
                self.store.remove(i);
                proof {
                    let s0 = old(self)@;
                    let s1 = final(self)@;
                    assert(s1 == s0.remove(i as int));
                    assert forall|p: int, q: int|
                        0 <= p < q < s1.len() implies (#[trigger] s1[p]).0 != (
                    #[trigger] s1[q]).0 by {
                        let p0 = if p < i {
                            p
                        } else {
                            p + 1
                        };
                        let q0 = if q < i {
                            q
                        } else {
                            q + 1
                        };
                        assert(s1[p] == s0[p0]);
                        assert(s1[q] == s0[q0]);
                    }
                    assert forall|j: int| 0 <= j < s1.len() implies (#[trigger] s1[j]).0
                        != *id by {
                        let j0 = if j < i {
                            j
                        } else {
                            j + 1
                        };
                        assert(s1[j] == s0[j0]);
                    }
                    lemma_lookup_absent(s1, *id);
                    assert forall|k: Uid| k != *id implies lookup(s1, k) == lookup(s0, k) by {
                        lemma_lookup_remove_other(s0, i as int, k);
                    }
                }
            }
            None => {
                proof {
                    lemma_lookup_absent(self@, *id);
                }
            }
        }
    }
}

} // verus!
