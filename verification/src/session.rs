//! A client's session record: the subscriptions it holds, keyed by its
//! identity.

use vstd::prelude::*;
use crate::assoc::{
    lookup, keys_unique, lemma_lookup_at, lemma_lookup_absent, lemma_lookup_push,
    lemma_lookup_update_other, lemma_lookup_remove_other,
};
use crate::client::ClientID;
use crate::ids::Uid;

verus! {

/// Holds a clients session state
#[derive(Debug, Clone, PartialEq, Eq)]
pub struct Session {
    /// The client this session belongs to.
    pub client: ClientID,
    /// The ids of the subscriptions the client holds.
    pub subscriptions: Vec<Uid>,
}

impl Session {
    /// Builds the record for one entry of the session store.
    pub fn from_entry(id: &Uid, subscriptions: &Vec<Uid>) -> (r: Session)
        ensures
            r.client@ == *id,
            r.subscriptions@ == subscriptions@,
    {
        let r = Session { client: ClientID::from_uid(*id), subscriptions: subscriptions.clone() };
        proof {
            assert(r.subscriptions@ =~= subscriptions@);
        }
        r
    }
}

/// The session store: per client, the subscriptions it holds.
#[derive(Debug, Clone, PartialEq, Eq)]
pub struct Sessions {
    store: Vec<(Uid, Vec<Uid>)>,
}

impl View for Sessions {
    type V = Seq<(Uid, Vec<Uid>)>;

    closed spec fn view(&self) -> Seq<(Uid, Vec<Uid>)> {
        self.store@
    }
}

impl Sessions {
    /// Each client has at most one entry.
    pub open spec fn wf(&self) -> bool {
        keys_unique(self@)
    }

    /// Initializes a new Session store
    pub fn new() -> (r: Sessions)
        ensures
            r@ == Seq::<(Uid, Vec<Uid>)>::empty(),
            r.wf(),
    {
        let r = Sessions { store: Vec::new() };
        proof {
            assert(r@ =~= Seq::<(Uid, Vec<Uid>)>::empty());
        }
        r
    }

    /// The position of the entry for `id`, scanning from the front.
    fn position(&self, id: &Uid) -> (r: Option<usize>)
        ensures
            r matches Some(i) ==> i < self@.len() && self@[i as int].0 == *id && (forall|j: int|
                0 <= j < i ==> (#[trigger] self@[j]).0 != *id),
            r is None ==> forall|j: int| 0 <= j < self@.len() ==> (#[trigger] self@[j]).0 != *id,
    {
        let mut i: usize = 0;
        while i < self.store.len()
            invariant
                i <= self@.len(),
                forall|j: int| 0 <= j < i ==> (#[trigger] self@[j]).0 != *id,
            decreases self@.len() - i,
        {
            if self.store[i].0 == *id {
                return Some(i);
            }
            i += 1;
        }
        None
    }

    /// Retrieves the client's record, creating an empty one first when the
    /// client has none yet.
    pub fn get_or_insert(&mut self, cli: &ClientID) -> (r: Session)
        requires
            old(self).wf(),
        ensures
            final(self).wf(),
            r.client@ == cli@,
            lookup(old(self)@, cli@) matches Some(subs) ==> final(self)@ == old(self)@
                && r.subscriptions@ == subs@,
            lookup(old(self)@, cli@) is None ==> r.subscriptions@ == Seq::<Uid>::empty() && (
            lookup(final(self)@, cli@) matches Some(v) && v@ == Seq::<Uid>::empty()) && (forall|
                k: Uid,
            |
                k != cli@ ==> lookup(final(self)@, k) == lookup(old(self)@, k)),
    {
        let id = cli.id();
        match self.position(&id) {
            Some(i) => {
                proof {
                    lemma_lookup_at(self@, id, i as int);
                }
                Session::from_entry(&id, &self.store[i].1)
            }
            None => {
                proof {
                    lemma_lookup_absent(self@, id);
                }
                let empty: Vec<Uid> = Vec::new();
                let n = self.store.len();
                self.store.push((id, empty));
                proof {
                    let s0 = old(self)@;
                    let s1 = self@;
                    assert(s1 == s0.push((id, s1[n as int].1)));
                    assert(s1[n as int].1@ =~= Seq::<Uid>::empty());
                    assert forall|p: int, q: int|
                        0 <= p < q < s1.len() implies (#[trigger] s1[p]).0 != (
                    #[trigger] s1[q]).0 by {
                        if q < s0.len() {
                            assert(s0[p].0 == s1[p].0);
                            assert(s0[q].0 == s1[q].0);
                        } else {
                            assert(s1[p] == s0[p]);
                            assert(s1[q].0 == id);
                        }
                    }
                    assert forall|j: int| 0 <= j < n implies (#[trigger] s1[j]).0 != id by {
                        assert(s1[j] == s0[j]);
                    }
                    lemma_lookup_at(s1, id, n as int);
                    assert forall|k: Uid| k != cli@ implies lookup(s1, k) == lookup(s0, k) by {
                        lemma_lookup_push(s0, (id, s1[n as int].1), k);
                        lemma_lookup_absent(s0, id);
                    }
                }
                let empty2: Vec<Uid> = Vec::new();
                let r = Session::from_entry(&id, &empty2);
                proof {
                    assert(r.subscriptions@ =~= Seq::<Uid>::empty());
                }
                r
            }
        }
    }

    /// Updates the client's entry, silently replacing an existing one.
    pub fn update(&mut self, session: &Session)
        requires
            old(self).wf(),
        ensures
            final(self).wf(),
            lookup(final(self)@, session.client@) matches Some(v) && v@
                == session.subscriptions@,
            forall|k: Uid|
                k != session.client@ ==> lookup(final(self)@, k) == lookup(old(self)@, k),
    {
        let id = session.client.id();
        match self.position(&id) {
            Some(i) => {
                self.store[i] = (id, session.subscriptions.clone());
                proof {
                    let s0 = old(self)@;
                    let s1 = final(self)@;
                    assert(s1 == s0.update(i as int, (id, s1[i as int].1)));
                    assert(s1[i as int].1@ =~= session.subscriptions@);
                    assert forall|p: int, q: int|
                        0 <= p < q < s1.len() implies (#[trigger] s1[p]).0 != (
                    #[trigger] s1[q]).0 by {
                        assert(s0[p].0 == s1[p].0);
                        assert(s0[q].0 == s1[q].0);
                    }
                    assert forall|j: int| 0 <= j < i implies (#[trigger] s1[j]).0 != id by {
                        assert(s1[j] == s0[j]);
                    }
                    lemma_lookup_at(s1, id, i as int);
                    assert forall|k: Uid| k != id implies lookup(s1, k) == lookup(s0, k) by {
                        lemma_lookup_update_other(s0, i as int, (id, s1[i as int].1), k);
                    }
                }
            }
            None => {
                let n = self.store.len();
                self.store.push((id, session.subscriptions.clone()));
                proof {
                    let s0 = old(self)@;
                    let s1 = final(self)@;
                    assert(s1 == s0.push((id, s1[n as int].1)));
                    assert(s1[n as int].1@ =~= session.subscriptions@);
                    assert forall|p: int, q: int|
                        0 <= p < q < s1.len() implies (#[trigger] s1[p]).0 != (
                    #[trigger] s1[q]).0 by {
                        if q < s0.len() {
                            assert(s0[p].0 == s1[p].0);
                            assert(s0[q].0 == s1[q].0);
                        } else {
                            assert(s1[p] == s0[p]);
                            assert(s1[q].0 == id);
                        }
                    }
                    assert forall|j: int| 0 <= j < n implies (#[trigger] s1[j]).0 != id by {
                        assert(s1[j] == s0[j]);
                    }
                    lemma_lookup_at(s1, id, n as int);
                    assert forall|k: Uid| k != id implies lookup(s1, k) == lookup(s0, k) by {
                        lemma_lookup_push(s0, (id, s1[n as int].1), k);
                        lemma_lookup_absent(s0, id);
                    }
                }
            }
        }
    }

    /// Remove an entry from the Session store; removing an absent client
    /// is a no-op.
    pub fn remove(&mut self, cli: &ClientID)
        requires
            old(self).wf(),
        ensures
            final(self).wf(),
            lookup(final(self)@, cli@) is None,
            forall|k: Uid| k != cli@ ==> lookup(final(self)@, k) == lookup(old(self)@, k),
    {
        let id = cli.id();
        match self.position(&id) {
            Some(i) => {
                self.store.remove(i);
                proof {
                    let s0 = old(self)@;
                    let s1 = final(self)@;
                    assert(s1 == s0.remove(i as int));
                    assert forall|p: int, q: int|
                        0 <= p < q < s1.len() implies (#[trigger] s1[p]).0 != (
                    #[trigger] s1[q]).0 by {
                        let p0 = if p < i {
                            p
                        } else {
                            p + 1
                        };
                        let q0 = if q < i {
                            q
                        } else {
                            q + 1
                        };
                        assert(s1[p] == s0[p0]);
                        assert(s1[q] == s0[q0]);
                    }
                    assert forall|j: int| 0 <= j < s1.len() implies (#[trigger] s1[j]).0
                        != id by {
                        let j0 = if j < i {
                            j
                        } else {
                            j + 1
                        };
                        assert(s1[j] == s0[j0]);
                    }
                    lemma_lookup_absent(s1, id);
                    assert forall|k: Uid| k != id implies lookup(s1, k) == lookup(s0, k) by {
                        lemma_lookup_remove_other(s0, i as int, k);
                    }
                }
            }
            None => {
                proof {
                    lemma_lookup_absent(self@, id);
                }
            }
        }
    }
}

} // verus!
