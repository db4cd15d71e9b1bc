//! The session registry: which clients currently have a live endpoint.
//! The endpoint's channel handle itself lives in the unverified shell,
//! keyed by the same client id; this registry answers whether a client is
//! reachable and reports the absent ones.

use vstd::prelude::*;
use vstd::string::StringExecFns;
use crate::assoc::{unique_seq, remove_first, lemma_push_preserves_unique, lemma_remove_first_at,
    lemma_remove_first_absent, lemma_remove_preserves_unique};
use crate::ids::{Uid, uid_text, uid_to_string, find_uid};

verus! {

/// Represents errors caused during interaction with SessionService
#[derive(Debug, Clone, PartialEq, Eq)]
pub enum SessionError {
    SessionNotFound(String),
}

impl SessionError {
    /// The textual form reported to callers.
    pub fn message(&self) -> (r: String)
        ensures
            r@ == "Invalid Input: "@ + self->SessionNotFound_0@,
    {
        match self {
            SessionError::SessionNotFound(s) => {
                let mut m: String = "Invalid Input: ".to_owned();
                m.append(s.as_str());
                m
            }
        }
    }
}

/// A message to record a client's live endpoint.
#[derive(Debug, Clone, Copy, PartialEq, Eq, Structural)]
pub struct InsertSession {
    pub id: Uid,
}

impl InsertSession {
    pub fn new(id: &Uid) -> (r: InsertSession)
        ensures
            r.id == *id,
    {
        InsertSession { id: *id }
    }
}

/// A message to drop a client's endpoint.
#[derive(Debug, Clone, Copy, PartialEq, Eq, Structural)]
pub struct RemoveSession {
    pub id: Uid,
}

/// A message asking for a client's endpoint.
#[derive(Debug, Clone, Copy, PartialEq, Eq, Structural)]
pub struct GetSessionAddr {
    pub id: Uid,
}

///Stores currently active sessions
#[derive(Debug, Clone, PartialEq, Eq)]
pub struct SessionService {
    sessions: Vec<Uid>,
}

impl View for SessionService {
    type V = Seq<Uid>;

    closed spec fn view(&self) -> Seq<Uid> {
        self.sessions@
    }
}

impl SessionService {
    /// No client is recorded twice.
    pub open spec fn wf(&self) -> bool {
        unique_seq(self@)
    }

    /// Creates an empty registry.
    pub fn new() -> (r: SessionService)
        ensures
            r@ == Seq::<Uid>::empty(),
            r.wf(),
    {
        let r = SessionService { sessions: Vec::new() };
        proof {
            assert(r@ =~= Seq::<Uid>::empty());
        }
        r
    }

    /// Records a client's endpoint; recording it twice is idempotent.
    pub fn insert_session(&mut self, client_id: &Uid)
        requires
            old(self).wf(),
        ensures
            final(self).wf(),
            old(self)@.contains(*client_id) ==> final(self)@ == old(self)@,
            !old(self)@.contains(*client_id) ==> final(self)@ == old(self)@.push(*client_id),
            final(self)@.contains(*client_id),
    {
        match find_uid(&self.sessions, client_id) {
            Some(_) => { }
            None => {
                self.sessions.push(*client_id);
                proof {
                    lemma_push_preserves_unique(old(self)@, *client_id);
                    assert(final(self)@[old(self)@.len() as int] == *client_id);
                }
            }
        }
    }

    /// Drops a client's endpoint; dropping an absent client is a no-op.
    pub fn remove_session(&mut self, client_id: &Uid)
        requires
            old(self).wf(),
        ensures
            final(self).wf(),
            final(self)@ == remove_first(old(self)@, *client_id),
            !final(self)@.contains(*client_id),
    {
        match find_uid(&self.sessions, client_id) {
            Some(i) => {
                self.sessions.remove(i);
                proof {
                    lemma_remove_first_at(old(self)@, *client_id, i as int);
                    lemma_remove_preserves_unique(old(self)@, i as int);
                }
            }
            None => {
                proof {
                    lemma_remove_first_absent(old(self)@, *client_id);
                }
            }
        }
    }

    /// Reports whether the client has a live endpoint; the shell resolves
    /// the channel handle under the same id. Fails, naming the client,
    /// exactly when the client has none.
    pub fn get_session_addr(&self, client_id: &Uid) -> (r: Result<Uid, SessionError>)
        ensures
            r is Ok <==> self@.contains(*client_id),
            r matches Ok(u) ==> u == *client_id,
            r matches Err(e) ==> e matches SessionError::SessionNotFound(m) && m@ == uid_text(
                *client_id,
            ),
    {
        match find_uid(&self.sessions, client_id) {
            Some(_) => Ok(*client_id),
            None => Err(SessionError::SessionNotFound(uid_to_string(client_id))),
        }
    }
}

} // verus!
