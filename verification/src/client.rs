//! The client identity as supplied at connect time.

use vstd::prelude::*;
use crate::errors::ClientError;
use crate::ids::{Uid, parse_uid, parsed_uid};

verus! {

/// A client's stable 128-bit identifier.
#[derive(Debug, Clone, Copy, PartialEq, Eq, Hash, Structural)]
pub struct ClientID {
    uid: Uid,
}

impl View for ClientID {
    type V = Uid;

    closed spec fn view(&self) -> Uid {
        self.uid
    }
}

impl ClientID {
    /// The identifier itself.
    pub fn id(&self) -> (r: Uid)
        ensures
            r == self@,
    {
        self.uid
    }

    /// Wraps an identifier.
    pub fn from_uid(id: Uid) -> (r: ClientID)
        ensures
            r@ == id,
    {
        ClientID { uid: id }
    }

    /// Parses the textual identifier a client supplies; rejects exactly
    /// the strings that are no identifier.
    pub fn try_from_str(id: &str) -> (r: Result<ClientID, ClientError>)
        ensures
            r is Ok <==> parsed_uid(id@) is Some,
            r matches Ok(c) ==> parsed_uid(id@) == Some(c@),
            r matches Err(e) ==> e matches ClientError::InvalidInput(_),
    {
        match parse_uid(id) {
            Ok(u) => Ok(ClientID { uid: u }),
            Err(m) => Err(ClientError::InvalidInput(m)),
        }
    }
}

} // verus!
