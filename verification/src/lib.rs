//! A publish/subscribe broker core with a durable per-subscription log.
//!
//! Connected clients identify themselves with a 128-bit identifier, join or
//! leave named subscriptions, submit opaque payloads for fan-out to all
//! current subscribers, and read past payloads back from the log. This
//! library holds the verified core: the subscription registry, the session
//! registry, the log store's index and entries, the binary wire codec, and
//! the per-connection endpoint decisions. The surrounding process (socket
//! handling, timers, filesystem mirroring) drives these functions and
//! performs the I/O they decide on.

pub mod assoc;
pub mod client;
pub mod client_session;
pub mod codec;
pub mod data_log;
pub mod errors;
pub mod ids;
pub mod session;
pub mod sessions;
pub mod subscription;
pub mod subscriptions;
pub mod pubsub;
pub mod websocket;

use vstd::prelude::*;
use crate::ids::Uid;
use crate::pubsub::{Issue, Publication, PublicationView};

verus! {

/// Represents a message sent by the server to a connected client.
#[derive(Debug, Clone, PartialEq, Eq)]
pub enum ServerMessage {
    /// A fan-out notification for a newly persisted publication.
    Issue(Issue),
    /// The log index of a subscription: its id, then the recorded
    /// publication ids.
    LogIndex(Uid, Vec<Uid>),
    /// Entries read back from the log.
    LogEntry(Vec<Publication>),
}

/// The mathematical content of a `ServerMessage`.
pub ghost enum ServerMessageView {
    Issue(Issue),
    LogIndex(Uid, Seq<Uid>),
    LogEntry(Seq<PublicationView>),
}

impl View for ServerMessage {
    type V = ServerMessageView;

    open spec fn view(&self) -> ServerMessageView {
        match self {
            ServerMessage::Issue(i) => ServerMessageView::Issue(*i),
            ServerMessage::LogIndex(sub, ids) => ServerMessageView::LogIndex(*sub, ids@),
            ServerMessage::LogEntry(entries) => ServerMessageView::LogEntry(
                entries@.map_values(|p: Publication| p@),
            ),
        }
    }
}

} // verus!
