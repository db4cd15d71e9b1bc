//! The per-connection session endpoint: the commands a client can send,
//! the keep-alive clock, and the decision taken for every inbound frame.
//! The socket itself, the timer, and the delivery of the decided actions
//! live in the unverified shell around the library.

use vstd::prelude::*;
use vstd::string::StringExecFns;
use crate::codec::{decode_client_command, enc_client_command, client_command_wf};
use crate::ids::Uid;
use crate::pubsub::{ManageSession, ManageSubscription, SubmitCommand, SubmitCommandView};

verus! {

/// Represents errors caused during client interaction
#[derive(Debug, Clone, PartialEq, Eq)]
pub enum ClientError {
    InvalidInput(String),
}

impl ClientError {
    /// The textual form reported to clients.
    pub fn message(&self) -> (r: String)
        ensures
            r@ == "Invalid Input: "@ + self->InvalidInput_0@,
    {
        match self {
            ClientError::InvalidInput(s) => {
                let mut m: String = "Invalid Input: ".to_owned();
                m.append(s.as_str());
                m
            }
        }
    }
}

/// Represents a message from a client sent to the websocket.
#[derive(Debug, Clone, PartialEq, Eq)]
pub enum ClientCommand {
    /// Retrieve a Subscriptions log index
    GetLogIndex { log_id: Uid },
    /// Fetch one or more entries from the datalog
    GetLogEntries { log_id: Uid, entries: Vec<Uid> },
    /// Add client to a Subscription, creating it it if doesn't exist
    Subscribe { subscription_id: Uid },
    /// Remove client from a Subscription, deleting it, if client was last
    /// subscriber
    Unsubscribe { subscription_id: Uid },
    /// Submit new data for publication
    SubmitPublication { subscription_id: Uid, submission: Vec<u8> },
}

/// The mathematical content of a `ClientCommand`.
pub ghost enum ClientCommandView {
    GetLogIndex { log_id: Uid },
    GetLogEntries { log_id: Uid, entries: Seq<Uid> },
    Subscribe { subscription_id: Uid },
    Unsubscribe { subscription_id: Uid },
    SubmitPublication { subscription_id: Uid, submission: Seq<u8> },
}

impl View for ClientCommand {
    type V = ClientCommandView;

    open spec fn view(&self) -> ClientCommandView {
        match self {
            ClientCommand::GetLogIndex { log_id } => ClientCommandView::GetLogIndex {
                log_id: *log_id,
            },
            ClientCommand::GetLogEntries { log_id, entries } => ClientCommandView::GetLogEntries {
                log_id: *log_id,
                entries: entries@,
            },
            ClientCommand::Subscribe { subscription_id } => ClientCommandView::Subscribe {
                subscription_id: *subscription_id,
            },
            ClientCommand::Unsubscribe { subscription_id } => ClientCommandView::Unsubscribe {
                subscription_id: *subscription_id,
            },
            ClientCommand::SubmitPublication {
                subscription_id,
                submission,
            } => ClientCommandView::SubmitPublication {
                subscription_id: *subscription_id,
                submission: submission@,
            },
        }
    }
}

/// Milliseconds between two heartbeat pings.
pub const HEARTBEAT_INTERVAL_MS: u64 = 5000;

/// Milliseconds of client silence after which the connection is closed.
pub const CLIENT_TIMEOUT_MS: u64 = 10000;

/// An inbound frame, reduced to what the endpoint decides on.
#[derive(Debug, Clone, PartialEq, Eq)]
pub enum WsFrame {
    Text(String),
    Binary(Vec<u8>),
    Ping(Vec<u8>),
    Pong(Vec<u8>),
    Close,
    Other,
}

/// What the endpoint decides to do with an inbound frame. The shell
/// performs the sends and, on the stopping decisions, closes the channel
/// and unregisters the session.
#[derive(Debug, Clone, PartialEq, Eq)]
pub enum WsAction {
    /// Reply with a text frame.
    ReplyText(String),
    /// Forward the decoded command on behalf of this session's client.
    Dispatch(ClientCommand),
    /// Reply with a binary frame holding the textual form of the error.
    ReplyError(String),
    /// Reply with a pong carrying the same payload.
    Pong(Vec<u8>),
    /// Record liveness only.
    Idle,
    /// Close the channel with the peer's reason, then stop.
    CloseStop,
    /// Stop the endpoint.
    Stop,
}

/// What the heartbeat tick decides.
#[derive(Debug, Clone, Copy, PartialEq, Eq, Structural)]
pub enum BeatAction {
    /// Send a ping and keep going.
    Ping,
    /// The client has been silent too long: close and stop.
    Stop,
}

/// Which store a routed command is for.
#[derive(Debug, Clone, PartialEq, Eq)]
pub enum EndpointRequest {
    /// Ask the log store for a subscription's index; the reply returns to
    /// this endpoint.
    PullIndex { log_id: Uid },
    /// Ask the log store for entries; the reply returns to this endpoint.
    PullEntries { log_id: Uid, entries: Vec<Uid> },
    /// Ask the broker to add or remove this client on a subscription.
    Manage(ManageSubscription),
    /// Ask the broker to accept a submission.
    Submit(SubmitCommand),
}

/// The per-connection endpoint state: the client's identity and the time
/// of the last inbound frame.
#[derive(Debug, Clone)]
pub struct WebSocketSession {
    /// The client this channel belongs to.
    pub id: Uid,
    /// When the client was last heard from, in shell-supplied
    /// milliseconds.
    pub hb: u64,
}

impl WebSocketSession {
    /// Creates the endpoint state at connect time.
    pub fn new(client_id: &Uid, now: u64) -> (r: WebSocketSession)
        ensures
            r.id == *client_id,
            r.hb == now,
    {
        WebSocketSession { id: *client_id, hb: now }
    }

    /// The registration sent to the broker when the endpoint starts.
    pub fn started_message(&self) -> (r: ManageSession)
        ensures
            r == (ManageSession::Add { client_id: self.id }),
    {
        ManageSession::Add { client_id: self.id }
    }

    /// The unregistration sent to the broker when the endpoint stops.
    pub fn stopping_message(&self) -> (r: ManageSession)
        ensures
            r == (ManageSession::Remove { client_id: self.id }),
    {
        ManageSession::Remove { client_id: self.id }
    }

    /// The heartbeat tick: stop exactly when the client has been silent
    /// longer than the timeout, otherwise ping.
    pub fn beat(&self, now: u64) -> (r: BeatAction)
        requires
            now >= self.hb,
        ensures
            r == BeatAction::Stop <==> now - self.hb > CLIENT_TIMEOUT_MS,
            r == BeatAction::Ping <==> now - self.hb <= CLIENT_TIMEOUT_MS,
    {
        if now - self.hb > CLIENT_TIMEOUT_MS {
            BeatAction::Stop
        } else {
            BeatAction::Ping
        }
    }

    /// The decision for one inbound frame. Every frame from the client
    /// counts as liveness except a close or an unknown frame, which stop
    /// the endpoint. A binary frame is decoded as a command and forwarded;
    /// one that decodes as no command is answered with an error frame and
    /// the connection stays open.
    pub fn handle_frame(&mut self, frame: WsFrame, now: u64) -> (r: WsAction)
        ensures
            final(self).id == old(self).id,
            match frame {
                WsFrame::Text(_) => final(self).hb == now,
                WsFrame::Binary(_) => final(self).hb == now,
                WsFrame::Ping(_) => final(self).hb == now,
                WsFrame::Pong(_) => final(self).hb == now,
                WsFrame::Close => final(self).hb == old(self).hb,
                WsFrame::Other => final(self).hb == old(self).hb,
            },
            frame matches WsFrame::Text(_) ==> (r matches WsAction::ReplyText(t) && t@
                == "Text messages not implemented"@),
            frame matches WsFrame::Binary(b) ==> {
                &&& (exists|v: ClientCommandView|
                    client_command_wf(v) && b@ == enc_client_command(v)) ==> (r matches
                    WsAction::Dispatch(c) && b@ == enc_client_command(c@))
                &&& !(exists|v: ClientCommandView|
                    client_command_wf(v) && b@ == enc_client_command(v)) ==> (r matches
                    WsAction::ReplyError(m) && m@ == "Invalid Input: "@
                    + "unable to decode command"@)
            },
            frame matches WsFrame::Ping(p) ==> (r matches WsAction::Pong(q) && q@ == p@),
            frame matches WsFrame::Pong(_) ==> r == WsAction::Idle,
            frame matches WsFrame::Close ==> r == WsAction::CloseStop,
            frame matches WsFrame::Other ==> r == WsAction::Stop,
    {
        match frame {
            WsFrame::Text(_) => {
                self.hb = now;
                WsAction::ReplyText("Text messages not implemented".to_owned())
            }
            WsFrame::Binary(b) => {
                self.hb = now;
                match decode_client_command(&b) {
                    Some(cmd) => WsAction::Dispatch(cmd),
                    None => {
                        let e = ClientError::InvalidInput(
                            "unable to decode command".to_owned(),
                        );
                        WsAction::ReplyError(e.message())
                    }
                }
            }
            WsFrame::Ping(p) => {
                self.hb = now;
                WsAction::Pong(p)
            }
            WsFrame::Pong(_) => {
                self.hb = now;
                WsAction::Idle
            }
            WsFrame::Close => WsAction::CloseStop,
            WsFrame::Other => WsAction::Stop,
        }
    }

    /// Translates a decoded command into the message sent onward, stamped
    /// with this session's client id where the target needs it.
    pub fn route_command(&self, cmd: ClientCommand) -> (r: EndpointRequest)
        ensures
            cmd@ matches ClientCommandView::GetLogIndex { log_id } ==> r matches
                EndpointRequest::PullIndex { log_id: l } && l == log_id,
            cmd@ matches ClientCommandView::GetLogEntries { log_id, entries } ==> (r matches
                EndpointRequest::PullEntries { log_id: l, entries: e } && l == log_id && e@
                == entries),
            cmd@ matches ClientCommandView::Subscribe { subscription_id } ==> r matches
                EndpointRequest::Manage(m) && m == (ManageSubscription::Add {
                client_id: self.id,
                subscription_id,
            }),
            cmd@ matches ClientCommandView::Unsubscribe { subscription_id } ==> r matches
                EndpointRequest::Manage(m) && m == (ManageSubscription::Remove {
                client_id: self.id,
                subscription_id,
            }),
            cmd@ matches ClientCommandView::SubmitPublication { subscription_id, submission }
                ==> (r matches EndpointRequest::Submit(sc) && sc@ == (SubmitCommandView {
                client_id: self.id,
                subscription_id,
                submission,
            })),
    {
        match cmd {
            ClientCommand::GetLogIndex { log_id } => EndpointRequest::PullIndex { log_id },
            ClientCommand::GetLogEntries { log_id, entries } => EndpointRequest::PullEntries {
                log_id,
                entries,
            },
            ClientCommand::Subscribe { subscription_id } => EndpointRequest::Manage(
                ManageSubscription::Add { client_id: self.id, subscription_id },
            ),
            ClientCommand::Unsubscribe { subscription_id } => EndpointRequest::Manage(
                ManageSubscription::Remove { client_id: self.id, subscription_id },
            ),
            ClientCommand::SubmitPublication { subscription_id, submission } => {
                EndpointRequest::Submit(SubmitCommand::new(&self.id, &subscription_id, &submission))
            }
        }
    }
}

} // verus!
