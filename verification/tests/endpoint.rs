use infotainer::codec::encode_client_command;
use infotainer::ids::Uid;
use infotainer::pubsub::{ManageSession, ManageSubscription};
use infotainer::websocket::{
    ClientCommand, EndpointRequest, WebSocketSession, WsAction, WsFrame,
};

fn uid(tag: u64) -> Uid {
    Uid::new(tag, tag)
}

#[test]
fn lifecycle_messages_carry_the_client() {
    let endpoint = WebSocketSession::new(&uid(1), 0);
    assert_eq!(endpoint.started_message(), ManageSession::Add { client_id: uid(1) });
    assert_eq!(endpoint.stopping_message(), ManageSession::Remove { client_id: uid(1) });
}

#[test]
fn frames_update_liveness() {
    let mut endpoint = WebSocketSession::new(&uid(2), 0);
    endpoint.handle_frame(WsFrame::Pong(vec![]), 42);
    assert_eq!(endpoint.hb, 42);
    endpoint.handle_frame(WsFrame::Close, 99);
    assert_eq!(endpoint.hb, 42);
}

#[test]
fn text_frames_are_answered_but_not_understood() {
    let mut endpoint = WebSocketSession::new(&uid(3), 0);
    let action = endpoint.handle_frame(WsFrame::Text(String::from("hello")), 1);
    assert_eq!(
        action,
        WsAction::ReplyText(String::from("Text messages not implemented"))
    );
}

#[test]
fn ping_is_answered_with_same_payload() {
    let mut endpoint = WebSocketSession::new(&uid(4), 0);
    let action = endpoint.handle_frame(WsFrame::Ping(vec![7, 8]), 1);
    assert_eq!(action, WsAction::Pong(vec![7, 8]));
}

#[test]
fn well_formed_binary_frames_dispatch() {
    let mut endpoint = WebSocketSession::new(&uid(5), 0);
    let cmd = ClientCommand::Subscribe { subscription_id: uid(6) };
    let frame = encode_client_command(&cmd);
    let action = endpoint.handle_frame(WsFrame::Binary(frame), 1);
    assert_eq!(action, WsAction::Dispatch(cmd));
}

#[test]
fn malformed_binary_frames_are_reported() {
    let mut endpoint = WebSocketSession::new(&uid(7), 0);
    let action = endpoint.handle_frame(WsFrame::Binary(vec![0xff, 0x00]), 1);
    assert_eq!(
        action,
        WsAction::ReplyError(String::from("Invalid Input: unable to decode command"))
    );
}

#[test]
fn close_and_unknown_frames_stop() {
    let mut endpoint = WebSocketSession::new(&uid(8), 0);
    assert_eq!(endpoint.handle_frame(WsFrame::Close, 1), WsAction::CloseStop);
    assert_eq!(endpoint.handle_frame(WsFrame::Other, 2), WsAction::Stop);
}

#[test]
fn routing_stamps_the_client_id() {
    let endpoint = WebSocketSession::new(&uid(9), 0);
    let routed = endpoint.route_command(ClientCommand::Subscribe { subscription_id: uid(10) });
    assert_eq!(
        routed,
        EndpointRequest::Manage(ManageSubscription::Add {
            client_id: uid(9),
            subscription_id: uid(10),
        })
    );
    let routed = endpoint.route_command(ClientCommand::Unsubscribe { subscription_id: uid(10) });
    assert_eq!(
        routed,
        EndpointRequest::Manage(ManageSubscription::Remove {
            client_id: uid(9),
            subscription_id: uid(10),
        })
    );
    let routed = endpoint.route_command(ClientCommand::GetLogIndex { log_id: uid(11) });
    assert_eq!(routed, EndpointRequest::PullIndex { log_id: uid(11) });
    let routed = endpoint.route_command(ClientCommand::GetLogEntries {
        log_id: uid(11),
        entries: vec![uid(12)],
    });
    assert_eq!(
        routed,
        EndpointRequest::PullEntries { log_id: uid(11), entries: vec![uid(12)] }
    );
}
