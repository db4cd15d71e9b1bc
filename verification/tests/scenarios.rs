use infotainer::data_log::{list_entry_ids, DataLogError, DataLogger};
use infotainer::ids::Uid;
use infotainer::pubsub::{
    Issue, ManageSession, ManageSubscription, PubSubService, PublicationError, SubmitCommand,
};
use infotainer::sessions::SessionService;
use infotainer::websocket::{BeatAction, WebSocketSession, CLIENT_TIMEOUT_MS};

fn uid(tag: u64) -> Uid {
    Uid::new(tag, tag)
}

#[test]
fn subscribe_submit_fan_out() {
    let client_a = Uid::new(0xaaaa, 0x0001);
    let client_b = Uid::new(0xbbbb, 0x0002);
    let sub_s = Uid::new(0x5555, 0x0010);
    let payload = vec![0x48, 0x65, 0x6c, 0x6c, 0x6f];

    let mut broker = PubSubService::new();
    let mut store = DataLogger::new();
    broker.handle_session(ManageSession::Add { client_id: client_a }).unwrap();
    broker.handle_session(ManageSession::Add { client_id: client_b }).unwrap();
    broker
        .handle_subscription(ManageSubscription::Add {
            client_id: client_a,
            subscription_id: sub_s,
        })
        .unwrap();
    broker
        .handle_subscription(ManageSubscription::Add {
            client_id: client_b,
            subscription_id: sub_s,
        })
        .unwrap();

    let cmd = SubmitCommand::new(&client_a, &sub_s, &payload);
    let publication = broker.prepare_submit(&cmd).unwrap();
    store.put(&publication);
    let issues = broker.fan_out(&publication);

    // exactly one issue arrives at both A and B, carrying the same ids
    assert_eq!(issues.len(), 2);
    let expected = Issue(sub_s, publication.publication_id);
    assert!(issues.contains(&(client_a, expected)));
    assert!(issues.contains(&(client_b, expected)));

    // either client can fetch the referenced publication afterwards
    let entries = store
        .pull_entries(&sub_s, &vec![publication.publication_id])
        .unwrap();
    assert_eq!(entries.len(), 1);
    assert_eq!(entries[0].data, payload);
    assert_eq!(entries[0].subscription_id, sub_s);
}

#[test]
fn durable_read_back() {
    let client_c = uid(0xc);
    let sub_t = uid(0x7);
    let payload = vec![0x01, 0x02, 0x03];

    let mut broker = PubSubService::new();
    let mut store = DataLogger::new();
    broker.handle_session(ManageSession::Add { client_id: client_c }).unwrap();
    broker
        .handle_subscription(ManageSubscription::Add {
            client_id: client_c,
            subscription_id: sub_t,
        })
        .unwrap();

    let mut produced = Vec::new();
    for _ in 0..3 {
        let cmd = SubmitCommand::new(&client_c, &sub_t, &payload);
        let publication = broker.prepare_submit(&cmd).unwrap();
        store.put(&publication);
        broker.fan_out(&publication);
        produced.push(publication.publication_id);
    }

    let index = store.pull_index(&sub_t);
    assert_eq!(index.len(), produced.len());
    for p in &produced {
        assert!(index.contains(p));
    }

    let entries = store.pull_entries(&sub_t, &vec![produced[1]]).unwrap();
    assert_eq!(entries.len(), 1);
    assert_eq!(entries[0].data, payload);
}

#[test]
fn empty_subscription() {
    let client_d = uid(0xd);
    let sub_u = uid(0x11);

    let mut broker = PubSubService::new();
    let store = DataLogger::new();
    broker
        .handle_subscription(ManageSubscription::Add {
            client_id: client_d,
            subscription_id: sub_u,
        })
        .unwrap();
    broker
        .handle_subscription(ManageSubscription::Remove {
            client_id: client_d,
            subscription_id: sub_u,
        })
        .unwrap();

    // the registry holds no entry for U: a second unsubscribe reports it
    let err = broker
        .handle_subscription(ManageSubscription::Remove {
            client_id: client_d,
            subscription_id: sub_u,
        })
        .unwrap_err();
    assert!(matches!(err, PublicationError::Subscriptions(_)));

    // the log index of U is empty
    assert!(store.pull_index(&sub_u).is_empty());

    // a subsequent submit to U fails with a publishing error
    let cmd = SubmitCommand::new(&client_d, &sub_u, &vec![9u8]);
    let err = broker.prepare_submit(&cmd).unwrap_err();
    assert!(matches!(err, PublicationError::Publishing(_)));
}

#[test]
fn unsubscribe_keeps_durable_logs() {
    let client = uid(0xe);
    let sub = uid(0x12);
    let payload = vec![0x2a];

    let mut broker = PubSubService::new();
    let mut store = DataLogger::new();
    broker.handle_session(ManageSession::Add { client_id: client }).unwrap();
    broker
        .handle_subscription(ManageSubscription::Add { client_id: client, subscription_id: sub })
        .unwrap();
    let cmd = SubmitCommand::new(&client, &sub, &payload);
    let publication = broker.prepare_submit(&cmd).unwrap();
    store.put(&publication);
    broker.fan_out(&publication);

    // unsubscribing empties the subscription and deletes its record ...
    broker
        .handle_subscription(ManageSubscription::Remove {
            client_id: client,
            subscription_id: sub,
        })
        .unwrap();

    // ... but the historical publication set is still served
    let index = store.pull_index(&sub);
    assert_eq!(index, vec![publication.publication_id]);
}

#[test]
fn heartbeat_timeout() {
    let client_g = uid(0xf);
    let mut registry = SessionService::new();
    registry.insert_session(&client_g);
    assert!(registry.get_session_addr(&client_g).is_ok());

    let endpoint = WebSocketSession::new(&client_g, 1000);
    // still alive exactly at the timeout ...
    assert_eq!(endpoint.beat(1000 + CLIENT_TIMEOUT_MS), BeatAction::Ping);
    // ... and stopped on the first tick after more than 10 s of silence
    assert_eq!(endpoint.beat(1000 + CLIENT_TIMEOUT_MS + 1), BeatAction::Stop);

    // the stopping endpoint unregisters; a subsequent lookup is absent
    registry.remove_session(&client_g);
    let err = registry.get_session_addr(&client_g).unwrap_err();
    assert!(matches!(err, infotainer::sessions::SessionError::SessionNotFound(_)));
}

#[test]
fn persist_before_issue() {
    let client = uid(0x20);
    let sub = uid(0x21);

    let mut broker = PubSubService::new();
    let store = DataLogger::new();
    broker.handle_session(ManageSession::Add { client_id: client }).unwrap();
    broker
        .handle_subscription(ManageSubscription::Add { client_id: client, subscription_id: sub })
        .unwrap();

    let cmd = SubmitCommand::new(&client, &sub, &vec![0x55]);
    let publication = broker.prepare_submit(&cmd).unwrap();

    // inject a filesystem failure: the shell reports a log error and never
    // records the entry or fans the issue out
    let submit_result: Result<(), PublicationError> = Err(PublicationError::DataLoggingError(
        String::from("injected write failure"),
    ));
    assert!(submit_result.is_err());

    // no subscriber can observe the would-be publication id
    assert!(store.pull_index(&sub).is_empty());
    assert!(store
        .pull_entries(&sub, &vec![publication.publication_id])
        .is_err());
}

#[test]
fn missing_entry_read_names_the_id() {
    let store = DataLogger::new();
    let wanted = Uid::new(0x0011223344556677, 0x8899aabbccddeeff);
    let err = store.pull_entries(&uid(1), &vec![wanted]).unwrap_err();
    match err {
        DataLogError::ReadError(p) => assert_eq!(p, wanted),
        other => panic!("expected a read error, got {:?}", other),
    }
    assert_eq!(
        err.message(),
        "Could not read data: 00112233-4455-6677-8899-aabbccddeeff"
    );
}

#[test]
fn directory_listing_yields_only_identifiers() {
    let names = vec![
        String::from("00112233-4455-6677-8899-aabbccddeeff"),
        String::from("metadata.cbor"),
        uuid::Uuid::from_u128(5).to_string(),
    ];
    let ids = list_entry_ids(&names);
    assert_eq!(
        ids,
        vec![Uid::new(0x0011223344556677, 0x8899aabbccddeeff), Uid::new(0, 5)]
    );
}
