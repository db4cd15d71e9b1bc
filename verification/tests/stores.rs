use infotainer::client::ClientID;
use infotainer::client_session::{ClientSession, ClientSessions};
use infotainer::ids::Uid;
use infotainer::session::{Session, Sessions};
use infotainer::subscription::{Publication, Subscription, SubscriptionMeta, Subscriptions};
use infotainer::subscriptions::{
    Subscription as UidSubscription, SubscriptionMeta as UidSubscriptionMeta,
    Subscriptions as UidSubscriptions,
};

fn fresh() -> Uid {
    let v = uuid::Uuid::new_v4().as_u128();
    Uid::new((v >> 64) as u64, v as u64)
}

#[test]
fn session_test_session() {
    let dummy = Session {
        client: ClientID::from_uid(fresh()),
        subscriptions: vec![fresh(), fresh()],
    };
    let session = Session::from_entry(&dummy.client.id(), &dummy.subscriptions);
    assert_eq!(session, dummy);
}

#[test]
fn session_test_sessions() {
    let subscription = fresh();
    let mut sessions = Sessions::new();
    let mut session = sessions.get_or_insert(&ClientID::from_uid(fresh()));
    let session_entry = Session { client: session.client, subscriptions: vec![] };
    assert_eq!(session, session_entry);
    session.subscriptions.push(subscription);
    sessions.update(&session);
    let updated_entry = sessions.get_or_insert(&session.client);
    assert_eq!(session, updated_entry);
    sessions.remove(&session.client);
    assert_eq!(sessions, Sessions::new());
}

#[test]
fn client_session_test_session() {
    let dummy = ClientSession {
        client: ClientID::from_uid(fresh()),
        subscriptions: vec![fresh(), fresh()],
    };
    let session = ClientSession::from_entry(&dummy.client.id(), &dummy.subscriptions);
    assert_eq!(session, dummy);
}

#[test]
fn client_session_test_sessions() {
    let subscription = fresh();
    let mut sessions = ClientSessions::new();
    let mut session = sessions.get_or_insert(&ClientID::from_uid(fresh()));
    let session_entry = ClientSession { client: session.client, subscriptions: vec![] };
    assert_eq!(session, session_entry);
    session.subscriptions.push(subscription);
    sessions.update(&session);
    let updated_entry = sessions.get_or_insert(&session.client);
    assert_eq!(session, updated_entry);
    sessions.remove(&session.client);
    assert_eq!(sessions, ClientSessions::new());
}

#[test]
fn subscription_test_subscription() {
    let dummy_client = ClientID::from_uid(fresh());
    let mut dummy_subscription = Subscription::new(&dummy_client.id(), "Test Subscription");
    let dummy_submission = Publication { data: String::from("Test") };

    assert_eq!(
        dummy_subscription.metadata,
        SubscriptionMeta { name: String::from("Test Subscription") }
    );

    dummy_subscription.append_subscriber(&dummy_client);
    assert!(dummy_subscription.subscribers.contains(&dummy_client));
    dummy_subscription.remove_subscriber(&dummy_client);
    assert_eq!(dummy_subscription.subscribers.contains(&dummy_client), false);
    dummy_subscription.log_submission(&dummy_submission);
    assert!(dummy_subscription.log.contains(&dummy_submission.data));
}

#[test]
fn subscription_test_subscriptions() {
    let mut subscriptions = Subscriptions::new();
    let subscription = Subscription::new(&fresh(), "Test Subscription");
    subscriptions.update(&subscription);
    let fetched_subscription = subscriptions.fetch(&subscription.id).unwrap();
    assert_eq!(fetched_subscription, subscription);
    subscriptions.remove(&fetched_subscription.id);
    let subscription_index = subscriptions.index();
    assert_eq!(subscription_index, Vec::<Uid>::new());
}

#[test]
fn subscriptions_test_subscription() {
    let dummy_client = fresh();
    let mut dummy_subscription = UidSubscription::new(&dummy_client, "Test Subscription");

    assert_eq!(
        dummy_subscription.metadata,
        UidSubscriptionMeta { name: String::from("Test Subscription") }
    );

    dummy_subscription.append_subscriber(&dummy_client);
    assert!(dummy_subscription.subscribers.contains(&dummy_client));
    dummy_subscription.remove_subscriber(&dummy_client);
    assert_eq!(dummy_subscription.subscribers.contains(&dummy_client), false);
}

#[test]
fn subscriptions_test_subscriptions() {
    let mut subscriptions = UidSubscriptions::new();
    let subscription = UidSubscription::new(&fresh(), "Test Subscription");
    subscriptions.update(&subscription);
    let fetched_subscription = subscriptions.fetch(&subscription.id).unwrap();
    assert_eq!(fetched_subscription, subscription);
    subscriptions.remove(&fetched_subscription.id);
    let subscription_index = subscriptions.index();
    assert_eq!(subscription_index, Vec::<Uid>::new());
}

#[test]
fn log_publication_is_idempotent() {
    let mut subscription = UidSubscription::new(&fresh(), "Test Subscription");
    let entry = fresh();
    assert!(subscription.log_publication(&entry));
    assert!(!subscription.log_publication(&entry));
    assert_eq!(subscription.log, vec![entry]);
}
