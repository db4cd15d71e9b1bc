use infotainer::ids::Uid;
use infotainer::pubsub::{
    Issue, ManageSession, ManageSubscription, PubSubService, PublicationError, SubmitCommand,
    Subscription, Subscriptions,
};

fn fresh() -> Uid {
    let v = uuid::Uuid::new_v4().as_u128();
    Uid::new((v >> 64) as u64, v as u64)
}

#[test]
fn pubsub_test_subscription() {
    let dummy_client = fresh();
    let mut dummy_subscription = Subscription::new(&dummy_client, "Test Subscription");

    dummy_subscription.append_subscriber(&dummy_client);
    assert!(dummy_subscription.subscribers.contains(&dummy_client));
    dummy_subscription.remove_subscriber(&dummy_client);
    assert_eq!(dummy_subscription.subscribers.contains(&dummy_client), false);
}

#[test]
fn pubsub_test_subscriptions() {
    let mut subscriptions = Subscriptions::new();
    let subscription = Subscription::new(&fresh(), "Test Subscription");
    subscriptions.update(&subscription);
    let fetched_subscription = subscriptions.fetch(&subscription.id).unwrap();
    assert_eq!(fetched_subscription, subscription);
    subscriptions.remove(&fetched_subscription.id);
    assert!(subscriptions.fetch(&fetched_subscription.id).is_err());
}

#[test]
fn subscribe_is_idempotent() {
    let client = fresh();
    let sub = fresh();
    let mut broker = PubSubService::new();
    broker
        .handle_subscription(ManageSubscription::Add { client_id: client, subscription_id: sub })
        .unwrap();
    broker
        .handle_subscription(ManageSubscription::Add { client_id: client, subscription_id: sub })
        .unwrap();
    broker.handle_session(ManageSession::Add { client_id: client }).unwrap();
    let cmd = SubmitCommand::new(&client, &sub, &vec![1u8]);
    let publication = broker.prepare_submit(&cmd).unwrap();
    let issues = broker.fan_out(&publication);
    assert_eq!(issues.len(), 1);
    assert_eq!(issues[0].0, client);
}

#[test]
fn unsubscribe_by_non_subscriber_fails_and_changes_nothing() {
    let member = fresh();
    let outsider = fresh();
    let sub = fresh();
    let mut broker = PubSubService::new();
    broker
        .handle_subscription(ManageSubscription::Add { client_id: member, subscription_id: sub })
        .unwrap();
    broker.handle_session(ManageSession::Add { client_id: member }).unwrap();

    let err = broker
        .handle_subscription(ManageSubscription::Remove {
            client_id: outsider,
            subscription_id: sub,
        })
        .unwrap_err();
    assert_eq!(
        err.message(),
        "Error while handling subscriptions: not subscribed"
    );

    // the registry is unchanged: the member still receives issues
    let cmd = SubmitCommand::new(&member, &sub, &vec![2u8]);
    let publication = broker.prepare_submit(&cmd).unwrap();
    let issues = broker.fan_out(&publication);
    assert_eq!(issues.len(), 1);
    assert_eq!(issues[0].0, member);
}

#[test]
fn unsubscribe_unknown_subscription_fails() {
    let client = fresh();
    let mut broker = PubSubService::new();
    let err = broker
        .handle_subscription(ManageSubscription::Remove {
            client_id: client,
            subscription_id: fresh(),
        })
        .unwrap_err();
    assert_eq!(
        err.message(),
        "Error while handling subscriptions: Subscription not found"
    );
}

#[test]
fn last_action_decides_membership() {
    let client = fresh();
    let other = fresh();
    let sub = fresh();
    let mut broker = PubSubService::new();
    broker.handle_session(ManageSession::Add { client_id: client }).unwrap();
    broker.handle_session(ManageSession::Add { client_id: other }).unwrap();
    broker
        .handle_subscription(ManageSubscription::Add { client_id: client, subscription_id: sub })
        .unwrap();
    broker
        .handle_subscription(ManageSubscription::Add { client_id: other, subscription_id: sub })
        .unwrap();
    broker
        .handle_subscription(ManageSubscription::Remove {
            client_id: client,
            subscription_id: sub,
        })
        .unwrap();
    broker
        .handle_subscription(ManageSubscription::Add { client_id: client, subscription_id: sub })
        .unwrap();

    // both clients' last action on `sub` was a subscribe
    let cmd = SubmitCommand::new(&other, &sub, &vec![3u8]);
    let publication = broker.prepare_submit(&cmd).unwrap();
    let issues = broker.fan_out(&publication);
    let recipients: Vec<Uid> = issues.iter().map(|pr| pr.0).collect();
    assert_eq!(recipients.len(), 2);
    assert!(recipients.contains(&client));
    assert!(recipients.contains(&other));
    for (_, issue) in issues {
        assert_eq!(issue, Issue(sub, publication.publication_id));
    }
}

#[test]
fn fan_out_skips_clients_without_session() {
    let with_session = fresh();
    let without_session = fresh();
    let sub = fresh();
    let mut broker = PubSubService::new();
    broker
        .handle_subscription(ManageSubscription::Add {
            client_id: with_session,
            subscription_id: sub,
        })
        .unwrap();
    broker
        .handle_subscription(ManageSubscription::Add {
            client_id: without_session,
            subscription_id: sub,
        })
        .unwrap();
    broker.handle_session(ManageSession::Add { client_id: with_session }).unwrap();

    let cmd = SubmitCommand::new(&with_session, &sub, &vec![4u8]);
    let publication = broker.prepare_submit(&cmd).unwrap();
    let issues = broker.fan_out(&publication);
    assert_eq!(issues.len(), 1);
    assert_eq!(issues[0].0, with_session);

    // a removed session no longer receives issues
    broker.handle_session(ManageSession::Remove { client_id: with_session }).unwrap();
    let issues = broker.fan_out(&publication);
    assert!(issues.is_empty());
}

#[test]
fn submit_to_unknown_subscription_fails() {
    let broker = PubSubService::new();
    let cmd = SubmitCommand::new(&fresh(), &fresh(), &vec![5u8]);
    let err = broker.prepare_submit(&cmd).unwrap_err();
    assert!(matches!(err, PublicationError::Publishing(_)));
    assert_eq!(err.message(), "Error while publishing: no such subscription");
}
