use astron_core::channel_map::ChannelMap;
use astron_core::control;
use astron_core::director::Director;
use astron_core::director::Message;
use astron_core::errors::ControlError;
use astron_core::errors::RoutingError;
use astron_core::upstream::UpstreamLink;

fn msg(sender: u64, recipients: Vec<u64>, message_type: u16, payload: Vec<u8>) -> Message {
    Message { sender, recipients, message_type, payload }
}

#[test]
fn publish_delivers_to_subscriber_not_sender() {
    let mut d = Director::new();
    let a = d.connect();
    let b = d.connect();
    d.subscribe(a, 1000);
    let m = msg(2000, vec![1000], 7, vec![1, 2, 3]);
    assert_eq!(d.publish(b, &m), Ok(()));
    assert_eq!(d.queue_len(a), 1);
    assert_eq!(d.queue_len(b), 0);
    let got = d.next_outbound(a).expect("a message was queued for a");
    assert_eq!(got.sender, 2000);
    assert_eq!(got.recipients, vec![1000]);
    assert_eq!(got.message_type, 7);
    assert_eq!(got.payload, vec![1, 2, 3]);
    // After a disconnects, the same publish reaches no participant.
    d.disconnect(a);
    assert_eq!(d.publish(b, &m), Ok(()));
    assert_eq!(d.queue_len(a), 0);
    assert_eq!(d.queue_len(b), 0);
}

#[test]
fn publish_empty_recipients_rejected() {
    let mut d = Director::new();
    let a = d.connect();
    let m = msg(5, vec![], 0, vec![]);
    assert_eq!(d.publish(a, &m), Err(RoutingError::EmptyRecipients));
}

#[test]
fn publish_keeps_admission_order() {
    let mut d = Director::new();
    let a = d.connect();
    let b = d.connect();
    let c = d.connect();
    d.subscribe(a, 42);
    let m1 = msg(100, vec![42], 1, vec![1]);
    let m2 = msg(200, vec![42], 2, vec![2]);
    assert_eq!(d.publish(b, &m1), Ok(()));
    assert_eq!(d.publish(c, &m2), Ok(()));
    let first = d.next_outbound(a).unwrap();
    let second = d.next_outbound(a).unwrap();
    assert_eq!(first.message_type, 1);
    assert_eq!(second.message_type, 2);
    assert!(d.next_outbound(a).is_none());
}

#[test]
fn publish_delivers_once_across_recipient_channels() {
    let mut d = Director::new();
    let a = d.connect();
    let b = d.connect();
    d.subscribe(a, 10);
    d.subscribe(a, 11);
    let m = msg(99, vec![10, 11], 3, vec![]);
    assert_eq!(d.publish(b, &m), Ok(()));
    assert_eq!(d.queue_len(a), 1);
}

#[test]
fn loopback_suppressed_even_with_other_subscriptions() {
    let mut d = Director::new();
    let a = d.connect();
    d.subscribe(a, 7);
    let m = msg(7, vec![7], 0, vec![]);
    assert_eq!(d.publish(a, &m), Ok(()));
    assert_eq!(d.queue_len(a), 0);
}

#[test]
fn range_subscription_covers_interval() {
    let mut m = ChannelMap::new();
    m.subscribe_range(1, 100, 200);
    assert_eq!(m.lookup(100), vec![1]);
    assert_eq!(m.lookup(150), vec![1]);
    assert_eq!(m.lookup(200), vec![1]);
    assert!(m.lookup(99).is_empty());
    assert!(m.lookup(201).is_empty());
    m.unsubscribe_range(1, 100, 200);
    assert!(m.lookup(150).is_empty());
}

#[test]
fn lookup_unions_single_and_range() {
    let mut m = ChannelMap::new();
    m.subscribe(1, 150);
    m.subscribe_range(2, 100, 200);
    let mut got = m.lookup(150);
    got.sort();
    assert_eq!(got, vec![1, 2]);
}

#[test]
fn subscribe_twice_is_idempotent() {
    let mut m = ChannelMap::new();
    m.subscribe(5, 1000);
    m.subscribe(5, 1000);
    assert_eq!(m.lookup(1000), vec![5]);
}

#[test]
fn unsubscribe_never_held_is_noop() {
    let mut m = ChannelMap::new();
    m.subscribe(5, 1000);
    m.unsubscribe(5, 2000);
    m.unsubscribe(6, 1000);
    assert_eq!(m.lookup(1000), vec![5]);
}

#[test]
fn remove_participant_leaves_no_references() {
    let mut m = ChannelMap::new();
    m.subscribe(1, 10);
    m.subscribe(1, 20);
    m.subscribe_range(1, 100, 200);
    m.subscribe(2, 10);
    m.unsubscribe(1, 20);
    m.subscribe(1, 20);
    m.remove_participant(1);
    for c in [10u64, 20, 100, 150, 200] {
        assert!(!m.lookup(c).contains(&1));
    }
    assert_eq!(m.lookup(10), vec![2]);
}

#[test]
fn route_forwards_once_over_live_link() {
    let mut d = Director::new();
    let a = d.connect();
    let b = d.connect();
    d.subscribe(a, 10);
    let mut link = UpstreamLink::new();
    let m = msg(99, vec![10, 5000, 5001], 1, vec![]);
    // Link down: local delivery only, no forward.
    assert_eq!(d.route(b, &m, &link, false), Ok(false));
    assert_eq!(d.queue_len(a), 1);
    // Link up with the peer interested in [5000, 5999]: one forward for
    // the whole message, though two recipient channels match.
    let map = ChannelMap::new();
    link.resync(&map);
    link.update_peer_interests(vec![(5000, 5999)]);
    assert_eq!(d.route(b, &m, &link, false), Ok(true));
    // Never re-forward a message back toward the link it arrived from.
    assert_eq!(d.route(b, &m, &link, true), Ok(false));
    // No recipient in the peer's interest: delivered locally, no forward.
    let m2 = msg(99, vec![10], 1, vec![]);
    assert_eq!(d.route(b, &m2, &link, false), Ok(false));
}

#[test]
fn slow_consumer_torn_down_at_bound() {
    let mut d = Director::new();
    let a = d.connect();
    let b = d.connect();
    d.subscribe(a, 1);
    let m = msg(0, vec![1], 0, vec![]);
    d.publish(b, &m).unwrap();
    d.publish(b, &m).unwrap();
    // Under the bound: nothing changes.
    assert!(!d.enforce_backpressure(a, 2));
    assert_eq!(d.queue_len(a), 2);
    // Past the bound: the slow consumer is torn down, not buffered.
    assert!(d.enforce_backpressure(a, 1));
    assert_eq!(d.queue_len(a), 0);
    d.publish(b, &m).unwrap();
    assert_eq!(d.queue_len(a), 0);
}

#[test]
fn process_lifecycle() {
    let mut p = control::create(String::new(), false, false, String::new(), true);
    assert!(!p.is_alive());
    assert_eq!(p.start(), Ok(()));
    assert!(p.is_alive());
    assert_eq!(p.start(), Err(ControlError::AlreadyStarted));
    assert_eq!(p.shutdown(), Ok(()));
    assert!(!p.is_alive());
    assert_eq!(p.shutdown(), Err(ControlError::AlreadyClosed));
}

#[test]
fn terminate_stops_process() {
    let mut p = control::create(String::from("astrond.yml"), true, true, String::from("info"), false);
    assert_eq!(p.start(), Ok(()));
    p.terminate();
    assert!(!p.is_alive());
}
