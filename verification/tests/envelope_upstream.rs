use astron_core::channel_map::ChannelMap;
use astron_core::dbqueue::Completion;
use astron_core::director::Message;
use astron_core::envelope::parse_envelope;
use astron_core::envelope::serialize_envelope;
use astron_core::errors::PersistenceError;
use astron_core::errors::ProtocolError;
use astron_core::upstream::aggregate_interests;
use astron_core::upstream::UpstreamLink;

#[test]
fn envelope_round_trip() {
    let m = Message {
        sender: 0x1122334455667788,
        recipients: vec![1000, 2000],
        message_type: 0x0102,
        payload: vec![9, 8, 7],
    };
    let bytes = serialize_envelope(&m).expect("two recipients fit the count byte");
    let back = parse_envelope(&bytes).expect("own bytes parse");
    assert_eq!(back.sender, m.sender);
    assert_eq!(back.recipients, m.recipients);
    assert_eq!(back.message_type, m.message_type);
    assert_eq!(back.payload, m.payload);
}

#[test]
fn envelope_exact_layout() {
    let m = Message { sender: 2, recipients: vec![1], message_type: 3, payload: vec![0xAA] };
    let bytes = serialize_envelope(&m).unwrap();
    assert_eq!(
        bytes,
        vec![
            1, // recipient count
            0, 0, 0, 0, 0, 0, 0, 1, // recipient channel
            0, 0, 0, 0, 0, 0, 0, 2, // sender channel
            0, 3, // message type
            0xAA, // body
        ]
    );
}

#[test]
fn envelope_malformed_rejected() {
    assert_eq!(parse_envelope(&vec![]), Err(ProtocolError::MalformedEnvelope));
    // Announces two recipients but carries bytes for none.
    assert_eq!(parse_envelope(&vec![2, 0, 0]), Err(ProtocolError::MalformedEnvelope));
    // One recipient but no sender/type header behind it.
    assert_eq!(
        parse_envelope(&vec![1, 0, 0, 0, 0, 0, 0, 0, 5]),
        Err(ProtocolError::MalformedEnvelope)
    );
}

#[test]
fn envelope_too_many_recipients() {
    let m = Message {
        sender: 1,
        recipients: (0..256u64).collect(),
        message_type: 0,
        payload: vec![],
    };
    assert_eq!(serialize_envelope(&m), Err(ProtocolError::TooManyRecipients));
}

#[test]
fn upstream_aggregates_local_interest() {
    let mut m = ChannelMap::new();
    m.subscribe(1, 77);
    m.subscribe_range(2, 1000, 1999);
    let interests = aggregate_interests(&m);
    assert!(interests.contains(&(77, 77)));
    assert!(interests.contains(&(1000, 1999)));
    let covered = |c: u64| interests.iter().any(|&(lo, hi)| lo <= c && c <= hi);
    assert!(covered(77));
    assert!(covered(1500));
    assert!(!covered(78));
    assert!(!covered(2000));
}

#[test]
fn upstream_link_resync_and_loss() {
    let mut m = ChannelMap::new();
    m.subscribe(9, 5);
    let mut link = UpstreamLink::new();
    assert!(!link.forward_to_peer(false));
    link.resync(&m);
    assert!(link.forward_to_peer(false));
    // Never re-forward a message back toward the link it arrived from.
    assert!(!link.forward_to_peer(true));
    link.connection_lost();
    assert!(!link.forward_to_peer(false));
    assert!(link.announced.is_empty());
}

#[test]
fn completion_carries_result_or_failure() {
    let ok = Completion::Success(vec![1, 2]);
    let bad = Completion::Failure(PersistenceError::Timeout);
    assert!(matches!(ok, Completion::Success(ref b) if b == &vec![1, 2]));
    assert!(matches!(bad, Completion::Failure(PersistenceError::Timeout)));
}
