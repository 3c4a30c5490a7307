use phone_companion::sms::parse_conversations;
use phone_companion::sms::parse_messages;
use phone_companion::sms::parse_sms_message;
use phone_companion::sms::MessageType;
use phone_companion::sms::MAX_CONVERSATIONS;
use phone_companion::variant::VariantValue;

/// A full message record as the daemon encodes it: direction code, body,
/// address list, timestamp, read flag, a field this consumer ignores, and
/// the thread id.
fn record(direction: i32, body: &str, address: &str, date: i64, read: i32, thread: i64) -> VariantValue {
    VariantValue::Structure(vec![
        VariantValue::I32(direction),
        VariantValue::Str(body.to_string()),
        VariantValue::Array(vec![VariantValue::Structure(vec![VariantValue::Str(
            address.to_string(),
        )])]),
        VariantValue::I64(date),
        VariantValue::I32(read),
        VariantValue::Other,
        VariantValue::I64(thread),
    ])
}

#[test]
fn decode_full_record() {
    let m = parse_sms_message(&record(1, "hello", "555", 1000, 0, 7)).unwrap();
    assert_eq!(m.body, "hello");
    assert_eq!(m.address, "555");
    assert_eq!(m.date, 1000);
    assert_eq!(m.message_type, MessageType::Inbox);
    assert!(!m.read);
    assert_eq!(m.thread_id, 7);
}

#[test]
fn decode_sent_direction() {
    let m = parse_sms_message(&record(2, "x", "555", 1, 1, 1)).unwrap();
    assert_eq!(m.message_type, MessageType::Sent);
    assert!(m.read);
    let m5 = parse_sms_message(&record(5, "x", "555", 1, 1, 1)).unwrap();
    assert_eq!(m5.message_type, MessageType::Sent);
}

#[test]
fn decode_short_record_defaults_thread_zero() {
    let v = VariantValue::Structure(vec![
        VariantValue::I32(1),
        VariantValue::Str("short".to_string()),
    ]);
    let m = parse_sms_message(&v).unwrap();
    assert_eq!(m.thread_id, 0);
    assert_eq!(m.body, "short");
    assert_eq!(m.address, "");
    assert_eq!(m.date, 0);
    assert!(!m.read);
}

#[test]
fn decode_empty_structure_takes_all_defaults() {
    let m = parse_sms_message(&VariantValue::Structure(vec![])).unwrap();
    assert_eq!(m.message_type, MessageType::Sent);
    assert_eq!(m.body, "");
    assert_eq!(m.address, "");
    assert_eq!(m.date, 0);
    assert!(!m.read);
    assert_eq!(m.thread_id, 0);
}

#[test]
fn decode_non_structure_is_dropped() {
    assert!(parse_sms_message(&VariantValue::I64(5)).is_none());
    assert!(parse_sms_message(&VariantValue::Str("x".to_string())).is_none());
}

#[test]
fn decode_widens_integer_kinds() {
    let v = VariantValue::Structure(vec![
        VariantValue::I16(1),
        VariantValue::Str("w".to_string()),
        VariantValue::Array(vec![VariantValue::Str("direct".to_string())]),
        VariantValue::U32(1234),
        VariantValue::U16(1),
        VariantValue::Other,
        VariantValue::U32(9),
    ]);
    let m = parse_sms_message(&v).unwrap();
    assert_eq!(m.message_type, MessageType::Inbox);
    assert_eq!(m.address, "direct");
    assert_eq!(m.date, 1234);
    assert!(m.read);
    assert_eq!(m.thread_id, 9);
}

#[test]
fn decode_mismatched_shapes_default() {
    let v = VariantValue::Structure(vec![
        VariantValue::Str("not a code".to_string()),
        VariantValue::I64(5),
        VariantValue::I64(5),
        VariantValue::Str("not a date".to_string()),
        VariantValue::Str("not a flag".to_string()),
        VariantValue::Other,
        VariantValue::Str("not a thread".to_string()),
    ]);
    let m = parse_sms_message(&v).unwrap();
    assert_eq!(m.message_type, MessageType::Sent);
    assert_eq!(m.body, "");
    assert_eq!(m.address, "");
    assert_eq!(m.date, 0);
    assert!(!m.read);
    assert_eq!(m.thread_id, 0);
}

#[test]
fn decode_narrows_unsigned_direction() {
    let inbox = VariantValue::Structure(vec![VariantValue::U32(1)]);
    assert_eq!(parse_sms_message(&inbox).unwrap().message_type, MessageType::Inbox);
    let sent = VariantValue::Structure(vec![VariantValue::U64(2)]);
    assert_eq!(parse_sms_message(&sent).unwrap().message_type, MessageType::Sent);
}

#[test]
fn conversations_keep_most_recent_per_thread() {
    let records = vec![
        record(1, "old", "a", 100, 1, 1),
        record(1, "new", "a", 300, 0, 1),
        record(2, "only", "b", 200, 1, 2),
    ];
    let summaries = parse_conversations(&records);
    assert_eq!(summaries.len(), 2);
    assert_eq!(summaries[0].thread_id, 1);
    assert_eq!(summaries[0].last_message, "new");
    assert_eq!(summaries[0].timestamp, 300);
    assert!(summaries[0].unread);
    assert_eq!(summaries[1].thread_id, 2);
    assert_eq!(summaries[1].timestamp, 200);
    assert!(!summaries[1].unread);
}

#[test]
fn conversations_are_capped() {
    let mut records = Vec::new();
    for t in 0..30i64 {
        records.push(record(1, "m", "a", 1000 + t, 1, t));
    }
    let summaries = parse_conversations(&records);
    assert_eq!(summaries.len(), MAX_CONVERSATIONS);
    for w in summaries.windows(2) {
        assert!(w[0].timestamp >= w[1].timestamp);
        assert_ne!(w[0].thread_id, w[1].thread_id);
    }
    assert_eq!(summaries[0].timestamp, 1029);
}

#[test]
fn conversations_pick_first_of_tied_most_recent() {
    let records = vec![
        record(1, "tie-a", "a", 100, 1, 1),
        record(1, "tie-b", "a", 100, 1, 1),
    ];
    let summaries = parse_conversations(&records);
    assert_eq!(summaries.len(), 1);
    assert_eq!(summaries[0].last_message, "tie-a");
}

#[test]
fn conversations_drop_undecodable_records() {
    let records = vec![VariantValue::I64(1), record(1, "ok", "a", 5, 1, 3)];
    let summaries = parse_conversations(&records);
    assert_eq!(summaries.len(), 1);
    assert_eq!(summaries[0].thread_id, 3);
}

#[test]
fn thread_history_is_filtered_and_oldest_first() {
    let records = vec![
        record(1, "b", "a", 200, 1, 1),
        record(1, "other", "x", 500, 1, 2),
        record(2, "c", "a", 300, 1, 1),
        record(1, "a", "a", 100, 1, 1),
    ];
    let msgs = parse_messages(&records, 1);
    assert_eq!(msgs.len(), 3);
    assert_eq!(msgs[0].body, "a");
    assert_eq!(msgs[1].body, "b");
    assert_eq!(msgs[2].body, "c");
    for m in &msgs {
        assert_eq!(m.thread_id, 1);
    }
}

#[test]
fn thread_history_keeps_decode_order_on_ties() {
    let records = vec![
        record(1, "first", "a", 100, 1, 1),
        record(1, "second", "a", 100, 1, 1),
        record(1, "third", "a", 100, 1, 1),
        record(1, "early", "a", 50, 1, 1),
    ];
    let msgs = parse_messages(&records, 1);
    let bodies: Vec<&str> = msgs.iter().map(|m| m.body.as_str()).collect();
    assert_eq!(bodies, vec!["early", "first", "second", "third"]);
}

#[test]
fn message_type_from_codes() {
    assert_eq!(MessageType::from(1), MessageType::Inbox);
    assert_eq!(MessageType::from(2), MessageType::Sent);
    assert_eq!(MessageType::from(0), MessageType::Sent);
    assert_eq!(MessageType::from(6), MessageType::Sent);
}
