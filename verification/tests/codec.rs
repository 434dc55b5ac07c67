use signaling::event::{decode_event, encode_event, Event};
use signaling::SignalError;

fn decode(s: &str) -> Result<Event, SignalError> {
    decode_event(&s.as_bytes().to_vec())
}

fn topic_names(e: &Event) -> Vec<Vec<u8>> {
    match e {
        Event::Subscribe { topics } => topics.iter().map(|t| t.name.clone()).collect(),
        Event::Unsubscribe { topics } => topics.iter().map(|t| t.name.clone()).collect(),
        _ => panic!("not a subscription event"),
    }
}

#[test]
fn decodes_subscribe_with_topics() {
    let e = decode(r#"{"type":"subscribe","topics":["lobby","a"]}"#).unwrap();
    assert!(matches!(e, Event::Subscribe { .. }));
    let names = topic_names(&e);
    assert_eq!(names, vec![b"lobby".to_vec(), b"a".to_vec()]);
}

#[test]
fn decodes_unsubscribe_with_empty_topics() {
    let e = decode(r#"{"type":"unsubscribe","topics":[]}"#).unwrap();
    assert!(matches!(e, Event::Unsubscribe { .. }));
    assert_eq!(topic_names(&e).len(), 0);
}

#[test]
fn decodes_publish_and_keeps_extra_fields_out_of_the_way() {
    let e = decode(r#"{"type":"publish","topic":"lobby","data":"hi"}"#).unwrap();
    match e {
        Event::Publish { topic } => assert_eq!(topic.name, b"lobby".to_vec()),
        _ => panic!("expected publish"),
    }
}

#[test]
fn decodes_ping_and_pong() {
    assert!(matches!(decode(r#"{"type":"ping"}"#), Ok(Event::Ping)));
    assert!(matches!(decode(r#"{"type":"pong"}"#), Ok(Event::Pong)));
}

#[test]
fn skips_nested_unknown_fields() {
    let e = decode(
        r#"{ "meta": {"a": [1, -2.5e+3, {"b": null}], "c": "x\"y"}, "type": "ping", "ok": true }"#,
    )
    .unwrap();
    assert!(matches!(e, Event::Ping));
}

#[test]
fn accepts_fields_in_any_order() {
    let e = decode(r#"{"topics":["r"],"type":"subscribe"}"#).unwrap();
    assert_eq!(topic_names(&e), vec![b"r".to_vec()]);
}

#[test]
fn decodes_escapes_in_topic_names() {
    let e = decode(r#"{"type":"publish","topic":"a\n\"bA"}"#).unwrap();
    match e {
        Event::Publish { topic } => assert_eq!(topic.name, b"a\n\"bA".to_vec()),
        _ => panic!("expected publish"),
    }
}

#[test]
fn decodes_surrogate_pairs_to_utf8() {
    let e = decode(r#"{"type":"publish","topic":"𝄞"}"#).unwrap();
    match e {
        Event::Publish { topic } => assert_eq!(topic.name, vec![0xF0, 0x9D, 0x84, 0x9E]),
        _ => panic!("expected publish"),
    }
}

#[test]
fn rejects_malformed_frames() {
    for bad in [
        "",
        "{}",
        "{ }",
        "not json",
        "{",
        r#"{"type":"subscribe"}"#,
        r#"{"type":"publish"}"#,
        r#"{"type":"nope"}"#,
        r#"{"topics":["a"]}"#,
        r#"{"type":"ping"} trailing"#,
        r#"{"type":"ping","type":"pong"}"#,
        r#"{"type":"subscribe","topics":"lobby"}"#,
        r#"{"type":"subscribe","topics":[1]}"#,
        r#"{"type":"ping","n":01}"#,
        r#"{"type":"publish","topic":"\uDD1E"}"#,
        r#"["type","ping"]"#,
    ] {
        assert_eq!(
            decode(bad),
            Err(SignalError::MalformedEvent),
            "should have been refused: {bad}"
        );
    }
}

#[test]
fn accepts_surrounding_whitespace_and_numbers() {
    let e = decode(" \t\r\n{ \"type\" : \"ping\" , \"n\" : -12.5e+3 }\n").unwrap();
    assert!(matches!(e, Event::Ping));
}

#[test]
fn encodes_pong_canonically() {
    let bytes = encode_event(&Event::Pong);
    assert_eq!(bytes, br#"{"type":"pong"}"#.to_vec());
}

#[test]
fn encodes_publish_with_escaped_topic() {
    let topic = signaling::ids::RoomId::new(b"a\"b\\c\nd".to_vec());
    let bytes = encode_event(&Event::Publish { topic });
    assert_eq!(
        String::from_utf8(bytes).unwrap(),
        r#"{"type":"publish","topic":"a\"b\\c\u000ad"}"#
    );
}

#[test]
fn encode_then_decode_round_trips() {
    let topics = vec![
        signaling::ids::RoomId::new(b"lobby".to_vec()),
        signaling::ids::RoomId::new(b"x y".to_vec()),
    ];
    let bytes = encode_event(&Event::Subscribe { topics });
    let e = decode_event(&bytes).unwrap();
    assert_eq!(topic_names(&e), vec![b"lobby".to_vec(), b"x y".to_vec()]);

    let bytes = encode_event(&Event::Ping);
    assert!(matches!(decode_event(&bytes), Ok(Event::Ping)));
}
