use netchat::clock::Clock;
use netchat::codec::CodecError;
use netchat::messages::{Header, Msg};

fn clock_of(entries: &[(&str, u64)]) -> Clock {
    let mut c = Clock::empty();
    for (id, d) in entries {
        c.set(&id.to_string(), *d);
    }
    c
}

#[test]
fn messages_message_serde() {
    let msg = Msg {
        id: 1,
        sender_id: "asdasdw".to_owned(),
        header: Header::Private("42".to_string(), "I like trains !".to_string()),
        clock: clock_of(&[("1", 2), ("3", 4)]),
    };

    let serialized = msg.serialize().expect("failed to serialize");
    println!("serialized = {}", serialized);

    let deserialized = Msg::from_str(&serialized).expect("failed to deserialize");

    println!("deserialized = {:?}", deserialized);

    assert_eq!(msg, deserialized);
}

#[test]
fn encodes_public_message_exactly() {
    let msg = Msg::new(
        7,
        "B".to_string(),
        Header::Public("hi".to_string()),
        clock_of(&[("B", 5), ("A", 1)]),
    );
    assert_eq!(
        msg.serialize().unwrap(),
        r#"{"id":7,"sender_id":"B","header":{"Public":"hi"},"clock":{"B":5,"A":1}}"#
    );
}

#[test]
fn encodes_unit_headers_as_bare_tags() {
    let c = Msg::new(3, "n".to_string(), Header::Connection, clock_of(&[("n", 1)]));
    assert_eq!(
        c.serialize().unwrap(),
        r#"{"id":3,"sender_id":"n","header":"Connection","clock":{"n":1}}"#
    );
    let d = Msg::new(4, "n".to_string(), Header::Disconnection, clock_of(&[("n", 2)]));
    assert_eq!(
        d.serialize().unwrap(),
        r#"{"id":4,"sender_id":"n","header":"Disconnection","clock":{"n":2}}"#
    );
}

#[test]
fn encodes_request_and_response() {
    let inner = Msg::new(9, "B".to_string(), Header::Public("x".to_string()), clock_of(&[("B", 1)]));
    let resp = Msg::new(
        10,
        "B".to_string(),
        Header::SnapshotResponse("A".to_string(), vec![inner]),
        clock_of(&[("B", 2)]),
    );
    let text = resp.serialize().unwrap();
    assert_eq!(
        text,
        r#"{"id":10,"sender_id":"B","header":{"SnapshotResponse":["A",[{"id":9,"sender_id":"B","header":{"Public":"x"},"clock":{"B":1}}]]},"clock":{"B":2}}"#
    );
    assert_eq!(Msg::from_str(&text).unwrap(), resp);

    let req = Msg::new(11, "A".to_string(), Header::SnapshotRequest("A".to_string()), clock_of(&[("A", 3)]));
    let text = req.serialize().unwrap();
    assert_eq!(
        text,
        r#"{"id":11,"sender_id":"A","header":{"SnapshotRequest":"A"},"clock":{"A":3}}"#
    );
    assert_eq!(Msg::from_str(&text).unwrap(), req);
}

#[test]
fn escapes_special_characters() {
    let msg = Msg::new(
        18446744073709551615,
        "q\"b\\".to_string(),
        Header::Public("line\nbreak\ttab\u{1}é".to_string()),
        clock_of(&[]),
    );
    let text = msg.serialize().unwrap();
    assert_eq!(
        text,
        "{\"id\":18446744073709551615,\"sender_id\":\"q\\\"b\\\\\",\"header\":{\"Public\":\"line\\nbreak\\ttab\\u0001é\"},\"clock\":{}}"
    );
    assert_eq!(Msg::from_str(&text).unwrap(), msg);
}

#[test]
fn round_trips_empty_snapshot_response() {
    let msg = Msg::new(
        0,
        "".to_string(),
        Header::SnapshotResponse("".to_string(), vec![]),
        clock_of(&[("", 0)]),
    );
    let text = msg.serialize().unwrap();
    assert_eq!(Msg::from_str(&text).unwrap(), msg);
}

#[test]
fn rejects_malformed_lines() {
    assert_eq!(Msg::from_str("").unwrap_err(), CodecError::Syntax);
    assert_eq!(Msg::from_str("not json").unwrap_err(), CodecError::Syntax);
    assert_eq!(
        Msg::from_str(r#"{"id":1,"sender_id":"a","header":"Connection","clock":{"a":1}} trailing"#)
            .unwrap_err(),
        CodecError::Syntax
    );
    assert_eq!(
        Msg::from_str(r#"{"id":1,"sender_id":"a","header":"Connection","clock":{"a":1},"extra":0}"#)
            .unwrap_err(),
        CodecError::Syntax
    );
    assert_eq!(
        Msg::from_str(r#"{"id":18446744073709551616,"sender_id":"a","header":"Connection","clock":{}}"#)
            .unwrap_err(),
        CodecError::Syntax
    );
}

#[test]
fn rejects_clock_naming_a_node_twice() {
    assert_eq!(
        Msg::from_str(r#"{"id":1,"sender_id":"a","header":"Connection","clock":{"a":1,"a":2}}"#)
            .unwrap_err(),
        CodecError::RepeatedNode
    );
}

#[test]
fn reads_only_the_canonical_form() {
    let canonical = r#"{"id":5,"sender_id":"a","header":{"Private":["A","x\by\fz\r"]},"clock":{"a":1}}"#;
    let m = Msg::from_str(canonical).unwrap();
    assert_eq!(m.header, Header::Private("A".to_string(), "x\u{8}y\u{c}z\r".to_string()));
    let spaced = r#"{"id":5, "sender_id":"a","header":"Connection","clock":{"a":1}}"#;
    assert_eq!(Msg::from_str(spaced).unwrap_err(), CodecError::Syntax);
    let slash = r#"{"id":5,"sender_id":"a\/b","header":"Connection","clock":{"a":1}}"#;
    assert_eq!(Msg::from_str(slash).unwrap_err(), CodecError::Syntax);
    let leading_zero = r#"{"id":05,"sender_id":"a","header":"Connection","clock":{"a":1}}"#;
    assert_eq!(Msg::from_str(leading_zero).unwrap_err(), CodecError::Syntax);
}
