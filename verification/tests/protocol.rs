use kvs::error::KvError;
use kvs::protocol::{
    create_protocol_stream, decode_stream, parse_protocol_stream, try_parse_protocol_stream,
    wire_fault, KvStream, Malformed, StreamCommand,
};

fn msg(c: StreamCommand, key: &str, value: Option<&str>) -> KvStream {
    KvStream::build_from(c, key.to_string(), value.map(|v| v.to_string()))
}

fn same(a: &KvStream, b: &KvStream) -> bool {
    a.command == b.command && a.key == b.key && a.value == b.value
}

#[test]
fn build_from_keeps_parts() {
    let m = msg(StreamCommand::Rm, "k", None);
    assert_eq!(m.command, StreamCommand::Rm);
    assert_eq!(m.key, "k");
    assert_eq!(m.value, None);
}

#[test]
fn wire_text_of_each_command() {
    assert_eq!(msg(StreamCommand::St, "k", Some("v")).to_wire().unwrap(), "stk\t\tv");
    assert_eq!(msg(StreamCommand::Gt, "k", None).to_wire().unwrap(), "gtk");
    assert_eq!(msg(StreamCommand::Rm, "k", None).to_wire().unwrap(), "rmk");
    assert_eq!(msg(StreamCommand::Se, "", None).to_wire().unwrap(), "se");
    assert_eq!(msg(StreamCommand::Ge, "", None).to_wire().unwrap(), "ge");
    assert_eq!(msg(StreamCommand::Gn, "Key not found", None).to_wire().unwrap(), "gnKey not found");
    assert_eq!(msg(StreamCommand::Re, "x", None).to_wire().unwrap(), "rex");
    assert_eq!(msg(StreamCommand::Sd, "sd", Some("v")).to_wire().unwrap(), "sdsd");
    // A value on a non-set message is not written.
    assert_eq!(msg(StreamCommand::Gt, "k", Some("v")).to_wire().unwrap(), "gtk");
}

#[test]
fn set_without_value_cannot_be_written() {
    let m = msg(StreamCommand::St, "k", None);
    assert!(m.to_wire().is_none());
    assert_eq!(create_protocol_stream(&m).unwrap_err(), KvError::Serde);
}

#[test]
fn created_bytes_are_a_json_string() {
    let b = create_protocol_stream(&msg(StreamCommand::St, "k", Some("v"))).unwrap();
    assert_eq!(b, b"\"stk\\t\\tv\"".to_vec());
    let b = create_protocol_stream(&msg(StreamCommand::Gt, "a\"b", None)).unwrap();
    assert_eq!(b, b"\"gta\\\"b\"".to_vec());
}

#[test]
fn decode_reads_commands() {
    let m = decode_stream("stkey\t\tvalue");
    assert!(same(&m, &msg(StreamCommand::St, "key", Some("value"))));
    let m = decode_stream("gtkey");
    assert!(same(&m, &msg(StreamCommand::Gt, "key", None)));
    let m = decode_stream("rmkey\t\tignored");
    assert!(same(&m, &msg(StreamCommand::Rm, "key", None)));
    let m = decode_stream("gnKey not found");
    assert!(same(&m, &msg(StreamCommand::Gn, "Key not found", None)));
}

#[test]
fn decode_takes_only_the_second_piece_as_value() {
    let m = decode_stream("stk\t\tv\t\tw");
    assert!(same(&m, &msg(StreamCommand::St, "k", Some("v"))));
    let m = decode_stream("st\t\t");
    assert!(same(&m, &msg(StreamCommand::St, "", Some(""))));
    let m = decode_stream("stk\t\t\tv");
    assert!(same(&m, &msg(StreamCommand::St, "k", Some("\tv"))));
}

#[test]
fn unknown_tag_reads_as_get_of_empty_key() {
    let m = decode_stream("xxkey");
    assert!(same(&m, &msg(StreamCommand::Gt, "", None)));
    // A two-byte character fills the two-byte head exactly.
    let m = decode_stream("\u{e9}abc");
    assert!(same(&m, &msg(StreamCommand::Gt, "", None)));
}

#[test]
fn wire_faults() {
    assert_eq!(wire_fault(""), Some(Malformed::HeadSplit));
    assert_eq!(wire_fault("s"), Some(Malformed::HeadSplit));
    assert_eq!(wire_fault("\t\tx"), Some(Malformed::HeadSplit));
    assert_eq!(wire_fault("\u{20ac}x"), Some(Malformed::HeadSplit));
    assert_eq!(wire_fault("a\u{e9}"), Some(Malformed::HeadSplit));
    assert_eq!(wire_fault("stkey"), Some(Malformed::MissingValue));
    assert_eq!(wire_fault("stkey\t\tv"), None);
    assert_eq!(wire_fault("gtkey"), None);
    assert_eq!(wire_fault("\u{e9}"), None);
}

#[test]
fn protocol_round_trip() {
    let cases = vec![
        msg(StreamCommand::St, "key", Some("value")),
        msg(StreamCommand::St, "", Some("")),
        msg(StreamCommand::St, "a\tb", Some("x\ty")),
        msg(StreamCommand::Gt, "key", None),
        msg(StreamCommand::Rm, "k\t", None),
        msg(StreamCommand::Se, "", None),
        msg(StreamCommand::Ge, "", None),
        msg(StreamCommand::Gn, "Key not found", None),
        msg(StreamCommand::Re, "Key not found", None),
        msg(StreamCommand::Gt, "\u{e9}t\u{e9}", None),
        msg(StreamCommand::Sd, "sd", None),
    ];
    for m in cases {
        let b = create_protocol_stream(&m).unwrap();
        let back = parse_protocol_stream(&b).unwrap();
        assert!(same(&back, &m));
        let back = try_parse_protocol_stream(&b).unwrap().unwrap();
        assert!(same(&back, &m));
    }
}

#[test]
fn shutdown_reads_back_as_shutdown() {
    let b = create_protocol_stream(&msg(StreamCommand::Sd, "sd", Some("x"))).unwrap();
    let back = parse_protocol_stream(&b).unwrap();
    assert!(same(&back, &msg(StreamCommand::Sd, "sd", None)));
}

#[test]
fn parse_rejects_non_strings() {
    assert_eq!(parse_protocol_stream(b"not json").unwrap_err(), KvError::Serde);
    assert_eq!(parse_protocol_stream(b"123").unwrap_err(), KvError::Serde);
    assert_eq!(parse_protocol_stream(b"\"gtk\" x").unwrap_err(), KvError::Serde);
    assert_eq!(try_parse_protocol_stream(b"[1]").unwrap().unwrap_err(), KvError::Serde);
}

#[test]
fn parse_accepts_surrounding_white_space() {
    let back = parse_protocol_stream(b" \"gtk\"\n").unwrap();
    assert!(same(&back, &msg(StreamCommand::Gt, "k", None)));
}

#[test]
fn try_parse_reports_malformed_text() {
    assert_eq!(try_parse_protocol_stream(b"\"stkey\"").unwrap_err(), Malformed::MissingValue);
    assert_eq!(try_parse_protocol_stream(b"\"s\"").unwrap_err(), Malformed::HeadSplit);
}

#[test]
fn created_bytes_hold_no_newline() {
    let b = create_protocol_stream(&msg(StreamCommand::St, "a\nb", Some("c\r\nd"))).unwrap();
    assert!(!b.contains(&b'\n'));
    assert_eq!(b, b"\"sta\\nb\\t\\tc\\r\\nd\"".to_vec());
}

#[test]
fn encoded_messages_are_one_quoted_line() {
    let b = create_protocol_stream(&msg(StreamCommand::St, "a\nb", Some("c\td"))).unwrap();
    assert!(b.len() >= 2);
    assert_eq!(b[0], b'"');
    assert_eq!(b[b.len() - 1], b'"');
    assert!(!b.contains(&b'\n'));
}
