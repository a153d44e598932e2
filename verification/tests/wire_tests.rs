//! Tests of the wire codec: canonical encoding, decoding, and rejection of
//! malformed or foreign input.

use chat_client::wire::{
    decode_envelope, decode_message_data, encode_envelope, encode_message_data, MsgTypes,
    WebSocketMessage,
};

#[test]
fn decode_register_envelope() {
    let e = decode_envelope("{\"messageType\":\"register\",\"dataArray\":null,\"data\":\"alice\"}")
        .unwrap();
    assert!(matches!(e.message_type, MsgTypes::Register));
    assert!(e.data_array.is_none());
    assert_eq!(e.data.unwrap(), "alice");
}

#[test]
fn decode_users_envelope() {
    let e = decode_envelope(
        "{\"messageType\":\"users\",\"dataArray\":[\"alice\",\"bob\"],\"data\":null}",
    )
    .unwrap();
    assert!(matches!(e.message_type, MsgTypes::Users));
    assert_eq!(e.data_array.unwrap(), vec!["alice".to_string(), "bob".to_string()]);
    assert!(e.data.is_none());
}

#[test]
fn decode_empty_roster() {
    let e = decode_envelope("{\"messageType\":\"users\",\"dataArray\":[],\"data\":null}").unwrap();
    assert!(matches!(e.message_type, MsgTypes::Users));
    assert_eq!(e.data_array.unwrap(), Vec::<String>::new());
}

#[test]
fn encode_users_envelope() {
    let e = WebSocketMessage {
        message_type: MsgTypes::Users,
        data_array: Some(vec!["alice".to_string(), "bob".to_string()]),
        data: None,
    };
    assert_eq!(
        encode_envelope(&e),
        "{\"messageType\":\"users\",\"dataArray\":[\"alice\",\"bob\"],\"data\":null}"
    );
}

#[test]
fn envelope_round_trip() {
    let e = WebSocketMessage {
        message_type: MsgTypes::Message,
        data_array: None,
        data: Some("{\"from\":\"a\",\"message\":\"hi\"}".to_string()),
    };
    let text = encode_envelope(&e);
    let back = decode_envelope(&text).unwrap();
    assert!(matches!(back.message_type, MsgTypes::Message));
    assert_eq!(back.data.unwrap(), "{\"from\":\"a\",\"message\":\"hi\"}");
    assert!(back.data_array.is_none());
}

#[test]
fn message_data_round_trip_with_escapes() {
    let text = encode_message_data("a\"b", "line1\nline2\ttab\\slash");
    let md = decode_message_data(&text).unwrap();
    assert_eq!(md.from, "a\"b");
    assert_eq!(md.message, "line1\nline2\ttab\\slash");
}

#[test]
fn message_data_round_trip_with_control_chars() {
    let body = "bell\u{7}feed\u{c}end";
    let text = encode_message_data("x", body);
    let md = decode_message_data(&text).unwrap();
    assert_eq!(md.message, body);
}

#[test]
fn decode_message_data_example() {
    let md = decode_message_data("{\"from\":\"alice\",\"message\":\"hi\"}").unwrap();
    assert_eq!(md.from, "alice");
    assert_eq!(md.message, "hi");
}

#[test]
fn unknown_kind_is_rejected() {
    assert!(decode_envelope("{\"messageType\":\"bogus\",\"dataArray\":null,\"data\":\"x\"}")
        .is_none());
}

#[test]
fn mismatched_payload_field_is_rejected() {
    // A roster envelope must use dataArray, a register envelope data.
    assert!(decode_envelope("{\"messageType\":\"users\",\"dataArray\":null,\"data\":\"x\"}")
        .is_none());
    assert!(
        decode_envelope("{\"messageType\":\"register\",\"dataArray\":[\"a\"],\"data\":null}")
            .is_none()
    );
}

#[test]
fn malformed_text_is_rejected() {
    assert!(decode_envelope("").is_none());
    assert!(decode_envelope("not json at all").is_none());
    assert!(decode_envelope("{\"messageType\":\"register\",\"dataArray\":null,\"data\":\"x\"")
        .is_none());
    assert!(decode_envelope("{\"messageType\":\"register\",\"dataArray\":null,\"data\":\"x\"} ")
        .is_none());
    assert!(decode_message_data("{\"from\":\"alice\"}").is_none());
}

#[test]
fn decoded_strings_are_unescaped() {
    // A decoder that handed the raw text through would keep the backslashes.
    let e = decode_envelope(
        "{\"messageType\":\"register\",\"dataArray\":null,\"data\":\"a\\\"b\\n\"}",
    )
    .unwrap();
    assert_eq!(e.data.unwrap(), "a\"b\n");
}
