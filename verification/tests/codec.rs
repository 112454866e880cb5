//! The wire codec: exact frames, round trips, and the error taxonomy.

use chat_core::codec::decode;
use chat_core::codec::decode_message_data;
use chat_core::codec::encode;
use chat_core::codec::encode_message_data;
use chat_core::DecodeError;
use chat_core::MessageData;
use chat_core::MsgTypes;
use chat_core::WebSocketMessage;

fn b(s: &str) -> Vec<u8> {
    s.as_bytes().to_vec()
}

fn users_envelope(names: &[&str]) -> WebSocketMessage {
    WebSocketMessage {
        message_type: MsgTypes::Users,
        data_array: Some(names.iter().map(|n| b(n)).collect()),
        data: None,
    }
}

#[test]
fn encode_register_exact() {
    let env = WebSocketMessage {
        message_type: MsgTypes::Register,
        data_array: None,
        data: Some(b("alice")),
    };
    assert_eq!(
        encode(&env),
        b(r#"{"messageType":"register","dataArray":null,"data":"alice"}"#)
    );
}

#[test]
fn encode_users_exact() {
    assert_eq!(
        encode(&users_envelope(&["alice", "bob"])),
        b(r#"{"messageType":"users","dataArray":["alice","bob"],"data":null}"#)
    );
}

#[test]
fn encode_users_empty_list_exact() {
    assert_eq!(
        encode(&users_envelope(&[])),
        b(r#"{"messageType":"users","dataArray":[],"data":null}"#)
    );
}

#[test]
fn encode_message_payload_exact() {
    let payload = MessageData { from: b("alice"), message: b("hi") };
    assert_eq!(
        encode_message_data(&payload),
        b(r#"{"from":"alice","message":"hi"}"#)
    );
}

#[test]
fn encode_escapes_quotes_and_backslashes() {
    let payload = MessageData { from: b("a\"b"), message: b("c\\d") };
    assert_eq!(
        encode_message_data(&payload),
        b(r#"{"from":"a\"b","message":"c\\d"}"#)
    );
}

#[test]
fn round_trip_users() {
    let env = users_envelope(&["alice", "bob", "alice"]);
    let back = decode(&encode(&env)).unwrap();
    assert!(matches!(back.message_type, MsgTypes::Users));
    assert_eq!(back.data_array, Some(vec![b("alice"), b("bob"), b("alice")]));
    assert_eq!(back.data, None);
}

#[test]
fn round_trip_register() {
    let env = WebSocketMessage {
        message_type: MsgTypes::Register,
        data_array: None,
        data: Some(b("carol")),
    };
    let back = decode(&encode(&env)).unwrap();
    assert!(matches!(back.message_type, MsgTypes::Register));
    assert_eq!(back.data_array, None);
    assert_eq!(back.data, Some(b("carol")));
}

#[test]
fn round_trip_message_with_escapes() {
    let payload = MessageData { from: b("al\\ice"), message: b("say \"hi\"") };
    let env = WebSocketMessage {
        message_type: MsgTypes::Message,
        data_array: None,
        data: Some(encode_message_data(&payload)),
    };
    let back = decode(&encode(&env)).unwrap();
    assert!(matches!(back.message_type, MsgTypes::Message));
    let nested = decode_message_data(&back.data.unwrap()).unwrap();
    assert_eq!(nested.from, b("al\\ice"));
    assert_eq!(nested.message, b("say \"hi\""));
}

#[test]
fn round_trip_empty_strings() {
    let payload = MessageData { from: b(""), message: b("") };
    let nested = decode_message_data(&encode_message_data(&payload)).unwrap();
    assert_eq!(nested.from, b(""));
    assert_eq!(nested.message, b(""));
}

#[test]
fn users_with_data_set_is_schema_mismatch() {
    let r = decode(&b(r#"{"messageType":"users","dataArray":null,"data":"x"}"#));
    assert_eq!(r.unwrap_err(), DecodeError::SchemaMismatch);
}

#[test]
fn users_with_both_payloads_is_schema_mismatch() {
    let r = decode(&b(r#"{"messageType":"users","dataArray":["a"],"data":"x"}"#));
    assert_eq!(r.unwrap_err(), DecodeError::SchemaMismatch);
}

#[test]
fn register_without_data_is_schema_mismatch() {
    let r = decode(&b(r#"{"messageType":"register","dataArray":null,"data":null}"#));
    assert_eq!(r.unwrap_err(), DecodeError::SchemaMismatch);
}

#[test]
fn unknown_tag_is_schema_mismatch() {
    let r = decode(&b(r#"{"messageType":"presence","dataArray":null,"data":"x"}"#));
    assert_eq!(r.unwrap_err(), DecodeError::SchemaMismatch);
}

#[test]
fn tag_case_is_significant() {
    let r = decode(&b(r#"{"messageType":"Users","dataArray":["a"],"data":null}"#));
    assert_eq!(r.unwrap_err(), DecodeError::SchemaMismatch);
}

#[test]
fn garbage_is_malformed() {
    assert_eq!(decode(&b("not a frame")).unwrap_err(), DecodeError::Malformed);
}

#[test]
fn empty_text_is_malformed() {
    assert_eq!(decode(&b("")).unwrap_err(), DecodeError::Malformed);
}

#[test]
fn truncated_frame_is_malformed() {
    let mut frame = encode(&users_envelope(&["alice"]));
    frame.pop();
    assert_eq!(decode(&frame).unwrap_err(), DecodeError::Malformed);
}

#[test]
fn trailing_bytes_are_malformed() {
    let mut frame = encode(&users_envelope(&["alice"]));
    frame.push(b' ');
    assert_eq!(decode(&frame).unwrap_err(), DecodeError::Malformed);
}

#[test]
fn bad_escape_is_malformed() {
    let r = decode(&b(r#"{"messageType":"register","dataArray":null,"data":"a\nb"}"#));
    assert_eq!(r.unwrap_err(), DecodeError::Malformed);
}

#[test]
fn nested_payload_garbage_is_malformed() {
    assert_eq!(
        decode_message_data(&b("nope")).unwrap_err(),
        DecodeError::Malformed
    );
}

#[test]
fn nested_payload_missing_field_is_malformed() {
    assert_eq!(
        decode_message_data(&b(r#"{"from":"alice"}"#)).unwrap_err(),
        DecodeError::Malformed
    );
}
