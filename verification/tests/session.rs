//! The session state machine: roster replacement, log append, decode
//! failure isolation, and outbound behavior against the transport.

use chat_core::codec::encode;
use chat_core::codec::encode_message_data;
use chat_core::session::avatar_url;
use chat_core::transport::TransportChannel;
use chat_core::Chat;
use chat_core::MessageData;
use chat_core::Msg;
use chat_core::MsgTypes;
use chat_core::WebSocketMessage;

fn b(s: &str) -> Vec<u8> {
    s.as_bytes().to_vec()
}

fn users_frame(names: &[&str]) -> Vec<u8> {
    encode(&WebSocketMessage {
        message_type: MsgTypes::Users,
        data_array: Some(names.iter().map(|n| b(n)).collect()),
        data: None,
    })
}

fn message_frame(from: &str, text: &str) -> Vec<u8> {
    encode(&WebSocketMessage {
        message_type: MsgTypes::Message,
        data_array: None,
        data: Some(encode_message_data(&MessageData {
            from: b(from),
            message: b(text),
        })),
    })
}

fn open_chat(username: &str) -> Chat {
    let mut chat = Chat::create(b(username), TransportChannel::open_with_capacity(16));
    chat.wss.take_outbound();
    chat
}

#[test]
fn create_sends_register_frame() {
    let mut chat = Chat::create(b("alice"), TransportChannel::open_with_capacity(16));
    assert_eq!(
        chat.wss.take_outbound(),
        vec![b(r#"{"messageType":"register","dataArray":null,"data":"alice"}"#)]
    );
    assert!(chat.users().is_empty());
    assert!(chat.messages().is_empty());
}

#[test]
fn create_on_closed_transport_still_yields_a_session() {
    let mut wss = TransportChannel::open_with_capacity(16);
    wss.close();
    let mut chat = Chat::create(b("alice"), wss);
    assert_eq!(chat.wss.take_outbound(), Vec::<Vec<u8>>::new());
    assert!(chat.users().is_empty());
    assert!(chat.messages().is_empty());
}

#[test]
fn roster_replacement() {
    let mut chat = open_chat("dan");
    assert!(chat.update(Msg::HandleMsg(users_frame(&["carol"]))));
    let changed = chat.update(Msg::HandleMsg(users_frame(&["alice", "bob"])));
    assert!(changed);
    let users = chat.users();
    assert_eq!(users.len(), 2);
    assert_eq!(users[0].name, b("alice"));
    assert_eq!(
        users[0].avatar,
        b("https://avatars.dicebear.com/api/adventurer-neutral/alice.svg")
    );
    assert_eq!(users[1].name, b("bob"));
    assert_eq!(
        users[1].avatar,
        b("https://avatars.dicebear.com/api/adventurer-neutral/bob.svg")
    );
}

#[test]
fn roster_keeps_duplicates_in_order() {
    let mut chat = open_chat("dan");
    chat.update(Msg::HandleMsg(users_frame(&["a", "a", "z"])));
    let names: Vec<Vec<u8>> = chat.users().iter().map(|u| u.name.clone()).collect();
    assert_eq!(names, vec![b("a"), b("a"), b("z")]);
}

#[test]
fn message_append() {
    let mut chat = open_chat("dan");
    chat.update(Msg::HandleMsg(users_frame(&["alice", "bob"])));
    let changed = chat.update(Msg::HandleMsg(message_frame("alice", "hi")));
    assert!(changed);
    let log = chat.messages();
    assert_eq!(log.len(), 1);
    assert_eq!(log[0].from, b("alice"));
    assert_eq!(log[0].message, b("hi"));
    assert_eq!(chat.users().len(), 2);
}

#[test]
fn log_only_grows_in_order() {
    let mut chat = open_chat("dan");
    chat.update(Msg::HandleMsg(message_frame("a", "one")));
    chat.update(Msg::HandleMsg(message_frame("b", "two")));
    let log = chat.messages();
    assert_eq!(log.len(), 2);
    assert_eq!(log[0].message, b("one"));
    assert_eq!(log[1].message, b("two"));
}

#[test]
fn decode_failure_isolation() {
    let mut chat = open_chat("dan");
    chat.update(Msg::HandleMsg(users_frame(&["alice"])));
    chat.update(Msg::HandleMsg(message_frame("alice", "hi")));
    let changed = chat.update(Msg::HandleMsg(b("garbage")));
    assert!(!changed);
    assert_eq!(chat.users().len(), 1);
    assert_eq!(chat.messages().len(), 1);
}

#[test]
fn schema_mismatch_leaves_state_unchanged() {
    let mut chat = open_chat("dan");
    chat.update(Msg::HandleMsg(users_frame(&["alice"])));
    let changed = chat.update(Msg::HandleMsg(b(
        r#"{"messageType":"users","dataArray":null,"data":"x"}"#,
    )));
    assert!(!changed);
    assert_eq!(chat.users().len(), 1);
}

#[test]
fn nested_decode_failure_leaves_log_unchanged() {
    let mut chat = open_chat("dan");
    let bad_nested = encode(&WebSocketMessage {
        message_type: MsgTypes::Message,
        data_array: None,
        data: Some(b("not a payload")),
    });
    let changed = chat.update(Msg::HandleMsg(bad_nested));
    assert!(!changed);
    assert!(chat.messages().is_empty());
}

#[test]
fn inbound_register_is_a_no_op() {
    let mut chat = open_chat("dan");
    let frame = encode(&WebSocketMessage {
        message_type: MsgTypes::Register,
        data_array: None,
        data: Some(b("mallory")),
    });
    let changed = chat.update(Msg::HandleMsg(frame));
    assert!(!changed);
    assert!(chat.users().is_empty());
    assert!(chat.messages().is_empty());
}

#[test]
fn submit_message_sends_exact_frame() {
    let mut chat = open_chat("alice");
    let changed = chat.update(Msg::SubmitMessage(b("hi")));
    assert!(!changed);
    assert_eq!(
        chat.wss.take_outbound(),
        vec![b(
            r#"{"messageType":"message","dataArray":null,"data":"{\"from\":\"alice\",\"message\":\"hi\"}"}"#
        )]
    );
}

#[test]
fn send_when_closed_changes_nothing() {
    let mut chat = open_chat("alice");
    chat.update(Msg::HandleMsg(users_frame(&["alice"])));
    chat.wss.close();
    let changed = chat.update(Msg::SubmitMessage(b("lost")));
    assert!(!changed);
    assert_eq!(chat.users().len(), 1);
    assert!(chat.messages().is_empty());
    assert_eq!(chat.wss.take_outbound(), Vec::<Vec<u8>>::new());
}

#[test]
fn send_on_full_buffer_drops_the_frame() {
    let mut chat = Chat::create(b("alice"), TransportChannel::open_with_capacity(1));
    chat.update(Msg::SubmitMessage(b("does not fit")));
    assert_eq!(
        chat.wss.take_outbound(),
        vec![b(r#"{"messageType":"register","dataArray":null,"data":"alice"}"#)]
    );
}

#[test]
fn avatar_url_exact() {
    assert_eq!(
        avatar_url(&b("alice")),
        b("https://avatars.dicebear.com/api/adventurer-neutral/alice.svg")
    );
}

#[test]
fn sender_profile_finds_first_match() {
    let mut chat = open_chat("dan");
    chat.update(Msg::HandleMsg(users_frame(&["alice", "bob"])));
    let p = chat.sender_profile(&b("bob"));
    assert_eq!(p.name, b("bob"));
    assert_eq!(
        p.avatar,
        b("https://avatars.dicebear.com/api/adventurer-neutral/bob.svg")
    );
}

#[test]
fn sender_profile_unknown_is_synthetic() {
    let chat = open_chat("dan");
    let p = chat.sender_profile(&b("ghost"));
    assert_eq!(p.name, b("ghost"));
    assert_eq!(
        p.avatar,
        b("https://avatars.dicebear.com/api/adventurer-neutral/ghost.svg")
    );
}

#[test]
fn username_is_kept() {
    let chat = open_chat("alice");
    assert_eq!(chat.username(), &b("alice"));
}
