//! Tests of the session reducer: roster replacement, message accumulation,
//! the registration send, the no-op branch, and the rendering helpers.

use chat_client::chat::{derive_avatar, is_image_hint, Chat, Msg};
use chat_client::session::login;
use chat_client::wire::{decode_envelope, decode_message_data, MsgTypes};

fn users_event(names: &[&str]) -> String {
    let mut s = String::from("{\"messageType\":\"users\",\"dataArray\":[");
    for (i, n) in names.iter().enumerate() {
        if i > 0 {
            s.push(',');
        }
        s.push('"');
        s.push_str(n);
        s.push('"');
    }
    s.push_str("],\"data\":null}");
    s
}

fn message_event(from: &str, body: &str) -> String {
    format!(
        "{{\"messageType\":\"message\",\"dataArray\":null,\"data\":\"{{\\\"from\\\":\\\"{}\\\",\\\"message\\\":\\\"{}\\\"}}\"}}",
        from, body
    )
}

#[test]
fn roster_event_builds_profiles() {
    let (mut chat, _reg) = Chat::create("me");
    let (render, out) = chat.update(Msg::HandleMsg(users_event(&["alice", "bob"])));
    assert!(render);
    assert!(out.is_none());
    assert_eq!(chat.users.len(), 2);
    assert_eq!(chat.users[0].name, "alice");
    assert_eq!(
        chat.users[0].avatar,
        "https://avatars.dicebear.com/api/adventurer-neutral/alice.svg"
    );
    assert_eq!(chat.users[1].name, "bob");
    assert_eq!(chat.users[1].avatar, derive_avatar("bob"));
}

#[test]
fn roster_is_replaced_wholesale() {
    let (mut chat, _reg) = Chat::create("me");
    chat.update(Msg::HandleMsg(users_event(&["alice", "bob"])));
    chat.update(Msg::HandleMsg(users_event(&["carol"])));
    assert_eq!(chat.users.len(), 1);
    assert_eq!(chat.users[0].name, "carol");
}

#[test]
fn message_event_appends() {
    let (mut chat, _reg) = Chat::create("me");
    let (render, out) = chat.update(Msg::HandleMsg(
        "{\"messageType\":\"message\",\"dataArray\":null,\"data\":\"{\\\"from\\\":\\\"alice\\\",\\\"message\\\":\\\"hi\\\"}\"}"
            .to_string(),
    ));
    assert!(render);
    assert!(out.is_none());
    assert_eq!(chat.messages.len(), 1);
    assert_eq!(chat.messages[0].from, "alice");
    assert_eq!(chat.messages[0].message, "hi");
}

#[test]
fn messages_accumulate_in_arrival_order() {
    let (mut chat, _reg) = Chat::create("me");
    chat.update(Msg::HandleMsg(message_event("a", "one")));
    chat.update(Msg::HandleMsg(message_event("b", "two")));
    chat.update(Msg::HandleMsg(message_event("a", "three")));
    assert_eq!(chat.messages.len(), 3);
    assert_eq!(chat.messages[0].message, "one");
    assert_eq!(chat.messages[1].message, "two");
    assert_eq!(chat.messages[2].message, "three");
}

#[test]
fn unrecognized_kind_is_a_noop() {
    let (mut chat, _reg) = Chat::create("me");
    chat.update(Msg::HandleMsg(users_event(&["alice"])));
    chat.update(Msg::HandleMsg(message_event("alice", "hi")));
    let (render, out) = chat.update(Msg::HandleMsg(
        "{\"messageType\":\"typing\",\"dataArray\":null,\"data\":\"x\"}".to_string(),
    ));
    assert!(!render);
    assert!(out.is_none());
    assert_eq!(chat.users.len(), 1);
    assert_eq!(chat.messages.len(), 1);
}

#[test]
fn malformed_event_is_a_noop() {
    let (mut chat, _reg) = Chat::create("me");
    chat.update(Msg::HandleMsg(users_event(&["alice"])));
    let (render, _) = chat.update(Msg::HandleMsg("garbage".to_string()));
    assert!(!render);
    let (render2, _) = chat.update(Msg::HandleMsg(message_event("a", "").replace("from", "frm")));
    assert!(!render2);
    assert_eq!(chat.users.len(), 1);
    assert!(chat.messages.is_empty());
}

#[test]
fn inbound_register_is_a_noop() {
    let (mut chat, _reg) = Chat::create("me");
    let (render, out) = chat.update(Msg::HandleMsg(
        "{\"messageType\":\"register\",\"dataArray\":null,\"data\":\"eve\"}".to_string(),
    ));
    assert!(!render);
    assert!(out.is_none());
    assert!(chat.users.is_empty());
    assert!(chat.messages.is_empty());
}

#[test]
fn registration_is_sent_at_creation() {
    let (_chat, reg) = Chat::create("alice");
    assert_eq!(
        reg,
        "{\"messageType\":\"register\",\"dataArray\":null,\"data\":\"alice\"}"
    );
    let e = decode_envelope(&reg).unwrap();
    assert!(matches!(e.message_type, MsgTypes::Register));
    assert_eq!(e.data.unwrap(), "alice");
}

#[test]
fn submit_wraps_body_in_message_envelope() {
    let (mut chat, _reg) = Chat::create("alice");
    let (render, out) = chat.update(Msg::SubmitMessage("hi there".to_string()));
    assert!(!render);
    let text = out.unwrap();
    let e = decode_envelope(&text).unwrap();
    assert!(matches!(e.message_type, MsgTypes::Message));
    let md = decode_message_data(&e.data.unwrap()).unwrap();
    assert_eq!(md.from, "alice");
    assert_eq!(md.message, "hi there");
    // Submitting does not touch the renderable state.
    assert!(chat.users.is_empty());
    assert!(chat.messages.is_empty());
}

#[test]
fn gif_suffix_flags_image_rendering() {
    assert!(is_image_hint("cat.gif"));
    assert!(is_image_hint(".gif"));
    assert!(!is_image_hint("gif"));
    assert!(!is_image_hint("cat.gif "));
    assert!(!is_image_hint("plain text"));
    assert!(!is_image_hint("cat.png"));
}

#[test]
fn gif_hint_does_not_alter_storage() {
    let (mut chat, _reg) = Chat::create("me");
    chat.update(Msg::HandleMsg(message_event("a", "cat.gif")));
    assert_eq!(chat.messages[0].message, "cat.gif");
    assert!(is_image_hint(&chat.messages[0].message));
    assert_eq!(chat.messages[0].message, "cat.gif");
}

#[test]
fn avatar_lookup_with_fallback() {
    let (mut chat, _reg) = Chat::create("me");
    chat.update(Msg::HandleMsg(users_event(&["alice", "bob"])));
    assert_eq!(
        chat.avatar_for("bob"),
        "https://avatars.dicebear.com/api/adventurer-neutral/bob.svg"
    );
    // A sender missing from the snapshot gets the derived fallback avatar
    // instead of a failing lookup.
    assert_eq!(chat.avatar_for("mallory"), derive_avatar("mallory"));
}

#[test]
fn empty_roster_clears_users() {
    let (mut chat, _reg) = Chat::create("me");
    chat.update(Msg::HandleMsg(users_event(&["alice"])));
    let (render, _) = chat.update(Msg::HandleMsg(
        "{\"messageType\":\"users\",\"dataArray\":[],\"data\":null}".to_string(),
    ));
    assert!(render);
    assert!(chat.users.is_empty());
}

#[test]
fn submitted_message_round_trips_through_a_peer() {
    let (mut sender, _reg) = Chat::create("alice");
    let (_, out) = sender.update(Msg::SubmitMessage("a \"quoted\"\nline".to_string()));
    let (mut receiver, _reg2) = Chat::create("bob");
    let (render, _) = receiver.update(Msg::HandleMsg(out.unwrap()));
    assert!(render);
    assert_eq!(receiver.messages.len(), 1);
    assert_eq!(receiver.messages[0].from, "alice");
    assert_eq!(receiver.messages[0].message, "a \"quoted\"\nline");
}

#[test]
fn login_accepts_only_nonempty_names() {
    assert!(login("").is_none());
    let u = login("alice").unwrap();
    assert_eq!(u.username, "alice");
}
