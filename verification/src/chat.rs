//! The chat session reducer.
//!
//! A [`Chat`] holds the renderable state of the chat screen: the user roster
//! and the message feed.  It is driven by a single stream of [`Msg`] events:
//! raw inbound envelope text from the socket, and locally authored message
//! bodies to send.  Each event is fully processed before the next one, and
//! the reducer reports whether the screen must re-render and what, if
//! anything, must be pushed onto the outbound channel.
//!
//! Error policy: a malformed or unrecognized inbound event never tears the
//! session down — it is dropped and the state is left untouched.  A message
//! from a sender missing from the latest roster snapshot renders with a
//! derived fallback avatar instead of failing the lookup.

use vstd::prelude::*;

use crate::text::str_to_chars;
use crate::wire::EnvModel;
use crate::wire::MessageData;
use crate::wire::MsgTypes;
use crate::wire::WebSocketMessage;
use crate::wire::decode_envelope;
use crate::wire::decode_message_data;
use crate::wire::encode_envelope;
use crate::wire::encode_message_data;
use crate::wire::spec_decode_envelope;
use crate::wire::spec_decode_msg;
use crate::wire::spec_encode_envelope;
use crate::wire::spec_encode_msg;
use crate::wire::strs_view;

verus! {

// ---------------------------------------------------------------------------
// Roster entries and avatars
// ---------------------------------------------------------------------------

/// The avatar URL derived from a username: a fixed templated endpoint of an
/// external image service, parameterized by the name.
pub open spec fn avatar_of(name: Seq<char>) -> Seq<char> {
    "https://avatars.dicebear.com/api/adventurer-neutral/"@ + name + ".svg"@
}

/// A roster entry: a username and its derived avatar URL.
#[derive(Clone, Debug)]
pub struct UserProfile {
    pub name: String,
    pub avatar: String,
}

/// Derives the avatar URL for a username.
pub fn derive_avatar(name: &str) -> (r: String)
    ensures
        r@ == avatar_of(name@),
{
    let mut s = String::from_str("https://avatars.dicebear.com/api/adventurer-neutral/");
    s.append(name);
    s.append(".svg");
    s
}

// ---------------------------------------------------------------------------
// The mathematical model of the chat state
// ---------------------------------------------------------------------------

/// Model of the renderable state: roster entries as (name, avatar) pairs and
/// messages as (sender, body) pairs, in arrival order.
#[verifier::ext_equal]
pub struct ChatModel {
    pub users: Seq<(Seq<char>, Seq<char>)>,
    pub messages: Seq<(Seq<char>, Seq<char>)>,
}

/// The roster entry a username gives rise to.
pub open spec fn profile_of(name: Seq<char>) -> (Seq<char>, Seq<char>) {
    (name, avatar_of(name))
}

/// The roster a snapshot's name list gives rise to, in order.
pub open spec fn roster_of(names: Seq<Seq<char>>) -> Seq<(Seq<char>, Seq<char>)> {
    names.map_values(|n: Seq<char>| profile_of(n))
}

/// One inbound event applied to the model: the next model and whether the
/// event triggers a re-render.
///
/// A roster snapshot replaces the whole roster; a chat message with a valid
/// payload is appended to the feed; everything else — an inbound `register`
/// envelope, an unrecognized kind, malformed text, a malformed payload — is
/// dropped without touching the state.
pub open spec fn spec_step(m: ChatModel, s: Seq<char>) -> (ChatModel, bool) {
    match spec_decode_envelope(s) {
        Some(env) => match env.kind {
            MsgTypes::Users => (
                ChatModel { users: roster_of(env.roster.unwrap()), messages: m.messages },
                true,
            ),
            MsgTypes::Message => match spec_decode_msg(env.data.unwrap()) {
                Some((from, body)) => (
                    ChatModel { users: m.users, messages: m.messages.push((from, body)) },
                    true,
                ),
                None => (m, false),
            },
            MsgTypes::Register => (m, false),
        },
        None => (m, false),
    }
}

/// A whole stream of inbound events applied in order.
pub open spec fn spec_run(m: ChatModel, events: Seq<Seq<char>>) -> ChatModel
    decreases events.len(),
{
    if events.len() == 0 {
        m
    } else {
        spec_run(spec_step(m, events[0]).0, events.skip(1))
    }
}

/// The register envelope sent when a session starts.
pub open spec fn register_env(name: Seq<char>) -> EnvModel {
    EnvModel { kind: MsgTypes::Register, roster: None, data: Some(name) }
}

/// The envelope that carries a locally authored message.
pub open spec fn outbound_env(from: Seq<char>, body: Seq<char>) -> EnvModel {
    EnvModel { kind: MsgTypes::Message, roster: None, data: Some(spec_encode_msg(from, body)) }
}

// ---------------------------------------------------------------------------
// The chat session state
// ---------------------------------------------------------------------------

/// An inbound or locally originated event of the chat screen.
pub enum Msg {
    /// Raw envelope text delivered by the socket.
    HandleMsg(String),
    /// A message body the user submitted for sending.
    SubmitMessage(String),
}

/// The state of one chat session.
///
/// `sent` is the (ghost) log of every envelope handed to the outbound
/// channel, in order; it carries the guarantee that the register envelope
/// goes out first.
pub struct Chat {
    pub username: String,
    pub users: Vec<UserProfile>,
    pub messages: Vec<MessageData>,
    pub sent: Ghost<Seq<EnvModel>>,
}

impl Chat {
    /// Model of this session's renderable state.
    pub open spec fn model(self) -> ChatModel {
        ChatModel {
            users: self.users@.map_values(|u: UserProfile| (u.name@, u.avatar@)),
            messages: self.messages@.map_values(|m: MessageData| (m.from@, m.message@)),
        }
    }

    /// Session invariant: the first envelope ever sent is the registration,
    /// every later one is a chat message, and every roster entry carries the
    /// avatar derived from its name.
    pub open spec fn inv(self) -> bool {
        &&& self.sent@.len() >= 1
        &&& self.sent@[0] == register_env(self.username@)
        &&& (forall|i: int| 1 <= i < self.sent@.len() ==> (#[trigger] self.sent@[i]).kind is Message)
        &&& (forall|i: int|
            0 <= i < self.users@.len() ==> (#[trigger] self.users@[i]).avatar@ == avatar_of(
                self.users@[i].name@,
            ))
    }

    /// Opens a chat session for a registered username.  The state starts
    /// empty, and the returned string is the registration envelope, which the
    /// connection layer must send before anything else.
    pub fn create(username: &str) -> (r: (Chat, String))
        ensures
            r.0.inv(),
            r.0.username@ == username@,
            r.0.model().users == Seq::<(Seq<char>, Seq<char>)>::empty(),
            r.0.model().messages == Seq::<(Seq<char>, Seq<char>)>::empty(),
            r.0.sent@ == seq![register_env(username@)],
            r.1@ == spec_encode_envelope(register_env(username@)),
    {
        let e = WebSocketMessage {
            message_type: MsgTypes::Register,
            data_array: None,
            data: Some(username.to_owned()),
        };
        let out = encode_envelope(&e);
        let ghost sent0 = seq![register_env(username@)];
        let c = Chat {
            username: username.to_owned(),
            users: Vec::new(),
            messages: Vec::new(),
            sent: Ghost(sent0),
        };
        proof {
            assert(c.model().users =~= Seq::<(Seq<char>, Seq<char>)>::empty());
            assert(c.model().messages =~= Seq::<(Seq<char>, Seq<char>)>::empty());
        }
        (c, out)
    }

    /// Processes one event.  Returns whether the screen must re-render and
    /// the envelope text to push onto the outbound channel, if any.
    ///
    /// An inbound event changes the state exactly as `spec_step` says and
    /// sends nothing.  A submitted body leaves the state unchanged and yields
    /// a message envelope carrying `{"from": username, "message": body}`.
    pub fn update(&mut self, msg: Msg) -> (r: (bool, Option<String>))
        requires
            old(self).inv(),
        ensures
            final(self).inv(),
            final(self).username@ == old(self).username@,
            match msg {
                Msg::HandleMsg(s) => {
                    &&& r.1 is None
                    &&& final(self).sent@ == old(self).sent@
                    &&& final(self).model() == spec_step(old(self).model(), s@).0
                    &&& r.0 == spec_step(old(self).model(), s@).1
                },
                Msg::SubmitMessage(body) => {
                    &&& r.0 == false
                    &&& final(self).model() == old(self).model()
                    &&& (r.1 matches Some(out) && out@ == spec_encode_envelope(
                        outbound_env(old(self).username@, body@),
                    ))
                    &&& final(self).sent@ == old(self).sent@.push(
                        outbound_env(old(self).username@, body@),
                    )
                },
            },
    {
        match msg {
            Msg::HandleMsg(s) => {
                let env = match decode_envelope(s.as_str()) {
                    Some(env) => env,
                    None => {
                        return (false, None);
                    },
                };
                let ghost gm = crate::wire::env_model(env);
                match env.message_type {
                    MsgTypes::Users => {
                        let names = env.data_array.unwrap();
                        let mut users: Vec<UserProfile> = Vec::new();
                        let mut k: usize = 0;
                        while k < names.len()
                            invariant
                                k <= names@.len(),
                                users@.len() == k,
                                forall|q: int|
                                    0 <= q < k ==> (#[trigger] users@[q]).name@ == names@[q]@
                                        && users@[q].avatar@ == avatar_of(names@[q]@),
                            decreases names@.len() - k,
                        {
                            let name = names[k].clone();
                            let avatar = derive_avatar(names[k].as_str());
                            users.push(UserProfile { name, avatar });
                            k = k + 1;
                        }
                        self.users = users;
                        proof {
                            assert(self.model().users =~= roster_of(strs_view(names@)));
                            assert(gm.roster == Some(strs_view(names@)));
                            assert(self.model() =~= spec_step(old(self).model(), s@).0);
                        }
                        (true, None)
                    },
                    MsgTypes::Message => {
                        let d = env.data.unwrap();
                        match decode_message_data(d.as_str()) {
                            Some(md) => {
                                self.messages.push(md);
                                proof {
                                    assert(self.model().messages =~= old(self).model().messages.push(
                                        (md.from@, md.message@),
                                    ));
                                    assert(self.model() =~= spec_step(old(self).model(), s@).0);
                                }
                                (true, None)
                            },
                            None => (false, None),
                        }
                    },
                    MsgTypes::Register => (false, None),
                }
            },
            Msg::SubmitMessage(body) => {
                let payload = encode_message_data(self.username.as_str(), body.as_str());
                let e = WebSocketMessage {
                    message_type: MsgTypes::Message,
                    data_array: None,
                    data: Some(payload),
                };
                let out = encode_envelope(&e);
                self.sent = Ghost(self.sent@.push(outbound_env(self.username@, body@)));
                (false, Some(out))
            },
        }
    }
}

// ---------------------------------------------------------------------------
// Rendering helpers
// ---------------------------------------------------------------------------

/// Avatar of the first roster entry with the given name, if any.
pub open spec fn spec_lookup_avatar(
    users: Seq<(Seq<char>, Seq<char>)>,
    name: Seq<char>,
) -> Option<Seq<char>>
    decreases users.len(),
{
    if users.len() == 0 {
        None
    } else if users[0].0 == name {
        Some(users[0].1)
    } else {
        spec_lookup_avatar(users.skip(1), name)
    }
}

/// A lookup skips any unmatched prefix.
proof fn lemma_lookup_skip(users: Seq<(Seq<char>, Seq<char>)>, name: Seq<char>, k: int)
    requires
        0 <= k <= users.len(),
        forall|i: int| 0 <= i < k ==> (#[trigger] users[i]).0 != name,
    ensures
        spec_lookup_avatar(users, name) == spec_lookup_avatar(users.skip(k), name),
    decreases k,
{
    if k > 0 {
        lemma_lookup_skip(users, name, k - 1);
        assert(users.skip(k - 1).len() > 0);
        assert(users[k - 1].0 != name);
        assert(users.skip(k - 1)[0] == users[k - 1]);
        assert(users.skip(k - 1).skip(1) =~= users.skip(k));
        assert(spec_lookup_avatar(users.skip(k - 1), name) == spec_lookup_avatar(
            users.skip(k),
            name,
        ));
    } else {
        assert(users.skip(0) =~= users);
    }
}

/// Compares two string slices character by character.
fn str_eq(a: &str, b: &str) -> (r: bool)
    ensures
        r == (a@ == b@),
{
    let n = a.unicode_len();
    if b.unicode_len() != n {
        proof {
            assert(a@ != b@) by {
                assert(a@.len() != b@.len());
            }
        }
        return false;
    }
    let mut k: usize = 0;
    while k < n
        invariant
            n == a@.len() == b@.len(),
            k <= n,
            forall|q: int| 0 <= q < k ==> a@[q] == b@[q],
        decreases n - k,
    {
        if a.get_char(k) != b.get_char(k) {
            proof {
                assert(a@ != b@) by {
                    assert(a@[k as int] != b@[k as int]);
                }
            }
            return false;
        }
        k = k + 1;
    }
    proof {
        assert(a@ =~= b@);
    }
    true
}

/// A message body ends in ".gif": the hint that it renders as an image
/// rather than as text.  Purely a rendering decision — storage is never
/// affected by it.
pub open spec fn ends_with_gif(s: Seq<char>) -> bool {
    s.len() >= 4 && s.subrange(s.len() - 4, s.len() as int) == ".gif"@
}

/// Decides whether a message body is rendered as an image.
pub fn is_image_hint(body: &str) -> (r: bool)
    ensures
        r == ends_with_gif(body@),
{
    proof {
        reveal_strlit(".gif");
    }
    let n = body.unicode_len();
    if n < 4 {
        return false;
    }
    let r = body.get_char(n - 4) == '.' && body.get_char(n - 3) == 'g'
        && body.get_char(n - 2) == 'i' && body.get_char(n - 1) == 'f';
    proof {
        if r {
            assert(body@.subrange(n - 4, n as int) =~= ".gif"@);
        } else {
            assert(body@.subrange(n - 4, n as int) != ".gif"@) by {
                if body@[n - 4] != '.' {
                    assert(body@.subrange(n - 4, n as int)[0] != ".gif"@[0]);
                } else if body@[n - 3] != 'g' {
                    assert(body@.subrange(n - 4, n as int)[1] != ".gif"@[1]);
                } else if body@[n - 2] != 'i' {
                    assert(body@.subrange(n - 4, n as int)[2] != ".gif"@[2]);
                } else {
                    assert(body@.subrange(n - 4, n as int)[3] != ".gif"@[3]);
                }
            }
        }
    }
    r
}

impl Chat {
    /// Avatar to render for a message sender: the avatar of the first roster
    /// entry with that name, or, when the sender is missing from the latest
    /// snapshot, the avatar derived from the name as a fallback.
    pub fn avatar_for(&self, name: &str) -> (r: String)
        ensures
            r@ == match spec_lookup_avatar(self.model().users, name@) {
                Some(a) => a,
                None => avatar_of(name@),
            },
    {
        let ghost musers = self.model().users;
        let n = self.users.len();
        let mut k: usize = 0;
        while k < n
            invariant
                n == self.users@.len(),
                k <= n,
                musers == self.model().users,
                forall|i: int| 0 <= i < k ==> (#[trigger] musers[i]).0 != name@,
            decreases n - k,
        {
            if str_eq(self.users[k].name.as_str(), name) {
                proof {
                    lemma_lookup_skip(musers, name@, k as int);
                    assert(musers.skip(k as int)[0] == musers[k as int]);
                }
                return self.users[k].avatar.clone();
            }
            proof {
                assert(musers[k as int].0 == self.users@[k as int].name@);
            }
            k = k + 1;
        }
        proof {
            lemma_lookup_skip(musers, name@, n as int);
            assert(musers.skip(n as int).len() == 0);
        }
        derive_avatar(name)
    }
}

// ---------------------------------------------------------------------------
// Laws of the reducer
// ---------------------------------------------------------------------------

/// An inbound event that is a roster snapshot.
pub open spec fn is_roster_event(s: Seq<char>) -> bool {
    spec_decode_envelope(s) is Some && spec_decode_envelope(s).unwrap().kind is Users
}

/// The name list a roster snapshot carries.
pub open spec fn roster_names(s: Seq<char>) -> Seq<Seq<char>> {
    spec_decode_envelope(s).unwrap().roster.unwrap()
}

/// An inbound event that is a chat message with a well-formed payload.
pub open spec fn is_message_event(s: Seq<char>) -> bool {
    &&& spec_decode_envelope(s) is Some
    &&& spec_decode_envelope(s).unwrap().kind is Message
    &&& spec_decode_msg(spec_decode_envelope(s).unwrap().data.unwrap()) is Some
}

/// The (sender, body) pair a chat-message event carries.
pub open spec fn message_payload(s: Seq<char>) -> (Seq<char>, Seq<char>) {
    spec_decode_msg(spec_decode_envelope(s).unwrap().data.unwrap()).unwrap()
}

/// For any stream made solely of roster-snapshot events, the roster after
/// processing equals exactly the list in the most recent event — a full
/// replacement, not a merge — and the message feed is untouched.
pub proof fn lemma_roster_is_last_snapshot(m: ChatModel, events: Seq<Seq<char>>)
    requires
        events.len() > 0,
        forall|i: int| 0 <= i < events.len() ==> is_roster_event(#[trigger] events[i]),
    ensures
        spec_run(m, events).users == roster_of(roster_names(events[events.len() - 1])),
        spec_run(m, events).messages == m.messages,
    decreases events.len(),
{
    let m1 = spec_step(m, events[0]).0;
    let tail = events.skip(1);
    if events.len() == 1 {
        assert(tail.len() == 0);
        assert(spec_run(m1, tail) == m1);
        assert(spec_run(m, events) == m1);
    } else {
        assert forall|i: int| 0 <= i < tail.len() implies is_roster_event(#[trigger] tail[i]) by {
            assert(tail[i] == events[i + 1]);
        }
        lemma_roster_is_last_snapshot(m1, tail);
        assert(tail[tail.len() - 1] == events[events.len() - 1]);
    }
}

/// For any stream of N chat-message events, the message feed grows by
/// exactly N entries, the entries already present are untouched, the new
/// entries carry the events' payloads in arrival order, and the roster is
/// unchanged.
pub proof fn lemma_messages_in_arrival_order(m: ChatModel, events: Seq<Seq<char>>)
    requires
        forall|i: int| 0 <= i < events.len() ==> is_message_event(#[trigger] events[i]),
    ensures
        spec_run(m, events).users == m.users,
        spec_run(m, events).messages.len() == m.messages.len() + events.len(),
        forall|i: int|
            0 <= i < m.messages.len() ==> spec_run(m, events).messages[i] == m.messages[i],
        forall|i: int|
            0 <= i < events.len() ==> spec_run(m, events).messages[m.messages.len() + i]
                == message_payload(#[trigger] events[i]),
    decreases events.len(),
{
    if events.len() > 0 {
        let m1 = spec_step(m, events[0]).0;
        let tail = events.skip(1);
        assert(m1.messages == m.messages.push(message_payload(events[0])));
        assert forall|i: int| 0 <= i < tail.len() implies is_message_event(#[trigger] tail[i]) by {
            assert(tail[i] == events[i + 1]);
        }
        lemma_messages_in_arrival_order(m1, tail);
        let r = spec_run(m, events);
        assert(r == spec_run(m1, tail));
        assert forall|i: int| 0 <= i < m.messages.len() implies r.messages[i]
            == m.messages[i] by {
            assert(r.messages[i] == m1.messages[i]);
            assert(m1.messages[i] == m.messages[i]);
        }
        assert forall|i: int|
            0 <= i < events.len() implies r.messages[m.messages.len() + i] == message_payload(
            #[trigger] events[i],
        ) by {
            if i == 0 {
                assert(m1.messages[m.messages.len() as int] == message_payload(events[0]));
                assert(r.messages[m.messages.len() as int]
                    == m1.messages[m.messages.len() as int]);
            } else {
                assert(tail[i - 1] == events[i]);
                assert(r.messages[m1.messages.len() + (i - 1)] == message_payload(tail[i - 1]));
            }
        }
    }
}

/// The registration send comes first: in every reachable session the first
/// entry of the outbound log is the register envelope carrying the session
/// username, and every chat-message send stands strictly after it.
pub proof fn lemma_register_precedes_sends(c: Chat)
    requires
        c.inv(),
    ensures
        c.sent@.len() >= 1,
        c.sent@[0] == register_env(c.username@),
        forall|i: int|
            0 <= i < c.sent@.len() && (#[trigger] c.sent@[i]).kind is Message ==> i >= 1,
{
    assert(c.sent@[0].kind is Register);
}

/// A message sent by this client arrives intact: feeding the envelope that
/// `update` emits for a submitted body to any receiving reducer appends
/// exactly one feed entry carrying that sender and body, and triggers a
/// re-render.
pub proof fn lemma_sent_messages_arrive_intact(m: ChatModel, name: Seq<char>, body: Seq<char>)
    ensures
        spec_step(m, spec_encode_envelope(outbound_env(name, body))) == (ChatModel {
            users: m.users,
            messages: m.messages.push((name, body)),
        }, true),
{
    crate::wire::lemma_envelope_round_trip(outbound_env(name, body));
    crate::wire::lemma_msg_round_trip(name, body);
}

/// An event that is neither a roster snapshot nor a well-formed chat message
/// — an unrecognized kind, malformed text, an inbound register envelope, or
/// a message envelope with a malformed payload — leaves roster and message
/// state unchanged and triggers no re-render.
pub proof fn lemma_unhandled_event_is_noop(m: ChatModel, s: Seq<char>)
    requires
        !is_roster_event(s),
        !is_message_event(s),
    ensures
        spec_step(m, s) == (m, false),
{
}

} // verus!
