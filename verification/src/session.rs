//! The chat session: the state machine owning the user roster and the
//! message log.
//!
//! A session is created with the local username and the transport channel;
//! creation sends a `Register` envelope (a failure there is not fatal).
//! Inbound frames arrive through [`Msg::HandleMsg`]: a `Users` event
//! replaces the roster wholesale, a `Message` event appends one entry to
//! the log, anything that fails to decode is discarded with the state
//! untouched. [`Msg::SubmitMessage`] builds a `Message` envelope around
//! the input text and offers it to the transport. [`Chat::update`] returns
//! whether the state changed, so a presentation layer knows when to read
//! the snapshot again.

use vstd::prelude::*;

use crate::codec::bytes_eq;
use crate::codec::copy_bytes;
use crate::codec::decode;
use crate::codec::decode_message_data;
use crate::codec::decode_message_spec;
use crate::codec::decode_spec;
use crate::codec::encode;
use crate::codec::encode_message_data;
use crate::codec::encode_message_spec;
use crate::codec::encode_spec;
use crate::codec::EnvView;
use crate::codec::MessageData;
use crate::codec::MessageDataView;
use crate::codec::MsgTypes;
use crate::codec::WebSocketMessage;
use crate::transport::TransportChannel;
use crate::transport::TransportView;

verus! {

/// The bytes of `https://avatars.dicebear.com/api/adventurer-neutral/`.
pub open spec fn avatar_prefix() -> Seq<u8> {
    seq![104u8, 116, 116, 112, 115, 58, 47, 47, 97, 118, 97, 116, 97, 114, 115, 46, 100, 105, 99,
        101, 98, 101, 97, 114, 46, 99, 111, 109, 47, 97, 112, 105, 47, 97, 100, 118, 101, 110,
        116, 117, 114, 101, 114, 45, 110, 101, 117, 116, 114, 97, 108, 47]
}

/// The bytes of `.svg`.
pub open spec fn avatar_suffix() -> Seq<u8> {
    seq![46u8, 115, 118, 103]
}

/// The avatar URL is a pure function of the name: prefix, name, `.svg`.
pub open spec fn avatar_url_spec(name: Seq<u8>) -> Seq<u8> {
    avatar_prefix() + name + avatar_suffix()
}

fn push_avatar_prefix(out: &mut Vec<u8>)
    ensures
        final(out)@ == old(out)@ + avatar_prefix(),
{
    out.push(104);
    out.push(116);
    out.push(116);
    out.push(112);
    out.push(115);
    out.push(58);
    out.push(47);
    out.push(47);
    out.push(97);
    out.push(118);
    out.push(97);
    out.push(116);
    out.push(97);
    out.push(114);
    out.push(115);
    out.push(46);
    out.push(100);
    out.push(105);
    out.push(99);
    out.push(101);
    out.push(98);
    out.push(101);
    out.push(97);
    out.push(114);
    out.push(46);
    out.push(99);
    out.push(111);
    out.push(109);
    out.push(47);
    out.push(97);
    out.push(112);
    out.push(105);
    out.push(47);
    out.push(97);
    out.push(100);
    out.push(118);
    out.push(101);
    out.push(110);
    out.push(116);
    out.push(117);
    out.push(114);
    out.push(101);
    out.push(114);
    out.push(45);
    out.push(110);
    out.push(101);
    out.push(117);
    out.push(116);
    out.push(114);
    out.push(97);
    out.push(108);
    out.push(47);
    assert(out@ =~= old(out)@ + avatar_prefix());
}

/// Derives the avatar URL for a name.
pub fn avatar_url(name: &Vec<u8>) -> (out: Vec<u8>)
    ensures
        out@ == avatar_url_spec(name@),
{
    let mut out: Vec<u8> = Vec::new();
    push_avatar_prefix(&mut out);
    let mut k: usize = 0;
    while k < name.len()
        invariant
            k <= name@.len(),
            out@ == avatar_prefix() + name@.subrange(0, k as int),
        decreases name@.len() - k,
    {
        out.push(name[k]);
        proof {
            assert(out@ =~= avatar_prefix() + name@.subrange(0, k as int + 1));
        }
        k = k + 1;
    }
    proof {
        assert(name@.subrange(0, name@.len() as int) =~= name@);
    }
    out.push(46);
    out.push(115);
    out.push(118);
    out.push(103);
    assert(out@ =~= avatar_url_spec(name@));
    out
}

/// A participant as the presentation layer sees one: the name, and the
/// avatar URL derived from it.
pub struct UserProfile {
    pub name: Vec<u8>,
    pub avatar: Vec<u8>,
}

/// The mathematical value of a [`UserProfile`].
#[verifier::ext_equal]
pub struct UserProfileView {
    pub name: Seq<u8>,
    pub avatar: Seq<u8>,
}

impl View for UserProfile {
    type V = UserProfileView;

    open spec fn view(&self) -> UserProfileView {
        UserProfileView { name: self.name@, avatar: self.avatar@ }
    }
}

impl DeepView for UserProfile {
    type V = UserProfileView;

    open spec fn deep_view(&self) -> UserProfileView {
        self.view()
    }
}

/// The one profile a name yields.
pub open spec fn profile_spec(name: Seq<u8>) -> UserProfileView {
    UserProfileView { name: name, avatar: avatar_url_spec(name) }
}

/// The roster a `Users` event yields: one profile per name, in input
/// order, duplicates kept.
pub open spec fn roster_spec(names: Seq<Seq<u8>>) -> Seq<UserProfileView> {
    names.map_values(|n: Seq<u8>| profile_spec(n))
}

/// What a session reacts to: an inbound raw frame, or the local user
/// submitting the text of a message.
pub enum Msg {
    HandleMsg(Vec<u8>),
    SubmitMessage(Vec<u8>),
}

/// The mathematical value of a [`Chat`] session.
#[verifier::ext_equal]
pub struct ChatView {
    pub username: Seq<u8>,
    pub users: Seq<UserProfileView>,
    pub messages: Seq<MessageDataView>,
    pub wss: TransportView,
}

/// The frame that registers `username`.
pub open spec fn register_frame_spec(username: Seq<u8>) -> Seq<u8> {
    encode_spec(
        EnvView { kind: MsgTypes::Register, arr: Option::None, text: Option::Some(username) },
    )
}

/// The frame that carries a message `text` from `username`.
pub open spec fn submit_frame_spec(username: Seq<u8>, text: Seq<u8>) -> Seq<u8> {
    encode_spec(
        EnvView {
            kind: MsgTypes::Message,
            arr: Option::None,
            text: Option::Some(
                encode_message_spec(MessageDataView { from: username, message: text }),
            ),
        },
    )
}

/// What one inbound frame does to the session state, and whether the
/// state changed. A frame that fails to decode — or whose nested payload
/// does — changes nothing; a `Users` event replaces the roster wholesale;
/// a `Message` event appends one log entry; an inbound `Register` is a
/// no-op.
pub open spec fn step_spec(st: ChatView, frame: Seq<u8>) -> (ChatView, bool) {
    match decode_spec(frame) {
        Result::Err(_) => (st, false),
        Result::Ok(env) => match env.kind {
            MsgTypes::Users => match env.arr {
                Option::Some(names) => (ChatView { users: roster_spec(names), ..st }, true),
                Option::None => (st, false),
            },
            MsgTypes::Message => match env.text {
                Option::Some(txt) => match decode_message_spec(txt) {
                    Result::Ok(m) => (ChatView { messages: st.messages.push(m), ..st }, true),
                    Result::Err(_) => (st, false),
                },
                Option::None => (st, false),
            },
            MsgTypes::Register => (st, false),
        },
    }
}

/// The chat session. The roster and the log are written only by
/// [`Chat::update`]; the presentation layer reads them through
/// [`Chat::users`] and [`Chat::messages`].
pub struct Chat {
    username: Vec<u8>,
    users: Vec<UserProfile>,
    messages: Vec<MessageData>,
    /// The transport the session sends through.
    pub wss: TransportChannel,
}

impl View for Chat {
    type V = ChatView;

    closed spec fn view(&self) -> ChatView {
        ChatView {
            username: self.username@,
            users: self.users.deep_view(),
            messages: self.messages.deep_view(),
            wss: self.wss@,
        }
    }
}

/// Builds one profile per name, in input order, duplicates kept.
fn build_roster(names: &Vec<Vec<u8>>) -> (roster: Vec<UserProfile>)
    ensures
        roster.deep_view() == roster_spec(names.deep_view()),
{
    let mut roster: Vec<UserProfile> = Vec::new();
    let mut k: usize = 0;
    while k < names.len()
        invariant
            k <= names@.len(),
            roster.deep_view() == roster_spec(names.deep_view().subrange(0, k as int)),
        decreases names@.len() - k,
    {
        let name = copy_bytes(&names[k]);
        let avatar = avatar_url(&names[k]);
        let ghost prior = roster.deep_view();
        let p = UserProfile { name, avatar };
        let ghost pv = p@;
        roster.push(p);
        proof {
            let all = names.deep_view();
            let sub1 = all.subrange(0, k as int + 1);
            assert(roster.deep_view() =~~= prior.push(pv));
            assert(all[k as int] =~= names@[k as int]@);
            assert(pv =~~= profile_spec(all[k as int]));
            assert forall|i: int| 0 <= i < k + 1 implies prior.push(pv)[i] == roster_spec(
                sub1,
            )[i] by {
                assert(roster_spec(sub1)[i] == profile_spec(sub1[i]));
                assert(sub1[i] == all[i]);
                if i < k {
                    let sub0 = all.subrange(0, k as int);
                    assert(prior[i] == roster_spec(sub0)[i]);
                    assert(roster_spec(sub0)[i] == profile_spec(sub0[i]));
                    assert(sub0[i] == all[i]);
                }
            }
            assert(prior.push(pv) =~= roster_spec(sub1));
        }
        k = k + 1;
    }
    proof {
        assert(names.deep_view().subrange(0, names.deep_view().len() as int) =~~= names.deep_view());
    }
    roster
}

impl Chat {
    /// Starts a session: empty roster, empty log, and a `Register`
    /// envelope for `username` offered to the transport. A send failure
    /// there is not fatal: the session exists either way, the frame is
    /// simply dropped.
    pub fn create(username: Vec<u8>, wss: TransportChannel) -> (c: Chat)
        ensures
            c@.username == username@,
            c@.users == Seq::<UserProfileView>::empty(),
            c@.messages == Seq::<MessageDataView>::empty(),
            wss@.can_send() ==> c@.wss == (TransportView {
                outbox: wss@.outbox.push(register_frame_spec(username@)),
                ..wss@
            }),
            !wss@.can_send() ==> c@.wss == wss@,
    {
        let data = copy_bytes(&username);
        let env = WebSocketMessage {
            message_type: MsgTypes::Register,
            data_array: Option::None,
            data: Option::Some(data),
        };
        proof {
            assert(env@.text matches Some(t) && t =~= username@);
            assert(env@ =~~= EnvView {
                kind: MsgTypes::Register,
                arr: Option::None,
                text: Option::Some(username@),
            });
        }
        let frame = encode(&env);
        let mut wss = wss;
        let _ = wss.send(frame);
        let c = Chat { username, users: Vec::new(), messages: Vec::new(), wss };
        proof {
            assert(c@.users =~~= Seq::<UserProfileView>::empty());
            assert(c@.messages =~~= Seq::<MessageDataView>::empty());
        }
        c
    }

    /// The local username the session registered with.
    pub fn username(&self) -> (u: &Vec<u8>)
        ensures
            u@ == self@.username,
    {
        &self.username
    }

    /// The current roster, for the presentation layer to read.
    pub fn users(&self) -> (u: &Vec<UserProfile>)
        ensures
            u.deep_view() == self@.users,
    {
        &self.users
    }

    /// The message log, for the presentation layer to read. Only
    /// [`Chat::update`] ever appends to it; nothing truncates or reorders
    /// it.
    pub fn messages(&self) -> (m: &Vec<MessageData>)
        ensures
            m.deep_view() == self@.messages,
    {
        &self.messages
    }

    /// One step of the state machine. An inbound frame is decoded and
    /// applied as [`step_spec`] says — a decode failure leaves the state
    /// untouched and is not a fault. A submitted text becomes a `Message`
    /// envelope offered to the transport; the state does not change, and
    /// a send failure only drops the frame. Returns whether the state
    /// changed.
    pub fn update(&mut self, msg: Msg) -> (changed: bool)
        ensures
            msg matches Msg::HandleMsg(frame) ==> final(self)@ == step_spec(
                old(self)@,
                frame@,
            ).0 && changed == step_spec(old(self)@, frame@).1,
            msg matches Msg::SubmitMessage(text) ==> {
                &&& !changed
                &&& final(self)@.username == old(self)@.username
                &&& final(self)@.users == old(self)@.users
                &&& final(self)@.messages == old(self)@.messages
                &&& (old(self)@.wss.can_send() ==> final(self)@.wss == (TransportView {
                    outbox: old(self)@.wss.outbox.push(
                        submit_frame_spec(old(self)@.username, text@),
                    ),
                    ..old(self)@.wss
                }))
                &&& (!old(self)@.wss.can_send() ==> final(self)@.wss == old(self)@.wss)
            },
    {
        match msg {
            Msg::HandleMsg(frame) => {
                match decode(&frame) {
                    Result::Err(_) => false,
                    Result::Ok(m) => {
                        match m.message_type {
                            MsgTypes::Users => {
                                match m.data_array {
                                    Option::Some(names) => {
                                        let roster = build_roster(&names);
                                        self.users = roster;
                                        proof {
                                            assert(m@.arr matches Some(a) && a
                                                =~~= names.deep_view());
                                            assert(self@ =~~= step_spec(old(self)@, frame@).0);
                                        }
                                        true
                                    }
                                    Option::None => false,
                                }
                            }
                            MsgTypes::Message => {
                                match m.data {
                                    Option::Some(d) => {
                                        match decode_message_data(&d) {
                                            Result::Ok(md) => {
                                                proof {
                                                    assert(m@.text matches Some(t) && t =~= d@);
                                                }
                                                self.messages.push(md);
                                                proof {
                                                    assert(self@.messages =~~= old(
                                                        self,
                                                    )@.messages.push(md@));
                                                    assert(self@ =~~= step_spec(
                                                        old(self)@,
                                                        frame@,
                                                    ).0);
                                                }
                                                true
                                            }
                                            Result::Err(_) => {
                                                proof {
                                                    assert(m@.text matches Some(t) && t =~= d@);
                                                }
                                                false
                                            }
                                        }
                                    }
                                    Option::None => false,
                                }
                            }
                            MsgTypes::Register => false,
                        }
                    }
                }
            }
            Msg::SubmitMessage(text) => {
                let from = copy_bytes(&self.username);
                let payload = MessageData { from, message: text };
                let nested = encode_message_data(&payload);
                let env = WebSocketMessage {
                    message_type: MsgTypes::Message,
                    data_array: Option::None,
                    data: Option::Some(nested),
                };
                proof {
                    assert(env@ =~~= EnvView {
                        kind: MsgTypes::Message,
                        arr: Option::None,
                        text: Option::Some(
                            encode_message_spec(
                                MessageDataView { from: self@.username, message: payload@.message },
                            ),
                        ),
                    });
                }
                let frame = encode(&env);
                let _ = self.wss.send(frame);
                false
            }
        }
    }

    /// The profile a message from `name` is shown with: the first roster
    /// entry carrying that name, or, when the roster has none, a synthetic
    /// profile derived from the name itself — never a guess at some other
    /// participant.
    pub fn sender_profile(&self, name: &Vec<u8>) -> (p: UserProfile)
        ensures
            p@ == find_profile_spec(self@.users, name@),
    {
        lookup_profile_from(&self.users, name, 0)
    }
}

/// The log is append-only: one step never removes, reorders or rewrites
/// an entry — whatever the frame was, the old log is a prefix of the new
/// one, and at most one entry is added.
pub proof fn lemma_step_log_append_only(st: ChatView, frame: Seq<u8>)
    ensures
        step_spec(st, frame).0.messages.len() >= st.messages.len(),
        step_spec(st, frame).0.messages.len() <= st.messages.len() + 1,
        step_spec(st, frame).0.messages.subrange(0, st.messages.len() as int) == st.messages,
{
    assert(st.messages.subrange(0, st.messages.len() as int) =~= st.messages);
    let new = step_spec(st, frame).0.messages;
    if new.len() == st.messages.len() + 1 {
        assert(new.subrange(0, st.messages.len() as int) =~= st.messages);
    }
}

/// The profile lookup: the first entry of `roster` at or after `i` whose
/// name is `name`, or the synthetic profile of `name`.
pub open spec fn find_profile_from(roster: Seq<UserProfileView>, name: Seq<u8>, i: int) -> UserProfileView
    decreases roster.len() - i,
{
    if i < 0 || i >= roster.len() {
        profile_spec(name)
    } else if roster[i].name == name {
        roster[i]
    } else {
        find_profile_from(roster, name, i + 1)
    }
}

/// The profile lookup over the whole roster.
pub open spec fn find_profile_spec(roster: Seq<UserProfileView>, name: Seq<u8>) -> UserProfileView {
    find_profile_from(roster, name, 0)
}

fn lookup_profile_from(roster: &Vec<UserProfile>, name: &Vec<u8>, i: usize) -> (p: UserProfile)
    ensures
        p@ == find_profile_from(roster.deep_view(), name@, i as int),
    decreases roster@.len() - i,
{
    if i >= roster.len() {
        let avatar = avatar_url(name);
        let p = UserProfile { name: copy_bytes(name), avatar };
        proof {
            assert(p@ =~~= profile_spec(name@));
        }
        p
    } else if bytes_eq(&roster[i].name, name) {
        let p = UserProfile {
            name: copy_bytes(&roster[i].name),
            avatar: copy_bytes(&roster[i].avatar),
        };
        proof {
            assert(roster.deep_view()[i as int] =~~= roster@[i as int]@);
            assert(p@ =~~= roster.deep_view()[i as int]);
        }
        p
    } else {
        proof {
            assert(roster.deep_view()[i as int].name == roster@[i as int].name@);
        }
        lookup_profile_from(roster, name, i + 1)
    }
}

} // verus!
