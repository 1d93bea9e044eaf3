//! The identity that a handshake gives, the handshake's messages, and the
//! in-memory connection of the offline mode.

use vstd::prelude::*;
use crate::dict::{lemma_put, put, value_of};
use crate::error::{DraduError, RecvFailure};
use crate::json::{Json, JsonView};
use crate::message::{push_str, BodyView, Message, MessageView, MsgBody, MsgType};
use crate::text::from_chars;
use crate::utils::{color32_from_json_value, color_of_json, Color};

verus! {

/// Who a participant is in a session. Fixed by the handshake.
pub struct Identity {
    user_id: String,
    user_cookie: String,
    nickname: String,
    user_color: Color,
    room_id: String,
}

/// The mathematical value of an [`Identity`].
pub struct IdentityView {
    pub user_id: Seq<char>,
    /// The secret that authorizes later requests.
    pub user_cookie: Seq<char>,
    pub nickname: Seq<char>,
    pub user_color: Color,
    pub room_id: Seq<char>,
}

impl View for Identity {
    type V = IdentityView;

    closed spec fn view(&self) -> IdentityView {
        IdentityView {
            user_id: self.user_id@,
            user_cookie: self.user_cookie@,
            nickname: self.nickname@,
            user_color: self.user_color,
            room_id: self.room_id@,
        }
    }
}

/// The body of a request to join the room `room_id`.
pub open spec fn join_body(room_id: Seq<char>) -> Seq<char> {
    "{\"roomId\":\""@ + room_id + "\"}"@
}

/// The identity that the payload of a handshake reply holds. The user's id
/// and cookie are required; the nickname defaults to the empty text and the
/// color to white. A joiner knows the room; a creator learns it from the reply.
pub open spec fn identity_of(json: JsonView, room_id: Option<Seq<char>>) -> Result<
    IdentityView,
    DraduError,
> {
    let user_id = json.field("userId"@).as_str();
    let user_cookie = json.field("userCookie"@).as_str();
    let room = match room_id {
        Some(id) => Some(id),
        None => json.field("roomId"@).as_str(),
    };
    if user_id is Some && user_cookie is Some && room is Some {
        Ok(
            IdentityView {
                user_id: user_id.unwrap(),
                user_cookie: user_cookie.unwrap(),
                nickname: match json.field("nickname"@).as_str() {
                    Some(name) => name,
                    None => Seq::empty(),
                },
                user_color: match color_of_json(json.field("color"@)) {
                    Some(c) => c,
                    None => Color::white(),
                },
                room_id: room.unwrap(),
            },
        )
    } else {
        Err(DraduError::ProtocolError)
    }
}

/// What a handshake ends with, given what the wait for the reply brought: a
/// failed wait gives its own error, a reply that is not `Ok` with a JSON body
/// a connection error, and a JSON body its identity or a protocol error.
pub open spec fn handshake(
    reply: Result<MessageView, RecvFailure>,
    room_id: Option<Seq<char>>,
) -> Result<IdentityView, DraduError> {
    match reply {
        Err(failure) => Err(DraduError::of_recv(failure)),
        Ok(m) => match m.body {
            Some(BodyView::Json(json)) => if m.kind == MsgType::Okay {
                identity_of(json, room_id)
            } else {
                Err(DraduError::ConnectionError)
            },
            _ => Err(DraduError::ConnectionError),
        },
    }
}

/// The text that a payload holds under `key`.
fn text_field(json: &Json, key: &str) -> (r: Option<String>)
    ensures
        match r {
            Some(s) => json@.field(key@).as_str() == Some(s@),
            None => json@.field(key@).as_str() is None,
        },
{
    match json.get(key) {
        Some(value) => match value.as_str() {
            Some(s) => Some(s.clone()),
            None => None,
        },
        None => None,
    }
}

impl Identity {
    /// The request that opens a new room.
    pub fn init_request() -> (m: Message)
        ensures
            m@ == (MessageView { kind: MsgType::Init, props: Seq::empty(), body: None }),
            m.wf(),
    {
        Message::new(MsgType::Init)
    }

    /// The request to join the room `room_id`.
    pub fn join_request(room_id: &str) -> (m: Message)
        ensures
            m@ == (MessageView {
                kind: MsgType::Join,
                props: Seq::empty(),
                body: Some(BodyView::Json(JsonView::Str(join_body(room_id@)))),
            }),
            m.wf(),
    {
        let mut text: Vec<char> = Vec::new();
        push_str(&mut text, "{\"roomId\":\"");
        push_str(&mut text, room_id);
        push_str(&mut text, "\"}");
        assert(text@ =~= join_body(room_id@));
        assert(text@.subrange(0, text@.len() as int) == text@);
        let body = from_chars(&text, 0, text.len());
        let mut m = Message::new(MsgType::Join);
        m.attach_body(MsgBody::Json(Json::Str(body)));
        m
    }

    /// The identity that a handshake ends with. `reply` is what the wait for
    /// the server's answer brought; `room_id` is the room that was asked for,
    /// or `None` where the handshake opens a new room.
    pub fn from_reply(reply: Result<Message, RecvFailure>, room_id: Option<&str>) -> (r: Result<
        Identity,
        DraduError,
    >)
        ensures
            match handshake(
                match reply {
                    Ok(m) => Ok(m@),
                    Err(f) => Err(f),
                },
                match room_id {
                    Some(id) => Some(id@),
                    None => None,
                },
            ) {
                Ok(identity) => r is Ok && r->Ok_0@ == identity,
                Err(e) => r is Err && r->Err_0 == e,
            },
    {
        let mut msg = match reply {
            Ok(msg) => msg,
            Err(RecvFailure::Timeout) => {
                return Err(DraduError::TimeoutExceeded);
            },
            Err(RecvFailure::Disconnected) => {
                return Err(DraduError::ChannelDisconnected);
            },
        };
        let json = match (msg.msg_type(), msg.take_body()) {
            (MsgType::Okay, Some(MsgBody::Json(json))) => json,
            _ => {
                return Err(DraduError::ConnectionError);
            },
        };
        let user_id = match text_field(&json, "userId") {
            Some(s) => s,
            None => {
                return Err(DraduError::ProtocolError);
            },
        };
        let user_cookie = match text_field(&json, "userCookie") {
            Some(s) => s,
            None => {
                return Err(DraduError::ProtocolError);
            },
        };
        let nickname = match text_field(&json, "nickname") {
            Some(s) => s,
            None => String::new(),
        };
        let user_color = match json.get("color") {
            Some(value) => match color32_from_json_value(value) {
                Ok(c) => c,
                Err(_) => Color { r: 255, g: 255, b: 255 },
            },
            None => {
                assert(color_of_json(JsonView::Null) is None);
                Color { r: 255, g: 255, b: 255 }
            },
        };
        let room_id = match room_id {
            Some(id) => id.to_owned(),
            None => match text_field(&json, "roomId") {
                Some(s) => s,
                None => {
                    return Err(DraduError::ProtocolError);
                },
            },
        };
        Ok(Identity { user_id, user_cookie, nickname, user_color, room_id })
    }

    /// The id that the server gave this participant.
    pub fn get_user_id(&self) -> (s: &str)
        ensures
            s@ == self@.user_id,
    {
        self.user_id.as_str()
    }

    /// The name under which the participant is shown.
    pub fn get_nickname(&self) -> (s: &str)
        ensures
            s@ == self@.nickname,
    {
        self.nickname.as_str()
    }

    /// The color in which the participant is shown.
    pub fn get_user_color(&self) -> (c: Color)
        ensures
            c == self@.user_color,
    {
        self.user_color
    }

    /// The id of the room.
    pub fn get_room_id(&self) -> (s: &str)
        ensures
            s@ == self@.room_id,
    {
        self.room_id.as_str()
    }

    /// The message as this participant sends it: with the user's id and
    /// cookie as properties, whatever the caller had stored under these keys.
    pub fn stamp(&self, msg: Message) -> (m: Message)
        requires
            msg.wf(),
        ensures
            m@ == (MessageView {
                props: put(
                    put(msg@.props, "userId"@, self@.user_id),
                    "userCookie"@,
                    self@.user_cookie,
                ),
                ..msg@
            }),
            value_of(m@.props, "userId"@) == Some(self@.user_id),
            value_of(m@.props, "userCookie"@) == Some(self@.user_cookie),
            m.wf(),
    {
        proof {
            reveal_strlit("userId");
            reveal_strlit("userCookie");
            assert("userId"@.len() != "userCookie"@.len());
            lemma_put(msg@.props, "userId"@, self@.user_id);
            lemma_put(put(msg@.props, "userId"@, self@.user_id), "userCookie"@, self@.user_cookie);
        }
        msg.set_prop("userId", self.user_id.as_str()).set_prop(
            "userCookie",
            self.user_cookie.as_str(),
        )
    }

    /// The address to share with others: the server's address as `peer`
    /// writes it, `#`, and the room's id.
    pub fn room_address(&self, peer: &str) -> (s: String)
        ensures
            s@ == peer@ + seq!['#'] + self@.room_id,
    {
        let mut text: Vec<char> = Vec::new();
        push_str(&mut text, peer);
        text.push('#');
        push_str(&mut text, self.room_id.as_str());
        assert(text@.subrange(0, text@.len() as int) == text@);
        from_chars(&text, 0, text.len())
    }
}

/// A connection that hands back what is sent: the offline mode, in which a
/// single user edits a map.
pub struct LoopbackConnection {
    message_queue: Vec<Message>,
    closed: bool,
}

impl LoopbackConnection {
    /// The messages sent and not yet read, oldest first.
    pub closed spec fn pending(&self) -> Seq<Message> {
        self.message_queue@
    }

    /// Whether the connection was closed.
    pub closed spec fn is_closed(&self) -> bool {
        self.closed
    }

    /// An open connection with nothing pending.
    pub fn new() -> (c: Self)
        ensures
            c.pending() == Seq::<Message>::empty(),
            !c.is_closed(),
    {
        LoopbackConnection { message_queue: Vec::new(), closed: false }
    }

    /// Hands out everything sent since the last call, in the order of
    /// sending. A closed connection answers with a disconnection.
    pub fn new_messages(&mut self) -> (r: Result<Vec<Message>, DraduError>)
        ensures
            final(self).is_closed() == old(self).is_closed(),
            match r {
                Ok(messages) => !old(self).is_closed() && messages@ == old(self).pending()
                    && final(self).pending() == Seq::<Message>::empty(),
                Err(e) => old(self).is_closed() && e == DraduError::ChannelDisconnected
                    && final(self).pending() == old(self).pending(),
            },
    {
        if self.closed {
            Err(DraduError::ChannelDisconnected)
        } else {
            let mut out: Vec<Message> = Vec::new();
            std::mem::swap(&mut out, &mut self.message_queue);
            Ok(out)
        }
    }

    /// Queues the message for the next read. Nothing goes over a wire, so
    /// the count of bytes sent is 0.
    pub fn send_msg(&mut self, msg: Message) -> (r: Result<usize, DraduError>)
        ensures
            r == Ok::<usize, DraduError>(0),
            final(self).pending() == old(self).pending().push(msg),
            final(self).is_closed() == old(self).is_closed(),
    {
        self.message_queue.push(msg);
        Ok(0)
    }

    /// The address of the offline room: the fixed text `local`.
    pub fn get_room_address(&self) -> (r: Result<String, DraduError>)
        ensures
            r is Ok,
            r->Ok_0@ == "local"@,
    {
        Ok("local".to_owned())
    }

    /// The id of the offline user: the empty text.
    pub fn get_user_id(&self) -> (s: &'static str)
        ensures
            s@ == Seq::<char>::empty(),
    {
        proof {
            reveal_strlit("");
        }
        let s = "";
        assert(s@ =~= Seq::<char>::empty());
        s
    }

    /// The name of the offline user.
    pub fn get_nickname(&self) -> (s: &'static str)
        ensures
            s@ == "Master"@,
    {
        "Master"
    }

    /// The color of the offline user.
    pub fn get_user_color(&self) -> (c: Color)
        ensures
            c == Color::red(),
    {
        Color { r: 255, g: 0, b: 0 }
    }

    /// Closes the connection: every later read answers with a disconnection.
    pub fn close(&mut self)
        ensures
            final(self).is_closed(),
            final(self).pending() == old(self).pending(),
    {
        self.closed = true;
    }
}

} // verus!
