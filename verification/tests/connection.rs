use dradu::connection::{Identity, LoopbackConnection};
use dradu::error::{DraduError, RecvFailure};
use dradu::json::Json;
use dradu::message::{Message, MsgBody, MsgType};
use dradu::utils::Color;

fn reply(kind: MsgType, text: &str) -> Message {
    let mut msg = Message::new(kind);
    msg.attach_body(MsgBody::Json(Json::parse(text).unwrap()));
    msg
}

#[test]
fn handshake_without_reply_times_out() {
    let r = Identity::from_reply(Err(RecvFailure::Timeout), Some("room"));
    assert_eq!(r.err(), Some(DraduError::TimeoutExceeded));
    let r = Identity::from_reply(Err(RecvFailure::Timeout), None);
    assert_eq!(r.err(), Some(DraduError::TimeoutExceeded));
}

#[test]
fn handshake_on_a_closed_channel() {
    let r = Identity::from_reply(Err(RecvFailure::Disconnected), None);
    assert_eq!(r.err(), Some(DraduError::ChannelDisconnected));
    assert_eq!(DraduError::from(RecvFailure::Disconnected), DraduError::ChannelDisconnected);
    assert_eq!(DraduError::from(RecvFailure::Timeout), DraduError::TimeoutExceeded);
}

#[test]
fn join_request_on_the_wire() {
    let bytes = Identity::join_request("r7").into_bytes();
    assert_eq!(
        String::from_utf8(bytes).unwrap(),
        "dradu/0.1 Join\ncontentType:json\ncontentLength:15\n\n{\"roomId\":\"r7\"}"
    );
    assert_eq!(Identity::init_request().into_bytes(), b"dradu/0.1 Init\ncontentLength:0\n\n");
}

#[test]
fn identity_of_a_joiner() {
    let msg = reply(
        MsgType::Okay,
        "{\"userId\":\"u1\",\"userCookie\":\"c1\",\"nickname\":\"Ann\",\"color\":[1,2,3]}",
    );
    let id = Identity::from_reply(Ok(msg), Some("room9")).ok().unwrap();
    assert_eq!(id.get_user_id(), "u1");
    assert_eq!(id.get_nickname(), "Ann");
    assert_eq!(id.get_user_color(), Color { r: 1, g: 2, b: 3 });
    assert_eq!(id.get_room_id(), "room9");
    assert_eq!(id.room_address("10.0.0.1:8889"), "10.0.0.1:8889#room9");
}

#[test]
fn identity_defaults() {
    let msg = reply(
        MsgType::Okay,
        "{\"userId\":\"u1\",\"userCookie\":\"c1\",\"roomId\":\"fresh\",\"color\":[1,2]}",
    );
    let id = Identity::from_reply(Ok(msg), None).ok().unwrap();
    assert_eq!(id.get_nickname(), "");
    assert_eq!(id.get_user_color(), Color { r: 255, g: 255, b: 255 });
    assert_eq!(id.get_room_id(), "fresh");
}

#[test]
fn handshake_replies_that_are_refused() {
    let full = "{\"userId\":\"u\",\"userCookie\":\"c\",\"roomId\":\"r\"}";
    let r = Identity::from_reply(Ok(reply(MsgType::Error, full)), None);
    assert_eq!(r.err(), Some(DraduError::ConnectionError));
    let r = Identity::from_reply(Ok(Message::new(MsgType::Okay)), None);
    assert_eq!(r.err(), Some(DraduError::ConnectionError));
    let mut text = Message::new(MsgType::Okay);
    text.attach_body(MsgBody::Text(full.to_string()));
    assert_eq!(Identity::from_reply(Ok(text), None).err(), Some(DraduError::ConnectionError));
    let r = Identity::from_reply(Ok(reply(MsgType::Okay, "{\"userCookie\":\"c\"}")), Some("r"));
    assert_eq!(r.err(), Some(DraduError::ProtocolError));
    let r = Identity::from_reply(Ok(reply(MsgType::Okay, "{\"userId\":\"u\"}")), Some("r"));
    assert_eq!(r.err(), Some(DraduError::ProtocolError));
    let no_room = "{\"userId\":\"u\",\"userCookie\":\"c\"}";
    let r = Identity::from_reply(Ok(reply(MsgType::Okay, no_room)), None);
    assert_eq!(r.err(), Some(DraduError::ProtocolError));
    assert!(Identity::from_reply(Ok(reply(MsgType::Okay, no_room)), Some("r")).is_ok());
}

#[test]
fn stamp_sets_id_and_cookie() {
    let msg = reply(MsgType::Okay, "{\"userId\":\"u1\",\"userCookie\":\"c1\"}");
    let id = Identity::from_reply(Ok(msg), Some("r")).ok().unwrap();
    let out = id.stamp(Message::new(MsgType::Quit).set_prop("userId", "forged"));
    assert_eq!(out.get_prop("userId"), Some("u1"));
    assert_eq!(out.get_prop("userCookie"), Some("c1"));
    assert_eq!(
        String::from_utf8(out.into_bytes()).unwrap(),
        "dradu/0.1 Quit\nuserId:u1\nuserCookie:c1\ncontentLength:0\n\n"
    );
}

#[test]
fn loopback_hands_back_what_was_sent() {
    let mut c = LoopbackConnection::new();
    assert!(c.new_messages().ok().unwrap().is_empty());
    assert_eq!(c.send_msg(Message::new(MsgType::Quit)), Ok(0));
    assert_eq!(c.send_msg(Message::new(MsgType::Init)), Ok(0));
    let got = c.new_messages().ok().unwrap();
    assert_eq!(got.len(), 2);
    assert_eq!(got[0].msg_type(), MsgType::Quit);
    assert_eq!(got[1].msg_type(), MsgType::Init);
    assert!(c.new_messages().ok().unwrap().is_empty());
    assert_eq!(c.get_room_address().unwrap(), "local");
    assert_eq!(c.get_user_id(), "");
    assert_eq!(c.get_nickname(), "Master");
    assert_eq!(c.get_user_color(), Color { r: 255, g: 0, b: 0 });
}

#[test]
fn loopback_closed_is_disconnected() {
    let mut c = LoopbackConnection::new();
    let _ = c.send_msg(Message::new(MsgType::Quit));
    c.close();
    assert_eq!(c.new_messages().err(), Some(DraduError::ChannelDisconnected));
    assert_eq!(c.new_messages().err(), Some(DraduError::ChannelDisconnected));
}

#[test]
fn error_texts() {
    assert_eq!(DraduError::ProtocolError.message(), "Key error");
    assert_eq!(DraduError::ConnectionError.message(), "Connection error");
    assert_eq!(DraduError::ChannelDisconnected.message(), "Channel disconnected");
    assert_eq!(DraduError::TimeoutExceeded.message(), "Server response timeout exceeded");
    assert_eq!(DraduError::Io("broken pipe".to_string()).message(), "broken pipe");
    assert_eq!(DraduError::InvalidPath.message(), "");
}
