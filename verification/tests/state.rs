use dradu::error::DraduError;
use dradu::fs::AssetDirHandler;
use dradu::json::{Json, Number};
use dradu::message::{Message, MsgBody, MsgType};
use dradu::state::map_state::Outcome;
use dradu::state::{Action, MapObject, MapState, RoomState};
use dradu::utils::{get_placeholder_image, random_id, Color};

fn room(master: bool) -> RoomState {
    RoomState::new(
        "me",
        "Me",
        Color { r: 9, g: 8, b: 7 },
        master,
        AssetDirHandler::new(Some("assets".to_string())),
        get_placeholder_image(),
    )
}

fn json_message(kind: MsgType, text: &str) -> Message {
    let mut msg = Message::new(kind);
    msg.attach_body(MsgBody::Json(Json::parse(text).unwrap()));
    msg
}

fn apply(room: &mut RoomState, kind: MsgType, text: &str) -> Result<Vec<Action>, DraduError> {
    let messages = vec![json_message(kind, text)];
    assert!(room.can_update(&messages));
    let (actions, result) = room.update_self(messages);
    result.map(|_| actions)
}

fn as_float(n: Number) -> f32 {
    f32::from(json::number::Number::from_parts(n.positive, n.mantissa, n.exponent))
}

fn body_text(action: &mut Action) -> String {
    match action {
        Action::Send(msg) => {
            assert_eq!(msg.msg_type(), MsgType::MapDelta);
            match msg.take_body() {
                Some(MsgBody::Json(json)) => json.to_text(),
                _ => panic!("no JSON body"),
            }
        }
        _ => panic!("no message to send"),
    }
}

#[test]
fn map_message_creates_a_decal_and_asks_for_its_picture() {
    let mut room = room(false);
    let text = "{\"obj1\": {\"type\":\"decal\",\"path\":\"x.png\",\"pos\":[1.0,2.0],\
        \"scale\":2.0}}";
    let actions = apply(&mut room, MsgType::MapDelta, text).unwrap();
    assert_eq!(room.map().len(), 1);
    let obj = room.map().object("obj1").unwrap();
    assert!(matches!(obj, MapObject::Decal(_)));
    assert_eq!(as_float(obj.pos().0), 1.0);
    assert_eq!(as_float(obj.pos().1), 2.0);
    assert_eq!(as_float(obj.scale()), 2.0);
    assert_eq!(obj.path(), "x.png");
    assert_eq!(actions.len(), 1);
    match &actions[0] {
        Action::Send(request) => {
            assert_eq!(request.msg_type(), MsgType::File);
            assert_eq!(request.get_prop("path"), Some("x.png"));
            assert!(request.body().is_none());
        }
        _ => panic!("no request for the picture"),
    }
}

#[test]
fn master_loads_a_new_picture_itself() {
    let mut room = room(true);
    let text = "{\"obj1\": {\"type\":\"decal\",\"path\":\"x.png\"}}";
    let actions = apply(&mut room, MsgType::MapDelta, text).unwrap();
    assert_eq!(actions.len(), 1);
    assert!(matches!(&actions[0], Action::LoadAsset(path) if path == "x.png"));
    let obj = room.map().object("obj1").unwrap();
    assert_eq!(obj.pos(), (Number::from_u8(0), Number::from_u8(0)));
    assert_eq!(obj.scale(), Number::from_u8(1));
}

#[test]
fn cached_picture_is_not_fetched_again() {
    let mut room = room(false);
    room.add_image("x.png", get_placeholder_image());
    let text = "{\"a\": {\"type\":\"token\",\"path\":\"x.png\"}, \
        \"background\": {\"path\":\"x.png\"}}";
    let actions = apply(&mut room, MsgType::MapDelta, text).unwrap();
    assert!(actions.is_empty());
    assert_eq!(room.map().background_image().map(|s| s.as_str()), Some("x.png"));
}

#[test]
fn player_message_removes_a_player() {
    let mut room = room(false);
    let added = "{\"p1\": {\"nickname\":\"Bob\",\"color\":[1,2,3]}}";
    assert!(apply(&mut room, MsgType::Player, added).unwrap().is_empty());
    assert_eq!(
        room.get_player_by_id("p1"),
        Some(&("Bob".to_string(), Color { r: 1, g: 2, b: 3 }))
    );
    assert!(apply(&mut room, MsgType::Player, "{\"p1\": {}}").unwrap().is_empty());
    assert_eq!(room.get_player_by_id("p1"), None);
    assert_eq!(room.players_ref().len(), 1);
    assert!(room.get_player_by_id("me").is_some());
}

#[test]
fn player_updates_take_the_fields_that_are_there() {
    let mut room = room(false);
    apply(&mut room, MsgType::Player, "{\"me\": {\"color\":[0,0,1]}}").unwrap();
    assert_eq!(
        room.get_player_by_id("me"),
        Some(&("Me".to_string(), Color { r: 0, g: 0, b: 1 }))
    );
    apply(&mut room, MsgType::Player, "{\"me\": {\"nickname\":\"I\"}}").unwrap();
    assert_eq!(room.get_player_by_id("me"), Some(&("I".to_string(), Color { r: 0, g: 0, b: 1 })));
    apply(&mut room, MsgType::Player, "{\"me\": {\"nickname\":7, \"other\":1}}").unwrap();
    assert_eq!(room.get_player_by_id("me"), Some(&("I".to_string(), Color { r: 0, g: 0, b: 1 })));
}

#[test]
fn player_deltas_that_are_refused() {
    let mut room = room(false);
    let r = apply(&mut room, MsgType::Player, "{\"p\": {\"color\":[1,2,3]}}");
    assert_eq!(r.err(), Some(DraduError::ProtocolError));
    let r = apply(&mut room, MsgType::Player, "{\"p\": {\"nickname\":\"x\"}}");
    assert_eq!(r.err(), Some(DraduError::ProtocolError));
    let r = apply(&mut room, MsgType::Player, "{\"p\": {\"nickname\":\"x\",\"color\":[1,2]}}");
    assert_eq!(r.err(), Some(DraduError::ProtocolError));
    assert_eq!(room.get_player_by_id("p"), None);
    let bad = "{\"me\": {\"nickname\":\"New\",\"color\":[1,2,300]}, \
        \"q\": {\"nickname\":\"Q\",\"color\":[1,2,3]}}";
    let r = apply(&mut room, MsgType::Player, bad);
    assert_eq!(r.err(), Some(DraduError::ProtocolError));
    assert_eq!(
        room.get_player_by_id("me"),
        Some(&("New".to_string(), Color { r: 9, g: 8, b: 7 }))
    );
    assert_eq!(room.get_player_by_id("q"), None);
}

#[test]
fn tombstone_is_idempotent() {
    let mut room = room(true);
    let made = "{\"a\": {\"type\":\"decal\",\"path\":\"a.png\"}, \
        \"b\": {\"type\":\"decal\",\"path\":\"b.png\"}, \
        \"c\": {\"type\":\"decal\",\"path\":\"c.png\"}}";
    apply(&mut room, MsgType::MapDelta, made).unwrap();
    assert!(apply(&mut room, MsgType::MapDelta, "{\"zzz\": {}}").unwrap().is_empty());
    assert_eq!(room.map().len(), 3);
    apply(&mut room, MsgType::MapDelta, "{\"a\": {}}").unwrap();
    assert_eq!(room.map().len(), 2);
    assert!(room.map().object("a").is_none());
    assert_eq!(room.map().object_at(0).unwrap().0, "c");
    assert_eq!(room.map().object_at(1).unwrap().0, "b");
    apply(&mut room, MsgType::MapDelta, "{\"a\": null}").unwrap();
    assert_eq!(room.map().len(), 2);
    assert!(room.map().contains("b"));
    assert!(room.map().contains("c"));
    assert!(room.map().object_at(2).is_none());
}

#[test]
fn grid_needs_two_by_two() {
    let mut map = MapState::new();
    map.set_grid([2, 255]);
    assert_eq!(map.grid(), Some([2, 255]));
    map.set_grid([1, 5]);
    assert_eq!(map.grid(), None);
    map.set_grid([7, 3]);
    map.set_grid([3, 0]);
    assert_eq!(map.grid(), None);
    map.set_grid([7, 3]);
    map.clear_grid();
    assert_eq!(map.grid(), None);
}

#[test]
fn grid_deltas() {
    let mut room = room(false);
    apply(&mut room, MsgType::MapDelta, "{\"grid\": {\"size\":[4,6]}}").unwrap();
    assert_eq!(room.map().grid(), Some([4, 6]));
    apply(&mut room, MsgType::MapDelta, "{\"grid\": {\"size\":[1,6]}}").unwrap();
    assert_eq!(room.map().grid(), None);
    apply(&mut room, MsgType::MapDelta, "{\"grid\": {\"size\":[4,6]}}").unwrap();
    apply(&mut room, MsgType::MapDelta, "{\"grid\": {}}").unwrap();
    assert_eq!(room.map().grid(), None);
    apply(&mut room, MsgType::MapDelta, "{\"grid\": {\"size\":[5,7]}}").unwrap();
    apply(&mut room, MsgType::MapDelta, "{\"grid\": {\"size\":[4]}}").unwrap();
    assert_eq!(room.map().grid(), Some([5, 7]));
    apply(&mut room, MsgType::MapDelta, "{\"grid\": {\"size\":[4.0,6]}}").unwrap();
    assert_eq!(room.map().grid(), Some([5, 7]));
    apply(&mut room, MsgType::MapDelta, "{\"grid\": {\"size\":[4,256]}}").unwrap();
    assert_eq!(room.map().grid(), Some([5, 7]));
    apply(&mut room, MsgType::MapDelta, "{\"grid\": {\"columns\":4}}").unwrap();
    assert_eq!(room.map().grid(), Some([5, 7]));
    assert_eq!(room.map().object("grid").map(|_| ()), None);
}

#[test]
fn placeholder_stands_in_for_missing_pictures() {
    let mut room = room(false);
    assert_eq!(room.get_image("nowhere.png").size(), [128, 128]);
    assert_eq!(room.get_image("").size(), [128, 128]);
    assert!(!room.has_image("nowhere.png"));
    assert!(room.has_image("placeholder"));
    let small = egui_extras::RetainedImage::from_color_image(
        "small",
        egui::ColorImage::new([3, 2], egui::Color32::BLACK),
    );
    room.add_image("here.png", small);
    assert_eq!(room.get_image("here.png").size(), [3, 2]);
    assert_eq!(room.get_image("placeholder").size(), [128, 128]);
    assert_eq!(room.get_image("there.png").size(), [128, 128]);
}

#[test]
fn partial_update_leaves_the_rest() {
    let mut room = room(true);
    let made = "{\"t\": {\"type\":\"token\",\"path\":\"t.png\",\"pos\":[3,4],\"scale\":0.5,\
        \"properties\":{\"hp\":\"10\",\"n\":5}}}";
    apply(&mut room, MsgType::MapDelta, made).unwrap();
    let half = Number { positive: true, mantissa: 5, exponent: -1 };
    {
        let obj = room.map().object("t").unwrap();
        assert_eq!(obj.pos(), (Number::from_u8(3), Number::from_u8(4)));
        assert_eq!(obj.scale(), half);
        match obj {
            MapObject::Token(token) => {
                assert_eq!(token.properties.len(), 1);
                assert_eq!(token.properties.get("hp"), Some(&"10".to_string()));
            }
            _ => panic!("no token"),
        }
    }
    let delta = "{\"t\": {\"pos\":[7,8],\"path\":\"other.png\",\"type\":\"wall\",\
        \"properties\":{\"armor\":\"2\",\"hp\":null}}}";
    assert!(apply(&mut room, MsgType::MapDelta, delta).unwrap().is_empty());
    let obj = room.map().object("t").unwrap();
    assert_eq!(obj.pos(), (Number::from_u8(7), Number::from_u8(8)));
    assert_eq!(obj.scale(), half);
    assert_eq!(obj.path(), "t.png");
    match obj {
        MapObject::Token(token) => {
            assert_eq!(token.properties.len(), 1);
            assert_eq!(token.properties.get("armor"), Some(&"2".to_string()));
            assert_eq!(token.properties.get("hp"), None);
        }
        _ => panic!("no token"),
    }
    apply(&mut room, MsgType::MapDelta, "{\"t\": {\"pos\":[1],\"scale\":\"big\"}}").unwrap();
    let obj = room.map().object("t").unwrap();
    assert_eq!(obj.pos(), (Number::from_u8(7), Number::from_u8(8)));
    assert_eq!(obj.scale(), half);
}

#[test]
fn null_empties_the_map() {
    let mut room = room(true);
    let made = "{\"a\": {\"type\":\"decal\",\"path\":\"a.png\"}, \"grid\": {\"size\":[2,2]}, \
        \"background\": {\"path\":\"bg.png\"}}";
    let actions = apply(&mut room, MsgType::MapDelta, made).unwrap();
    assert_eq!(actions.len(), 2);
    assert!(matches!(&actions[0], Action::LoadAsset(p) if p == "a.png"));
    assert!(matches!(&actions[1], Action::LoadAsset(p) if p == "bg.png"));
    apply(&mut room, MsgType::MapDelta, "null").unwrap();
    assert_eq!(room.map().len(), 0);
    assert_eq!(room.map().grid(), None);
    assert!(room.map().background_image().is_none());
}

#[test]
fn objects_that_are_refused() {
    let mut room = room(true);
    let r = apply(&mut room, MsgType::MapDelta, "{\"a\": {\"path\":\"a.png\"}}");
    assert_eq!(r.err(), Some(DraduError::ProtocolError));
    let r = apply(&mut room, MsgType::MapDelta, "{\"a\": {\"type\":\"decal\"}}");
    assert_eq!(r.err(), Some(DraduError::ProtocolError));
    let r = apply(&mut room, MsgType::MapDelta, "{\"a\": {\"type\":\"cloud\",\"path\":\"a\"}}");
    assert_eq!(r.err(), Some(DraduError::ProtocolError));
    let r = apply(&mut room, MsgType::MapDelta, "{\"background\": {\"path\":3}}");
    assert_eq!(r.err(), Some(DraduError::ProtocolError));
    assert_eq!(room.map().len(), 0);
    let partly = "{\"a\": {\"type\":\"decal\",\"path\":\"a.png\"}, \
        \"b\": {\"type\":\"decal\"}, \"c\": {\"type\":\"decal\",\"path\":\"c.png\"}}";
    let r = apply(&mut room, MsgType::MapDelta, partly);
    assert_eq!(r.err(), Some(DraduError::ProtocolError));
    assert!(room.map().contains("a"));
    assert!(!room.map().contains("c"));
}

#[test]
fn kinds_that_cannot_be_built_are_told_beforehand() {
    let mut room = room(true);
    let wall = vec![json_message(MsgType::MapDelta, "{\"w\": {\"type\":\"wall\",\
        \"path\":\"w.png\"}}")];
    assert!(!room.can_update(&wall));
    let effect = Json::parse("{\"e\": {\"type\":\"effect\"}}").unwrap();
    assert!(!room.map().can_update(&effect));
    assert!(MapObject::names_unimplemented(effect.get("e").unwrap()));
    let behind_an_error = vec![
        json_message(MsgType::Player, "{\"p\": {\"nickname\":1}}"),
        json_message(MsgType::MapDelta, "{\"w\": {\"type\":\"wall\"}}"),
    ];
    assert!(room.can_update(&behind_an_error));
    assert_eq!(room.update_self(behind_an_error).1.err(), Some(DraduError::ProtocolError));
    let mut map = MapState::new();
    let (outcome, paths) = map.apply_delta(
        &Json::parse("{\"a\": {\"type\":\"decal\",\"path\":\"a.png\"}, \"w\": {\"type\":\"wall\"}}")
            .unwrap(),
    );
    assert_eq!(outcome, Outcome::Unimplemented);
    assert_eq!(paths, vec!["a.png".to_string()]);
    assert_eq!(map.len(), 1);
}

#[test]
fn chat_lines_need_a_sender() {
    let mut room = room(false);
    let mut first = Message::new(MsgType::Msg).set_prop("userId", "u2");
    first.attach_body(MsgBody::Text("hello".to_string()));
    let mut nameless = Message::new(MsgType::Msg);
    nameless.attach_body(MsgBody::Text("ghost".to_string()));
    let mut second = Message::new(MsgType::Msg).set_prop("userId", "me");
    second.attach_body(MsgBody::Text("hi".to_string()));
    let binary = {
        let mut m = Message::new(MsgType::Msg).set_prop("userId", "me");
        m.attach_body(MsgBody::Bin(vec![1]));
        m
    };
    let (actions, result) = room.update_self(vec![first, nameless, second, binary]);
    assert!(result.is_ok());
    assert!(actions.is_empty());
    let log = room.chat_log_ref();
    assert_eq!(log.len(), 2);
    assert_eq!(log[0].sender_id, "u2");
    assert_eq!(log[0].text, "hello");
    assert_eq!(log[1].sender_id, "me");
    assert_eq!(log[1].text, "hi");
}

#[test]
fn file_messages_by_role() {
    let mut master = room(true);
    let request = Message::new(MsgType::File).set_prop("path", "a/b.png");
    let (actions, result) = master.update_self(vec![request, Message::new(MsgType::File)]);
    assert!(result.is_ok());
    assert_eq!(actions.len(), 1);
    assert!(matches!(&actions[0], Action::ServeFile(p) if p == "a/b.png"));
    let answer = RoomState::file_response("a/b.png", vec![1, 2, 3]);
    assert_eq!(
        answer.into_bytes(),
        b"dradu/0.1 File\npath:a/b.png\ncontentType:image\ncontentLength:3\n\n\x01\x02\x03"
    );

    let mut guest = room(false);
    let mut delivery = Message::new(MsgType::File).set_prop("path", "a/b.png");
    delivery.attach_body(MsgBody::Image(egui_extras::RetainedImage::from_color_image(
        "d",
        egui::ColorImage::new([5, 4], egui::Color32::WHITE),
    )));
    let mut other = Message::new(MsgType::File).set_prop("path", "c.png");
    other.attach_body(MsgBody::Bin(vec![1]));
    let (actions, result) = guest.update_self(vec![delivery, other]);
    assert!(result.is_ok());
    assert!(actions.is_empty());
    assert_eq!(guest.get_image("a/b.png").size(), [5, 4]);
    assert!(!guest.has_image("c.png"));
}

#[test]
fn other_messages_change_nothing() {
    let mut room = room(false);
    let messages = vec![
        json_message(MsgType::Perm, "{\"x\": 1}"),
        Message::new(MsgType::Synced),
        json_message(MsgType::Error, "{\"w\": {\"type\":\"wall\"}}"),
        Message::new(MsgType::MapDelta),
        Message::new(MsgType::Player),
    ];
    assert!(room.can_update(&messages));
    let (actions, result) = room.update_self(messages);
    assert!(result.is_ok());
    assert!(actions.is_empty());
    assert_eq!(room.map().len(), 0);
    assert_eq!(room.players_ref().len(), 1);
    assert!(room.chat_log_ref().is_empty());
    assert!(!room.is_master());
    assert_eq!(room.get_user_id(), "me");
}

#[test]
fn requests_for_files() {
    let mut master = room(true);
    assert!(matches!(master.request_file("m.png"), Some(Action::LoadAsset(p)) if p == "m.png"));
    master.add_image("m.png", get_placeholder_image());
    assert!(master.request_file("m.png").is_none());
    let mut guest = room(false);
    guest.add_image("m.png", get_placeholder_image());
    match guest.request_file("m.png") {
        Some(Action::Send(msg)) => {
            assert_eq!(msg.into_bytes(), b"dradu/0.1 File\npath:m.png\ncontentLength:0\n\n")
        }
        _ => panic!("no request"),
    }
}

#[test]
fn intents_on_known_objects_only() {
    let mut room = room(true);
    let made = "{\"d\": {\"type\":\"decal\",\"path\":\"d.png\"}, \
        \"t\": {\"type\":\"token\",\"path\":\"t.png\"}}";
    apply(&mut room, MsgType::MapDelta, made).unwrap();
    let x = Number { positive: true, mantissa: 15, exponent: -1 };
    let y = Number { positive: false, mantissa: 2, exponent: 0 };
    assert!(room.move_map_object("nope", (x, y)).is_none());
    assert!(room.delete_map_object("nope").is_none());
    assert!(room.rescale_map_object("nope", x).is_none());
    assert!(room.update_token_property("d", "hp", "1").is_none());
    assert!(room.update_token_property("t", "  ", "1").is_none());
    assert!(room.remove_token_property("nope", "hp").is_none());
    let mut moved = Action::Send(room.move_map_object("d", (x, y)).unwrap());
    assert_eq!(body_text(&mut moved), "{\"d\":{\"pos\":[1.5,-2]}}");
    let mut deleted = Action::Send(room.delete_map_object("t").unwrap());
    assert_eq!(body_text(&mut deleted), "{\"t\":{}}");
    let mut scaled = Action::Send(room.rescale_map_object("t", x).unwrap());
    assert_eq!(body_text(&mut scaled), "{\"t\":{\"scale\":1.5}}");
    let mut set = Action::Send(room.update_token_property("t", " hp ", " 12 ").unwrap());
    assert_eq!(body_text(&mut set), "{\"t\":{\"properties\":{\"hp\":\"12\"}}}");
    let mut unset = Action::Send(room.remove_token_property("t", "hp").unwrap());
    assert_eq!(body_text(&mut unset), "{\"t\":{\"properties\":{\"hp\":null}}}");
}

#[test]
fn intents_without_an_object() {
    let room = room(false);
    let mut cleared = Action::Send(room.clear_map());
    assert_eq!(body_text(&mut cleared), "null");
    let mut grid = Action::Send(room.change_grid_size([3, 200]));
    assert_eq!(body_text(&mut grid), "{\"grid\":{\"size\":[3,200]}}");
    let mut no_grid = Action::Send(room.change_grid_size([0, 0]));
    assert_eq!(body_text(&mut no_grid), "{\"grid\":{}}");
    let mut narrow = Action::Send(room.change_grid_size([1, 9]));
    assert_eq!(body_text(&mut narrow), "{\"grid\":{}}");
    assert_eq!(room.quit_room().into_bytes(), b"dradu/0.1 Quit\ncontentLength:0\n\n");
    assert_eq!(
        room.send_chat_message("/nickname Al").into_bytes(),
        b"dradu/0.1 Msg\ncontentType:text\ncontentLength:12\n\n/nickname Al"
    );
}

#[test]
fn placing_loads_the_picture_first() {
    let mut room = room(true);
    let mut steps = room.insert_with_id("id1", "p.png", "token");
    assert_eq!(steps.len(), 2);
    assert!(matches!(&steps[0], Action::LoadAsset(p) if p == "p.png"));
    assert_eq!(body_text(&mut steps[1]), "{\"id1\":{\"type\":\"token\",\"path\":\"p.png\"}}");
    room.add_image("p.png", get_placeholder_image());
    let mut steps = room.set_background_image("p.png");
    assert_eq!(steps.len(), 1);
    assert_eq!(body_text(&mut steps[0]), "{\"background\":{\"path\":\"p.png\"}}");
    let mut steps = room.insert_from_path("p.png", "decal");
    assert_eq!(steps.len(), 1);
    let text = body_text(&mut steps[0]);
    assert_eq!(text.len(), "{\"\":{\"type\":\"decal\",\"path\":\"p.png\"}}".len() + 16);
    let delta = Json::parse(&text).unwrap();
    let (id, value) = delta.entry_at(0).unwrap();
    assert_eq!(id.len(), 16);
    assert!(id.chars().all(|c| c.is_ascii_alphanumeric()));
    assert_eq!(value.get("type").unwrap().as_str().map(|s| s.as_str()), Some("decal"));
}

#[test]
fn random_ids_have_their_shape() {
    let a = random_id();
    let b = random_id();
    assert_eq!(a.len(), 16);
    assert!(a.chars().all(|c| c.is_ascii_alphanumeric()));
    assert!(b.chars().all(|c| c.is_ascii_alphanumeric()));
}

#[test]
fn local_room_is_the_masters() {
    let room = RoomState::create_local_server(AssetDirHandler::new(None));
    assert!(room.is_master());
    assert_eq!(room.get_user_id(), "");
    assert_eq!(
        room.get_player_by_id(""),
        Some(&("Master".to_string(), Color { r: 255, g: 0, b: 0 }))
    );
    assert!(room.fs_ref().asset_dir().is_none());
    assert_eq!(room.map().len(), 0);
}

#[test]
fn map_as_one_delta() {
    let mut room = room(true);
    assert_eq!(room.map().as_json().dump(), "{}");
    let made = "{\"grid\": {\"size\":[4,6]}, \
        \"t\": {\"type\":\"token\",\"path\":\"t.png\",\"pos\":[3,4.5],\
        \"properties\":{\"hp\":\"10\"}}, \"background\": {\"path\":\"bg.png\"}, \
        \"d\": {\"type\":\"decal\",\"path\":\"d.png\",\"scale\":2}}";
    apply(&mut room, MsgType::MapDelta, made).unwrap();
    let json = room.map().as_json();
    assert_eq!(
        json.dump(),
        "{\"grid\":{\"size\":[4,6]},\"background\":{\"path\":\"bg.png\"},\
            \"t\":{\"type\":\"token\",\"pos\":[3,4.5],\"scale\":1,\"path\":\"t.png\",\
            \"properties\":{\"hp\":\"10\"}},\"d\":{\"type\":\"decal\",\"pos\":[0,0],\
            \"scale\":2,\"path\":\"d.png\"}}"
    );
    let mut restored = MapState::new();
    let (outcome, paths) = restored.apply_delta(&json);
    assert_eq!(outcome, Outcome::Done);
    assert_eq!(paths, vec!["bg.png".to_string(), "t.png".to_string(), "d.png".to_string()]);
    assert_eq!(restored.as_json().dump(), json.dump());
    assert_eq!(
        room.map().object("d").unwrap().as_json().dump(),
        "{\"type\":\"decal\",\"pos\":[0,0],\"scale\":2,\"path\":\"d.png\"}"
    );
}

#[test]
fn failed_tick_still_tells_what_was_asked() {
    let mut room = room(true);
    let messages = vec![
        Message::new(MsgType::File).set_prop("path", "f.png"),
        json_message(MsgType::MapDelta, "{\"a\": {\"type\":\"decal\",\"path\":\"a.png\"}, \
            \"b\": {}, \"c\": {\"type\":\"decal\"}}"),
        json_message(MsgType::Player, "{\"late\": {\"nickname\":\"L\",\"color\":[1,1,1]}}"),
    ];
    assert!(room.can_update(&messages));
    let (actions, result) = room.update_self(messages);
    assert_eq!(result, Err(DraduError::ProtocolError));
    assert_eq!(actions.len(), 2);
    assert!(matches!(&actions[0], Action::ServeFile(p) if p == "f.png"));
    assert!(matches!(&actions[1], Action::LoadAsset(p) if p == "a.png"));
    assert!(room.map().contains("a"));
    assert_eq!(room.get_player_by_id("late"), None);
}
