use dradu::error::DraduError;
use dradu::frame::{
    attach_decoded, decode_body, decode_header, find_header_end, read_message, HeaderScanner,
};
use dradu::json::{Json, Number};
use dradu::message::{FormatError, Message, MsgBody, MsgType};

fn png_bytes() -> Vec<u8> {
    let picture = image::DynamicImage::ImageRgba8(image::RgbaImage::new(2, 3));
    let mut bytes = std::io::Cursor::new(Vec::new());
    picture.write_to(&mut bytes, image::ImageOutputFormat::Png).unwrap();
    bytes.into_inner()
}

#[test]
fn message_into_bytes() {
    let msg = Message::new(MsgType::File).set_prop("userId", "123");
    let bytes = b"dradu/0.1 File\ncontentLength:0\nuserId:123\n\n";
    let bytes2 = b"dradu/0.1 File\nuserId:123\ncontentLength:0\n\n";
    let msg_bytes = msg.into_bytes();
    assert!(msg_bytes == bytes || msg_bytes == bytes2);
}

#[test]
fn message_from_str() {
    let string = "dradu/0.1 File\ncontentLength:0\nuserId:123\n\n\n";
    let msg = Message::from_str(string).ok().unwrap();
    assert_eq!(msg.msg_type(), MsgType::File);
    assert_eq!(msg.get_prop("contentLength"), Some("0"));
    assert_eq!(msg.get_prop("userId"), Some("123"));
}

#[test]
fn file_request_round_trip() {
    let msg = Message::new(MsgType::File).set_prop("path", "foo.png");
    let bytes = msg.into_bytes();
    let (back, length) = decode_header(bytes).ok().unwrap();
    assert_eq!(back.msg_type(), MsgType::File);
    assert_eq!(back.get_prop("contentLength"), Some("0"));
    assert_eq!(back.get_prop("path"), Some("foo.png"));
    assert_eq!(back.get_prop("contentType"), None);
    assert_eq!(length, 0);
    assert!(back.body().is_none());
}

#[test]
fn encode_puts_properties_in_order_of_arrival() {
    let msg = Message::new(MsgType::Join)
        .set_prop("b", "2")
        .set_prop("a", "1")
        .set_prop("b", "3");
    assert_eq!(
        String::from_utf8(msg.into_bytes()).unwrap(),
        "dradu/0.1 Join\nb:3\na:1\ncontentLength:0\n\n"
    );
}

#[test]
fn encode_counts_the_body_itself() {
    let mut msg = Message::new(MsgType::Msg).set_prop("contentLength", "999");
    msg.attach_body(MsgBody::Text("h\u{e9}llo".to_string()));
    assert_eq!(
        msg.into_bytes(),
        "dradu/0.1 Msg\ncontentLength:6\ncontentType:text\n\nh\u{e9}llo".as_bytes()
    );
}

#[test]
fn encode_keeps_a_content_type_that_the_sender_set() {
    let mut msg = Message::new(MsgType::File).set_prop("contentType", "image");
    msg.attach_body(MsgBody::Bin(vec![1, 2, 3]));
    assert_eq!(
        msg.into_bytes(),
        b"dradu/0.1 File\ncontentType:image\ncontentLength:3\n\n\x01\x02\x03"
    );
}

#[test]
fn json_body_is_dumped_and_counted() {
    let mut msg = Message::new(MsgType::MapDelta);
    msg.attach_body(MsgBody::Json(Json::object_of("a", Json::object())));
    let bytes = msg.into_bytes();
    assert_eq!(
        String::from_utf8(bytes).unwrap(),
        "dradu/0.1 Map\ncontentType:json\ncontentLength:8\n\n{\"a\":{}}"
    );
}

#[test]
fn json_text_of_each_kind_of_value() {
    assert_eq!(Json::Null.to_text(), "null");
    assert_eq!(Json::Bool(true).to_text(), "true");
    assert_eq!(Json::string("a \"b\"").to_text(), "a \"b\"");
    assert_eq!(Json::string("a \"b\"").dump(), "\"a \\\"b\\\"\"");
    assert_eq!(Json::Number(Number::from_u8(7)).to_text(), "7");
    let half = Number { positive: false, mantissa: 25, exponent: -1 };
    assert_eq!(Json::pair(Json::Number(half), Json::Null).to_text(), "[-2.5,null]");
    let object = Json::object_of("k", Json::Bool(false)).with_entry("l", Json::string("x"));
    assert_eq!(object.to_text(), "{\"k\":false,\"l\":\"x\"}");
}

#[test]
fn json_parse_reads_numbers_by_parts() {
    let j = Json::parse("{\"size\":[12,3.5,-4e2]}").unwrap();
    let size = j.get("size").unwrap();
    assert_eq!(size.at(0).unwrap().as_u8(), Some(12));
    assert_eq!(size.at(1).unwrap().as_u8(), None);
    assert_eq!(
        size.at(1).unwrap().as_number(),
        Some(Number { positive: true, mantissa: 35, exponent: -1 })
    );
    assert_eq!(
        size.at(2).unwrap().as_number(),
        Some(Number { positive: false, mantissa: 4, exponent: 2 })
    );
    assert!(size.at(3).is_none());
    assert!(j.get("other").is_none());
    assert!(j.has_key("size"));
    assert!(Json::parse("{").is_none());
}

#[test]
fn json_emptiness() {
    assert!(Json::Null.is_empty());
    assert!(Json::object().is_empty());
    assert!(Json::string("").is_empty());
    assert!(Json::Bool(false).is_empty());
    assert!(Json::Number(Number::from_u8(0)).is_empty());
    assert!(Json::parse("[]").unwrap().is_empty());
    assert!(!Json::parse("[0]").unwrap().is_empty());
    assert!(!Json::string(" ").is_empty());
    assert!(!Json::object_of("a", Json::Null).is_empty());
}

#[test]
fn header_kind_in_any_case() {
    assert_eq!(Message::from_str("dradu/0.9 sYnCeD").ok().unwrap().msg_type(), MsgType::Synced);
    assert_eq!(Message::from_str("dradu/0.1 ok").ok().unwrap().msg_type(), MsgType::Okay);
    assert_eq!(Message::from_str("dradu/0.1 ERR").ok().unwrap().msg_type(), MsgType::Error);
    assert_eq!(MsgType::from_name("map"), Some(MsgType::MapDelta));
    assert_eq!(MsgType::from_name("maps"), None);
    assert_eq!(MsgType::Player.name(), "Player");
}

#[test]
fn header_that_is_not_one() {
    assert_eq!(Message::from_str("").err(), Some(FormatError));
    assert!(Message::from_str("  \n ").is_err());
    assert!(Message::from_str("dradu 0.1 File").is_err());
    assert!(Message::from_str("other/0.1 File").is_err());
    assert!(Message::from_str("dradu/0.1File").is_err());
    assert!(Message::from_str("dradu/1.0 File").is_err());
    assert!(Message::from_str("dradu/01 File").is_err());
    assert!(Message::from_str("dradu/0.1 Nope").is_err());
    assert!(Message::from_str("dradu/0.1 File ").is_ok());
    assert!(Message::from_str("dradu/0.1  File").is_err());
}

#[test]
fn header_properties_stop_at_a_line_without_colon() {
    let msg = Message::from_str(
        "\n dradu/0.1 Msg\r\nuserId:  7\r\nnote:a:b \nuserId:8\nend\nlate:1\n",
    )
    .ok()
    .unwrap();
    assert_eq!(msg.get_prop("userId"), Some("8"));
    assert_eq!(msg.get_prop("note"), Some("a:b "));
    assert_eq!(msg.get_prop("late"), None);
    assert_eq!(msg.get_prop("end"), None);
}

#[test]
fn scanner_stops_at_the_empty_line() {
    let stream = b"dradu/0.1 Msg\ncontentLength:2\n\nhi";
    let mut scanner = HeaderScanner::new();
    let mut used = 0;
    for byte in stream.iter() {
        used += 1;
        if scanner.push(*byte) {
            break;
        }
    }
    assert_eq!(used, stream.len() - 2);
    let header = scanner.take();
    assert_eq!(header, b"dradu/0.1 Msg\ncontentLength:2\n\n");
    let (msg, length) = decode_header(header).ok().unwrap();
    assert_eq!(msg.msg_type(), MsgType::Msg);
    assert_eq!(length, 2);
    assert!(scanner.take().is_empty());
}

#[test]
fn header_bytes_that_are_refused() {
    assert_eq!(decode_header(vec![0xff, 0xfe]).err(), Some(DraduError::ProtocolError));
    assert_eq!(
        decode_header(b"dradu/0.1 Msg\ncontentLength:two\n\n".to_vec()).err(),
        Some(DraduError::ProtocolError)
    );
    assert_eq!(
        decode_header(b"dradu/0.1 Msg\ncontentLength:-1\n\n".to_vec()).err(),
        Some(DraduError::ProtocolError)
    );
    assert_eq!(decode_header(b"hello\n\n".to_vec()).err(), Some(DraduError::ProtocolError));
    let (_, length) =
        decode_header(b"dradu/0.1 Msg\ncontentLength:+12\n\n".to_vec()).ok().unwrap();
    assert_eq!(length, 12);
}

#[test]
fn body_by_content_type() {
    match decode_body(Some("json"), b"{\"a\":1}".to_vec()).ok().unwrap() {
        Some(MsgBody::Json(j)) => assert_eq!(j.get("a").unwrap().as_u8(), Some(1)),
        _ => panic!("no JSON body"),
    }
    match decode_body(Some("text"), vec![b'a', 0xff, b'b']).ok().unwrap() {
        Some(MsgBody::Text(t)) => assert_eq!(t, "a\u{fffd}b"),
        _ => panic!("no text body"),
    }
    match decode_body(Some("bin"), vec![1, 2]).ok().unwrap() {
        Some(MsgBody::Bin(b)) => assert_eq!(b, vec![1, 2]),
        _ => panic!("no binary body"),
    }
    match decode_body(None, vec![9]).ok().unwrap() {
        Some(MsgBody::Bin(b)) => assert_eq!(b, vec![9]),
        _ => panic!("no binary body"),
    }
    match decode_body(Some("JSON"), vec![b'{']).ok().unwrap() {
        Some(MsgBody::Bin(b)) => assert_eq!(b, vec![b'{']),
        _ => panic!("no binary body"),
    }
    assert!(decode_body(Some("json"), Vec::new()).ok().unwrap().is_none());
    assert!(decode_body(Some("image"), Vec::new()).ok().unwrap().is_none());
}

#[test]
fn body_that_is_refused() {
    assert_eq!(
        decode_body(Some("json"), b"{\"a\":".to_vec()).err(),
        Some(DraduError::ProtocolError)
    );
    assert_eq!(decode_body(Some("json"), vec![0xff]).err(), Some(DraduError::ProtocolError));
    match decode_body(Some("image"), vec![1, 2, 3]) {
        Err(DraduError::ImageLoadError(_)) => {}
        _ => panic!("bytes that are no picture were taken"),
    }
    assert!(MsgBody::retained_image(&[0, 1]).is_err());
}

#[test]
fn picture_body_is_decoded() {
    match decode_body(Some("image"), png_bytes()).ok().unwrap() {
        Some(MsgBody::Image(picture)) => assert_eq!(picture.size(), [2, 3]),
        _ => panic!("no picture"),
    }
    let header =
        Message::from_str("dradu/0.1 File\npath:a.png\ncontentType:image").ok().unwrap();
    let mut msg = attach_decoded(header, png_bytes()).ok().unwrap();
    assert!(!msg.is_sendable());
    assert_eq!(msg.get_prop("path"), Some("a.png"));
    assert!(matches!(msg.take_body(), Some(MsgBody::Image(_))));
    assert!(msg.take_body().is_none());
    assert!(msg.is_sendable());
}

#[test]
fn whole_message_round_trip() {
    let mut msg = Message::new(MsgType::Msg).set_prop("userId", "u1");
    msg.attach_body(MsgBody::Text("good evening".to_string()));
    let bytes = msg.into_bytes();
    let split = bytes.len() - 12;
    let (header, length) = decode_header(bytes[..split].to_vec()).ok().unwrap();
    assert_eq!(length, 12);
    let mut back = attach_decoded(header, bytes[split..].to_vec()).ok().unwrap();
    assert_eq!(back.msg_type(), MsgType::Msg);
    assert_eq!(back.get_prop("userId"), Some("u1"));
    assert_eq!(back.get_prop("contentType"), Some("text"));
    assert_eq!(back.get_prop("contentLength"), Some("12"));
    match back.take_body() {
        Some(MsgBody::Text(t)) => assert_eq!(t, "good evening"),
        _ => panic!("no text body"),
    }
}

#[test]
fn messages_read_back_from_their_bytes() {
    let mut first = Message::new(MsgType::File)
        .set_prop("path", "a b/c.bin")
        .set_prop("note", "x: y  z");
    first.attach_body(MsgBody::Bin(vec![10, 10, 0, 255]));
    let mut stream = first.into_bytes();
    let first_len = stream.len();
    let second = Message::new(MsgType::Synced).set_prop("n\u{e4}me", "v\u{e4}lue\u{2028}x");
    stream.extend(second.into_bytes());

    let (mut msg, used) = read_message(&stream).ok().unwrap().unwrap();
    assert_eq!(used, first_len);
    assert_eq!(msg.msg_type(), MsgType::File);
    assert_eq!(msg.get_prop("path"), Some("a b/c.bin"));
    assert_eq!(msg.get_prop("note"), Some("x: y  z"));
    assert_eq!(msg.get_prop("contentType"), Some("bin"));
    assert_eq!(msg.get_prop("contentLength"), Some("4"));
    assert!(matches!(msg.take_body(), Some(MsgBody::Bin(b)) if b == vec![10, 10, 0, 255]));

    let rest = stream[used..].to_vec();
    let (msg, used) = read_message(&rest).ok().unwrap().unwrap();
    assert_eq!(used, rest.len());
    assert_eq!(msg.msg_type(), MsgType::Synced);
    assert_eq!(msg.get_prop("n\u{e4}me"), Some("v\u{e4}lue\u{2028}x"));
    assert!(msg.body().is_none());
}

#[test]
fn bytes_that_hold_no_whole_message() {
    let mut msg = Message::new(MsgType::Msg);
    msg.attach_body(MsgBody::Text("hello".to_string()));
    let bytes = msg.into_bytes();
    for cut in 0..bytes.len() {
        assert!(read_message(&bytes[..cut].to_vec()).ok().unwrap().is_none());
    }
    assert!(read_message(&bytes).ok().unwrap().is_some());
    assert_eq!(find_header_end(&bytes), Some(bytes.len() - 5));
    assert_eq!(find_header_end(&b"a\nb\n".to_vec()), None);
    assert_eq!(find_header_end(&b"\n\n\n".to_vec()), Some(2));
    assert_eq!(read_message(&b"junk\n\n".to_vec()).err(), Some(DraduError::ProtocolError));
}

#[test]
fn picture_from_bytes_has_the_size_of_the_file() {
    match MsgBody::retained_image(&png_bytes()) {
        Ok(MsgBody::Image(picture)) => assert_eq!(picture.size(), [2, 3]),
        _ => panic!("no picture"),
    }
    let first = match MsgBody::retained_image(b"not a picture") {
        Err(DraduError::ImageLoadError(text)) => text,
        _ => panic!("bytes that are no picture were taken"),
    };
    let second = match MsgBody::retained_image(b"not a picture") {
        Err(DraduError::ImageLoadError(text)) => text,
        _ => panic!("bytes that are no picture were taken"),
    };
    assert!(!first.is_empty());
    assert_eq!(first, second);
}
