//! The protocol unit: a kind, properties, and an optional body, with its
//! textual header.

use vstd::prelude::*;
use vstd::string::StrSliceExecFns;
use vstd::utf8::encode_utf8;
use egui_extras::RetainedImage;
use crate::dict::{
    distinct_keys, has_key, lemma_text_entries, lemma_text_put, lemma_text_value, put,
    text_entries, value_of, Dict,
};
use crate::error::DraduError;
use crate::json::{Json, JsonView};
use crate::text::{
    decimal, decimal_string, eq_ignore_case, find_char, first_pos, from_chars, has_char,
    lemma_first_pos, range_eq, range_eq_ignore_case, skip_spaces, to_chars, trim, trim_range,
    trim_start,
};
use crate::utils::{chars_compatible, compatible};

verus! {

/// `RetainedImage` of egui_extras, taken as it is: a picture ready to be shown.
#[verifier::external_type_specification]
#[verifier::external_body]
pub struct ExRetainedImage(RetainedImage);

/// What a message is for.
#[derive(Clone, Copy, Debug, PartialEq, Eq, Structural)]
pub enum MsgType {
    Join,
    Init,
    Quit,
    MapDelta,
    Player,
    Msg,
    Perm,
    File,
    Error,
    Synced,
    Okay,
}

/// The name of a kind on the wire.
pub open spec fn kind_name(kind: MsgType) -> Seq<char> {
    match kind {
        MsgType::Join => seq!['J', 'o', 'i', 'n'],
        MsgType::Init => seq!['I', 'n', 'i', 't'],
        MsgType::Quit => seq!['Q', 'u', 'i', 't'],
        MsgType::MapDelta => seq!['M', 'a', 'p'],
        MsgType::Player => seq!['P', 'l', 'a', 'y', 'e', 'r'],
        MsgType::Msg => seq!['M', 's', 'g'],
        MsgType::Perm => seq!['P', 'e', 'r', 'm'],
        MsgType::File => seq!['F', 'i', 'l', 'e'],
        MsgType::Error => seq!['E', 'r', 'r'],
        MsgType::Synced => seq!['S', 'y', 'n', 'c', 'e', 'd'],
        MsgType::Okay => seq!['O', 'k'],
    }
}

/// The kind that a name denotes; letters match in either case.
pub open spec fn kind_of_name(name: Seq<char>) -> Option<MsgType> {
    if eq_ignore_case(name, kind_name(MsgType::Join)) {
        Some(MsgType::Join)
    } else if eq_ignore_case(name, kind_name(MsgType::Init)) {
        Some(MsgType::Init)
    } else if eq_ignore_case(name, kind_name(MsgType::Quit)) {
        Some(MsgType::Quit)
    } else if eq_ignore_case(name, kind_name(MsgType::MapDelta)) {
        Some(MsgType::MapDelta)
    } else if eq_ignore_case(name, kind_name(MsgType::Player)) {
        Some(MsgType::Player)
    } else if eq_ignore_case(name, kind_name(MsgType::Msg)) {
        Some(MsgType::Msg)
    } else if eq_ignore_case(name, kind_name(MsgType::Perm)) {
        Some(MsgType::Perm)
    } else if eq_ignore_case(name, kind_name(MsgType::File)) {
        Some(MsgType::File)
    } else if eq_ignore_case(name, kind_name(MsgType::Error)) {
        Some(MsgType::Error)
    } else if eq_ignore_case(name, kind_name(MsgType::Synced)) {
        Some(MsgType::Synced)
    } else if eq_ignore_case(name, kind_name(MsgType::Okay)) {
        Some(MsgType::Okay)
    } else {
        None
    }
}

impl MsgType {
    /// The name of this kind on the wire.
    pub fn name(&self) -> (s: &'static str)
        ensures
            s@ == kind_name(*self),
    {
        proof {
            reveal_strlit("Join");
            reveal_strlit("Init");
            reveal_strlit("Quit");
            reveal_strlit("Map");
            reveal_strlit("Player");
            reveal_strlit("Msg");
            reveal_strlit("Perm");
            reveal_strlit("File");
            reveal_strlit("Err");
            reveal_strlit("Synced");
            reveal_strlit("Ok");
        }
        let s = match self {
            MsgType::Join => "Join",
            MsgType::Init => "Init",
            MsgType::Quit => "Quit",
            MsgType::MapDelta => "Map",
            MsgType::Player => "Player",
            MsgType::Msg => "Msg",
            MsgType::Perm => "Perm",
            MsgType::File => "File",
            MsgType::Error => "Err",
            MsgType::Synced => "Synced",
            MsgType::Okay => "Ok",
        };
        assert(s@ =~= kind_name(*self));
        s
    }

    /// The kind that `name` denotes; letters match in either case.
    pub fn from_name(name: &str) -> (r: Option<MsgType>)
        ensures
            r == kind_of_name(name@),
    {
        let v = to_chars(name);
        assert(v@.subrange(0, v@.len() as int) == v@);
        MsgType::from_chars(&v, 0, v.len())
    }

    /// The kind that `v[lo..hi]` denotes.
    pub fn from_chars(v: &Vec<char>, lo: usize, hi: usize) -> (r: Option<MsgType>)
        requires
            lo <= hi <= v@.len(),
        ensures
            r == kind_of_name(v@.subrange(lo as int, hi as int)),
    {
        if range_eq_ignore_case(v, lo, hi, &to_chars(MsgType::Join.name())) {
            Some(MsgType::Join)
        } else if range_eq_ignore_case(v, lo, hi, &to_chars(MsgType::Init.name())) {
            Some(MsgType::Init)
        } else if range_eq_ignore_case(v, lo, hi, &to_chars(MsgType::Quit.name())) {
            Some(MsgType::Quit)
        } else if range_eq_ignore_case(v, lo, hi, &to_chars(MsgType::MapDelta.name())) {
            Some(MsgType::MapDelta)
        } else if range_eq_ignore_case(v, lo, hi, &to_chars(MsgType::Player.name())) {
            Some(MsgType::Player)
        } else if range_eq_ignore_case(v, lo, hi, &to_chars(MsgType::Msg.name())) {
            Some(MsgType::Msg)
        } else if range_eq_ignore_case(v, lo, hi, &to_chars(MsgType::Perm.name())) {
            Some(MsgType::Perm)
        } else if range_eq_ignore_case(v, lo, hi, &to_chars(MsgType::File.name())) {
            Some(MsgType::File)
        } else if range_eq_ignore_case(v, lo, hi, &to_chars(MsgType::Error.name())) {
            Some(MsgType::Error)
        } else if range_eq_ignore_case(v, lo, hi, &to_chars(MsgType::Synced.name())) {
            Some(MsgType::Synced)
        } else if range_eq_ignore_case(v, lo, hi, &to_chars(MsgType::Okay.name())) {
            Some(MsgType::Okay)
        } else {
            None
        }
    }
}

/// The content of a message.
pub enum MsgBody {
    Json(Json),
    /// A decoded picture. It comes in with a message and is never sent.
    Image(RetainedImage),
    Bin(Vec<u8>),
    Text(String),
}

/// The mathematical value of a [`MsgBody`].
pub enum BodyView {
    Json(JsonView),
    Image(RetainedImage),
    Bin(Seq<u8>),
    Text(Seq<char>),
}

impl View for MsgBody {
    type V = BodyView;

    open spec fn view(&self) -> BodyView {
        match self {
            MsgBody::Json(j) => BodyView::Json(j@),
            MsgBody::Image(i) => BodyView::Image(*i),
            MsgBody::Bin(b) => BodyView::Bin(b@),
            MsgBody::Text(t) => BodyView::Text(t@),
        }
    }
}

impl BodyView {
    /// The name of the body's content type.
    pub open spec fn content_type(self) -> Seq<char> {
        match self {
            BodyView::Json(_) => seq!['j', 's', 'o', 'n'],
            BodyView::Text(_) => seq!['t', 'e', 'x', 't'],
            BodyView::Image(_) => seq!['i', 'm', 'a', 'g', 'e'],
            BodyView::Bin(_) => seq!['b', 'i', 'n'],
        }
    }

    /// The bytes that stand for the body on the wire. A picture has none.
    pub open spec fn bytes(self) -> Seq<u8> {
        match self {
            BodyView::Json(j) => encode_utf8(j.text()),
            BodyView::Text(t) => encode_utf8(t),
            BodyView::Bin(b) => b,
            BodyView::Image(_) => Seq::empty(),
        }
    }
}

/// Width and height, in pixels, of a picture, as `RetainedImage::size` gives
/// them.
pub uninterp spec fn picture_size(image: RetainedImage) -> (nat, nat);

/// The pixels that a picture was made of, row by row: red, green, blue, alpha.
pub uninterp spec fn picture_pixels(image: RetainedImage) -> Seq<(u8, u8, u8, u8)>;

impl MsgBody {
    /// The bytes that stand for the body on the wire.
    pub fn into_bytes(self) -> (bytes: Vec<u8>)
        requires
            !(self@ is Image),
        ensures
            bytes@ == self@.bytes(),
    {
        match self {
            MsgBody::Bin(b) => b,
            MsgBody::Json(json) => json.to_text().as_str().as_bytes_vec(),
            MsgBody::Text(t) => t.as_str().as_bytes_vec(),
            MsgBody::Image(_) => Vec::new(),
        }
    }

    /// A picture body decoded from the bytes of an image file.
    pub fn retained_image(bytes: &[u8]) -> (r: Result<MsgBody, DraduError>)
        ensures
            match decoded_picture(bytes@) {
                Ok(size) => r is Ok && r->Ok_0@ is Image && picture_size(r->Ok_0@->Image_0)
                    == size,
                Err(text) => r is Err && r->Err_0 is ImageLoadError
                    && r->Err_0->ImageLoadError_0@ == text,
            },
    {
        MsgBody::image_from(decode_image(bytes))
    }

    /// The body, or the error, that the outcome of decoding a picture gives.
    pub fn image_from(decoded: Result<RetainedImage, String>) -> (r: Result<MsgBody, DraduError>)
        ensures
            match decoded {
                Ok(image) => r is Ok && r->Ok_0@ == BodyView::Image(image),
                Err(text) => r is Err && r->Err_0 == DraduError::ImageLoadError(text),
            },
    {
        match decoded {
            Ok(image) => Ok(MsgBody::Image(image)),
            Err(text) => Err(DraduError::ImageLoadError(text)),
        }
    }

    /// The name of the body's content type.
    pub fn content_type(&self) -> (s: &'static str)
        ensures
            s@ == self@.content_type(),
    {
        proof {
            reveal_strlit("json");
            reveal_strlit("text");
            reveal_strlit("image");
            reveal_strlit("bin");
        }
        let s = match self {
            MsgBody::Json(_) => "json",
            MsgBody::Text(_) => "text",
            MsgBody::Image(_) => "image",
            MsgBody::Bin(_) => "bin",
        };
        assert(s@ =~= self@.content_type());
        s
    }
}

/// What decoding the bytes of an image file gives: the size of the picture,
/// or the decoder's words where the bytes are no picture that it reads.
pub uninterp spec fn decoded_picture(bytes: Seq<u8>) -> Result<(nat, nat), Seq<char>>;

/// `RetainedImage::from_image_bytes` of egui_extras, with an empty debug
/// name: the decoded picture, or the decoder's words where the bytes are no
/// picture that it reads. Whether the bytes decode, to what size, and with
/// what words they fail, depends on the bytes alone.
#[verifier::external_body]
fn decode_image(bytes: &[u8]) -> (r: Result<RetainedImage, String>)
    ensures
        match r {
            Ok(image) => decoded_picture(bytes@) == Ok::<(nat, nat), Seq<char>>(
                picture_size(image),
            ),
            Err(text) => decoded_picture(bytes@) == Err::<(nat, nat), Seq<char>>(text@),
        },
{
    RetainedImage::from_image_bytes("", bytes)
}

/// The key of the property that names the body's content type.
pub open spec fn content_type_key() -> Seq<char> {
    "contentType"@
}

/// The key of the property that gives the body's length in bytes.
pub open spec fn content_length_key() -> Seq<char> {
    "contentLength"@
}

/// What a header begins with: the protocol's name and version.
pub open spec fn protocol_prefix() -> Seq<char> {
    seq!['d', 'r', 'a', 'd', 'u', '/', '0', '.', '1', ' ']
}

/// The mathematical value of a [`Message`].
pub struct MessageView {
    pub kind: MsgType,
    /// The properties, in the order in which their keys first came.
    pub props: Seq<(Seq<char>, Seq<char>)>,
    pub body: Option<BodyView>,
}

/// The line of one property: key, colon, value, line feed.
pub open spec fn prop_line(entry: (Seq<char>, Seq<char>)) -> Seq<char> {
    entry.0 + seq![':'] + entry.1 + seq!['\n']
}

/// The lines of the properties, in order.
pub open spec fn prop_lines(props: Seq<(Seq<char>, Seq<char>)>) -> Seq<char>
    decreases props.len(),
{
    if props.len() == 0 {
        Seq::empty()
    } else {
        prop_lines(props.drop_last()) + prop_line(props.last())
    }
}

/// The header: the first line, the property lines, and an empty line.
pub open spec fn header_text(kind: MsgType, props: Seq<(Seq<char>, Seq<char>)>) -> Seq<char> {
    protocol_prefix() + kind_name(kind) + seq!['\n'] + prop_lines(props) + seq!['\n']
}

impl MessageView {
    /// The bytes of the body; none where there is no body.
    pub open spec fn body_bytes(self) -> Seq<u8> {
        match self.body {
            Some(b) => b.bytes(),
            None => Seq::empty(),
        }
    }

    /// The properties as they go on the wire: the content type is added where
    /// there is a body and the sender named none, and the content length is
    /// set to the length of the body in bytes.
    pub open spec fn wire_props(self) -> Seq<(Seq<char>, Seq<char>)> {
        let typed = match self.body {
            Some(b) => if has_key(self.props, content_type_key()) {
                self.props
            } else {
                put(self.props, content_type_key(), b.content_type())
            },
            None => self.props,
        };
        put(typed, content_length_key(), decimal(self.body_bytes().len()))
    }

    /// The message on the wire: the header in UTF-8, then the body.
    pub open spec fn encoded(self) -> Seq<u8> {
        encode_utf8(header_text(self.kind, self.wire_props())) + self.body_bytes()
    }
}

/// One protocol unit.
pub struct Message {
    msg_type: MsgType,
    props: Dict<String>,
    body: Option<MsgBody>,
}

impl View for Message {
    type V = MessageView;

    closed spec fn view(&self) -> MessageView {
        MessageView {
            kind: self.msg_type,
            props: text_entries(self.props@),
            body: match self.body {
                Some(b) => Some(b@),
                None => None,
            },
        }
    }
}

/// Appends the characters of `s` to `out`.
pub fn push_str(out: &mut Vec<char>, s: &str)
    ensures
        final(out)@ == old(out)@ + s@,
{
    let v = to_chars(s);
    let mut i: usize = 0;
    while i < v.len()
        invariant
            i <= v@.len(),
            out@ == old(out)@ + v@.subrange(0, i as int),
        decreases v@.len() - i,
    {
        out.push(v[i]);
        i += 1;
        assert(v@.subrange(0, i as int) == v@.subrange(0, i - 1).push(v@[i - 1]));
    }
    assert(v@.subrange(0, v@.len() as int) == v@);
}

impl Message {
    /// No property key occurs twice.
    pub open spec fn wf(&self) -> bool {
        distinct_keys(self@.props)
    }

    /// A message of the given kind without properties or body.
    pub fn new(msg_type: MsgType) -> (m: Self)
        ensures
            m@ == (MessageView { kind: msg_type, props: Seq::empty(), body: None }),
            m.wf(),
    {
        let m = Message { msg_type, props: Dict::new(), body: None };
        assert(m@.props =~= Seq::empty());
        m
    }

    /// The kind of the message.
    pub fn msg_type(&self) -> (k: MsgType)
        ensures
            k == self@.kind,
    {
        self.msg_type
    }

    /// The value of the property `prop`.
    pub fn get_prop(&self, prop: &str) -> (r: Option<&str>)
        requires
            self.wf(),
        ensures
            match r {
                Some(s) => value_of(self@.props, prop@) == Some(s@),
                None => value_of(self@.props, prop@) is None,
            },
    {
        proof {
            lemma_text_entries(self.props@);
            lemma_text_value(self.props@, prop@);
        }
        match self.props.get(prop) {
            Some(s) => Some(s.as_str()),
            None => None,
        }
    }

    /// The message with the property `key` set to `val`.
    pub fn set_prop(self, key: &str, val: &str) -> (m: Self)
        requires
            self.wf(),
        ensures
            m@ == (MessageView { props: put(self@.props, key@, val@), ..self@ }),
            m.wf(),
    {
        let mut m = self;
        let text = val.to_owned();
        proof {
            lemma_text_entries(m.props@);
            lemma_text_put(m.props@, key@, text);
            crate::dict::lemma_put(self@.props, key@, val@);
        }
        m.props.insert(key.to_owned(), text);
        m
    }

    /// The body, if the message has one.
    pub fn body(&self) -> (r: Option<&MsgBody>)
        ensures
            match r {
                Some(b) => self@.body == Some(b@),
                None => self@.body is None,
            },
    {
        self.body.as_ref()
    }

    /// Takes the body out of the message; a second call finds none.
    pub fn take_body(&mut self) -> (r: Option<MsgBody>)
        ensures
            match r {
                Some(b) => old(self)@.body == Some(b@),
                None => old(self)@.body is None,
            },
            final(self)@ == (MessageView { body: None, ..old(self)@ }),
    {
        self.body.take()
    }

    /// Gives the message the body `body`, in place of any it had.
    pub fn attach_body(&mut self, body: MsgBody)
        ensures
            final(self)@ == (MessageView { body: Some(body@), ..old(self)@ }),
    {
        self.body = Some(body);
    }

    /// Whether the body is text, JSON or raw bytes, or missing: that is,
    /// whether the message can be sent.
    pub fn is_sendable(&self) -> (b: bool)
        ensures
            b == !(self@.body is Some && self@.body.unwrap() is Image),
    {
        match &self.body {
            Some(MsgBody::Image(_)) => false,
            _ => true,
        }
    }

    /// The message on the wire. The content length is computed here, whatever
    /// the sender stored under that key.
    pub fn into_bytes(self) -> (bytes: Vec<u8>)
        requires
            self.wf(),
            !(self@.body is Some && self@.body.unwrap() is Image),
        ensures
            bytes@ == self@.encoded(),
    {
        let Message { msg_type, props, body } = self;
        let mut props = props;
        proof {
            lemma_text_entries(props@);
        }
        let mut body_bytes: Vec<u8> = match body {
            Some(b) => {
                if !props.contains_key("contentType") {
                    let name = b.content_type().to_owned();
                    proof {
                        lemma_text_put(props@, content_type_key(), name);
                        crate::dict::lemma_put(text_entries(props@), content_type_key(), name@);
                    }
                    props.insert("contentType".to_owned(), name);
                }
                b.into_bytes()
            },
            None => Vec::new(),
        };
        let length = decimal_string(body_bytes.len() as u64);
        proof {
            lemma_text_entries(props@);
            lemma_text_put(props@, content_length_key(), length);
        }
        props.insert("contentLength".to_owned(), length);
        assert(text_entries(props@) == self@.wire_props());
        let mut out: Vec<char> = Vec::new();
        push_str(&mut out, "dradu/0.1 ");
        proof {
            reveal_strlit("dradu/0.1 ");
            assert(out@ =~= protocol_prefix());
        }
        push_str(&mut out, msg_type.name());
        out.push('\n');
        let ghost start = out@;
        let ghost entries = text_entries(props@);
        let mut i: usize = 0;
        while i < props.len()
            invariant
                i <= props@.len(),
                entries == text_entries(props@),
                out@ == start + prop_lines(entries.subrange(0, i as int)),
            decreases props@.len() - i,
        {
            push_str(&mut out, props.key_at(i).as_str());
            out.push(':');
            push_str(&mut out, props.value_at(i).as_str());
            out.push('\n');
            i += 1;
            proof {
                let cur = entries.subrange(0, i as int);
                assert(cur.drop_last() == entries.subrange(0, i - 1));
                assert(cur.last() == entries[i - 1]);
                assert(out@ =~= start + prop_lines(cur));
            }
        }
        out.push('\n');
        proof {
            assert(entries.subrange(0, props@.len() as int) == entries);
            assert(out@ =~= header_text(msg_type, entries));
            assert(out@.subrange(0, out@.len() as int) == out@);
        }
        let header = crate::text::from_chars(&out, 0, out.len());
        let mut bytes = header.as_str().as_bytes_vec();
        bytes.append(&mut body_bytes);
        bytes
    }
}

/// A header that could not be read.
#[derive(Clone, Copy, Debug, PartialEq, Eq, Structural)]
pub struct FormatError;

/// The name of the protocol, which a header begins with.
pub open spec fn protocol_name() -> Seq<char> {
    seq!['d', 'r', 'a', 'd', 'u']
}

/// `l` without a carriage return at its end.
pub open spec fn strip_cr(l: Seq<char>) -> Seq<char> {
    if l.len() > 0 && l.last() == '\r' {
        l.drop_last()
    } else {
        l
    }
}

/// The first line of `t`: what stands before the first line feed, without a
/// carriage return in front of it; all of `t` where it has no line feed.
pub open spec fn line_of(t: Seq<char>) -> Seq<char> {
    let p = first_pos(t, '\n');
    if p < t.len() {
        strip_cr(t.subrange(0, p))
    } else {
        t
    }
}

/// What follows the first line of `t`.
pub open spec fn after_line(t: Seq<char>) -> Seq<char> {
    let p = first_pos(t, '\n');
    if p < t.len() {
        t.subrange(p + 1, t.len() as int)
    } else {
        Seq::empty()
    }
}

/// The property that a line `key:value` holds; white space before the value
/// does not count.
pub open spec fn prop_of_line(l: Seq<char>) -> (Seq<char>, Seq<char>) {
    let c = first_pos(l, ':');
    (l.subrange(0, c), trim_start(l.subrange(c + 1, l.len() as int)))
}

/// The properties that the lines of `t` add to `acc`, up to the first line
/// without a colon. A key that comes again replaces the earlier value.
pub open spec fn props_from(t: Seq<char>, acc: Seq<(Seq<char>, Seq<char>)>) -> Seq<
    (Seq<char>, Seq<char>),
>
    decreases t.len(),
    via props_from_decreases
{
    if t.len() == 0 || !has_char(line_of(t), ':') {
        acc
    } else {
        let e = prop_of_line(line_of(t));
        props_from(after_line(t), put(acc, e.0, e.1))
    }
}

#[via_fn]
proof fn props_from_decreases(t: Seq<char>, acc: Seq<(Seq<char>, Seq<char>)>) {
    lemma_first_pos(t, '\n');
}

/// The kind that a first line `dradu/<version> <kind>` names, where the
/// version has this library's major part.
pub open spec fn first_line_kind(l: Seq<char>) -> Option<MsgType> {
    let p = first_pos(l, '/');
    if p == l.len() || l.subrange(0, p) != protocol_name() {
        None
    } else {
        let rest = l.subrange(p + 1, l.len() as int);
        let q = first_pos(rest, ' ');
        if q == rest.len() || compatible(rest.subrange(0, q)) != Some(true) {
            None
        } else {
            kind_of_name(rest.subrange(q + 1, rest.len() as int))
        }
    }
}

/// The kind and the properties that a header text holds, if it is one.
pub open spec fn parse_header(s: Seq<char>) -> Option<(MsgType, Seq<(Seq<char>, Seq<char>)>)> {
    let t = trim(s);
    if t.len() == 0 {
        None
    } else {
        match first_line_kind(line_of(t)) {
            Some(kind) => Some((kind, props_from(after_line(t), Seq::empty()))),
            None => None,
        }
    }
}

/// The end of the first line of `v[pos..hi]`, and where the next line begins.
fn next_line(v: &Vec<char>, pos: usize, hi: usize) -> (r: (usize, usize))
    requires
        pos < hi <= v@.len(),
    ensures
        pos <= r.0 <= r.1 <= hi,
        pos < r.1,
        v@.subrange(pos as int, r.0 as int) == line_of(v@.subrange(pos as int, hi as int)),
        v@.subrange(r.1 as int, hi as int) == after_line(v@.subrange(pos as int, hi as int)),
{
    let ghost t = v@.subrange(pos as int, hi as int);
    let nl = find_char(v, pos, hi, '\n');
    if nl < hi {
        let ghost raw = t.subrange(0, nl - pos);
        assert(raw == v@.subrange(pos as int, nl as int));
        assert(v@.subrange(nl + 1, hi as int) == t.subrange(nl - pos + 1, t.len() as int));
        if nl > pos && v[nl - 1] == '\r' {
            assert(raw.last() == v@[nl - 1]);
            assert(raw.drop_last() == v@.subrange(pos as int, nl - 1));
            (nl - 1, nl + 1)
        } else {
            if nl > pos {
                assert(raw.last() == v@[nl - 1]);
            }
            (nl, nl + 1)
        }
    } else {
        assert(v@.subrange(hi as int, hi as int) == Seq::<char>::empty());
        (hi, hi)
    }
}

/// The kind that the first line `v[lo..hi]` names.
fn read_first_line(v: &Vec<char>, lo: usize, hi: usize) -> (r: Option<MsgType>)
    requires
        lo <= hi <= v@.len(),
    ensures
        r == first_line_kind(v@.subrange(lo as int, hi as int)),
{
    let ghost l = v@.subrange(lo as int, hi as int);
    let p = find_char(v, lo, hi, '/');
    if p == hi {
        return None;
    }
    assert(l.subrange(0, p - lo) == v@.subrange(lo as int, p as int));
    proof {
        reveal_strlit("dradu");
    }
    let name = to_chars("dradu");
    assert(name@ =~= protocol_name());
    if !range_eq(v, lo, p, &name) {
        return None;
    }
    let ghost rest = l.subrange(p - lo + 1, l.len() as int);
    assert(rest == v@.subrange(p + 1, hi as int));
    let q = find_char(v, p + 1, hi, ' ');
    if q == hi {
        return None;
    }
    assert(rest.subrange(0, q - (p + 1)) == v@.subrange(p + 1, q as int));
    assert(rest.subrange(q - (p + 1) + 1, rest.len() as int) == v@.subrange(q + 1, hi as int));
    match chars_compatible(v, p + 1, q) {
        Ok(true) => MsgType::from_chars(v, q + 1, hi),
        _ => None,
    }
}

impl Message {
    /// Reads a header: the first line `dradu/<version> <kind>`, then one
    /// property per line. White space around the text is dropped first. The
    /// result has no body.
    pub fn from_str(s: &str) -> (r: Result<Message, FormatError>)
        ensures
            match parse_header(s@) {
                Some((kind, props)) => r is Ok && r->Ok_0@ == (MessageView {
                    kind,
                    props,
                    body: None,
                }) && r->Ok_0.wf(),
                None => r is Err,
            },
    {
        let v = to_chars(s);
        assert(v@.subrange(0, v@.len() as int) == v@);
        let (lo, hi) = trim_range(&v, 0, v.len());
        if lo == hi {
            return Err(FormatError);
        }
        let ghost t = v@.subrange(lo as int, hi as int);
        let (end, next) = next_line(&v, lo, hi);
        let kind = match read_first_line(&v, lo, end) {
            Some(kind) => kind,
            None => {
                return Err(FormatError);
            },
        };
        let mut props: Dict<String> = Dict::new();
        let mut pos: usize = next;
        let ghost all = props_from(after_line(t), Seq::empty());
        proof {
            assert(text_entries(props@) =~= Seq::empty());
        }
        while pos < hi
            invariant
                pos <= hi <= v@.len(),
                props.wf(),
                all == props_from(v@.subrange(pos as int, hi as int), text_entries(props@)),
            ensures
                all == text_entries(props@),
                props.wf(),
            decreases hi - pos,
        {
            let ghost rem = v@.subrange(pos as int, hi as int);
            let ghost acc = text_entries(props@);
            let (end, next) = next_line(&v, pos, hi);
            let colon = find_char(&v, pos, end, ':');
            if colon == end {
                break ;
            }
            let ghost line = v@.subrange(pos as int, end as int);
            let key = from_chars(&v, pos, colon);
            let from = skip_spaces(&v, colon + 1, end);
            let value = from_chars(&v, from, end);
            proof {
                assert(line.subrange(0, colon - pos) == v@.subrange(pos as int, colon as int));
                assert(line.subrange(colon - pos + 1, line.len() as int) == v@.subrange(
                    colon + 1,
                    end as int,
                ));
                assert(prop_of_line(line) == (key@, value@));
                lemma_text_put(props@, key@, value);
            }
            props.insert(key, value);
            pos = next;
        }
        proof {
            lemma_text_entries(props@);
        }
        let m = Message { msg_type: kind, props, body: None };
        Ok(m)
    }
}

} // verus!
