//! Taking messages off a byte stream: where a header ends, how long the body
//! is, and what the body's bytes mean.

use vstd::prelude::*;
use vstd::utf8::{decode_utf8, valid_utf8};
use crate::dict::value_of;
use crate::error::DraduError;
use crate::json::{parsed, Json};
use crate::message::{
    content_length_key, content_type_key, parse_header, BodyView, Message, MessageView, MsgBody,
};
use crate::text::{parse_range, parse_unsigned, to_chars};

verus! {

/// `String::from_utf8` of std: the text that the bytes encode, or nothing
/// where the bytes are not UTF-8.
#[verifier::external_body]
fn utf8_string(bytes: Vec<u8>) -> (r: Option<String>)
    ensures
        match r {
            Some(s) => valid_utf8(bytes@) && s@ == decode_utf8(bytes@),
            None => !valid_utf8(bytes@),
        },
{
    String::from_utf8(bytes).ok()
}

/// The text that `String::from_utf8_lossy` makes of bytes: what is not
/// UTF-8 in them gives replacement characters.
pub uninterp spec fn lossy_text(bytes: Seq<u8>) -> Seq<char>;

/// `String::from_utf8_lossy` of std. Bytes that are UTF-8 give the text that
/// they encode.
#[verifier::external_body]
fn lossy_string(bytes: &Vec<u8>) -> (r: String)
    ensures
        r@ == lossy_text(bytes@),
        valid_utf8(bytes@) ==> r@ == decode_utf8(bytes@),
{
    String::from_utf8_lossy(bytes).into_owned()
}

/// Whether `bytes` end with the empty line that closes a header.
pub open spec fn ends_header(bytes: Seq<u8>) -> bool {
    bytes.len() >= 2 && bytes[bytes.len() - 1] == 10 && bytes[bytes.len() - 2] == 10
}

/// Collects the bytes of a header, one at a time, until the empty line.
pub struct HeaderScanner {
    bytes: Vec<u8>,
    newlines: u8,
}

impl View for HeaderScanner {
    type V = Seq<u8>;

    closed spec fn view(&self) -> Seq<u8> {
        self.bytes@
    }
}

impl HeaderScanner {
    /// The header is still open, and the count of line feeds at its end is right.
    pub closed spec fn wf(&self) -> bool {
        &&& !ends_header(self.bytes@)
        &&& self.newlines == if self.bytes@.len() > 0 && self.bytes@.last() == 10 {
            1int
        } else {
            0int
        }
    }

    /// A scanner that has seen nothing.
    pub fn new() -> (s: Self)
        ensures
            s@ == Seq::<u8>::empty(),
            s.wf(),
    {
        HeaderScanner { bytes: Vec::new(), newlines: 0 }
    }

    /// Takes the next byte of the stream. The answer is `true` when this byte
    /// completes the header: it is the second of two line feeds in a row.
    pub fn push(&mut self, byte: u8) -> (done: bool)
        requires
            old(self).wf(),
        ensures
            final(self)@ == old(self)@.push(byte),
            done == ends_header(final(self)@),
            !done ==> final(self).wf(),
    {
        self.bytes.push(byte);
        if byte == 10 {
            self.newlines = self.newlines + 1;
            self.newlines == 2
        } else {
            self.newlines = 0;
            false
        }
    }

    /// Hands out the bytes seen so far and starts over.
    pub fn take(&mut self) -> (bytes: Vec<u8>)
        ensures
            bytes@ == old(self)@,
            final(self)@ == Seq::<u8>::empty(),
            final(self).wf(),
    {
        let mut out: Vec<u8> = Vec::new();
        std::mem::swap(&mut out, &mut self.bytes);
        self.newlines = 0;
        out
    }
}

/// The number of body bytes that a header announces: what its content length
/// says in decimal, 0 where it names none, nothing where it is no number.
pub open spec fn announced_length(props: Seq<(Seq<char>, Seq<char>)>) -> Option<nat> {
    match value_of(props, content_length_key()) {
        Some(text) => parse_unsigned(text, usize::MAX as nat),
        None => Some(0),
    }
}

/// What the bytes of a received header mean: the message without its body and
/// the length of the body that follows, or a protocol error where the bytes
/// are not UTF-8, not a header, or announce no proper length.
pub open spec fn header_of(bytes: Seq<u8>) -> Option<(MessageView, nat)> {
    if !valid_utf8(bytes) {
        None
    } else {
        match parse_header(decode_utf8(bytes)) {
            Some((kind, props)) => match announced_length(props) {
                Some(n) => Some((MessageView { kind, props, body: None }, n)),
                None => None,
            },
            None => None,
        }
    }
}

/// Reads the header that `bytes` hold.
pub fn decode_header(bytes: Vec<u8>) -> (r: Result<(Message, usize), DraduError>)
    ensures
        match header_of(bytes@) {
            Some((m, n)) => r is Ok && r->Ok_0.0@ == m && r->Ok_0.1 == n && r->Ok_0.0.wf(),
            None => r is Err && r->Err_0 == DraduError::ProtocolError,
        },
{
    let text = match utf8_string(bytes) {
        Some(text) => text,
        None => {
            return Err(DraduError::ProtocolError);
        },
    };
    let msg = match Message::from_str(text.as_str()) {
        Ok(msg) => msg,
        Err(_) => {
            return Err(DraduError::ProtocolError);
        },
    };
    let length: usize = match msg.get_prop("contentLength") {
        Some(text) => {
            let v = to_chars(text);
            assert(v@.subrange(0, v@.len() as int) == v@);
            match parse_range(&v, 0, v.len(), usize::MAX as u64) {
                Some(n) => n as usize,
                None => {
                    return Err(DraduError::ProtocolError);
                },
            }
        },
        None => 0,
    };
    Ok((msg, length))
}

/// What the bytes of a body mean under a content type, up to the decoding of
/// pictures: `Ok(None)` for no bytes, a protocol error for JSON that does not
/// parse.
pub open spec fn plain_body(content_type: Option<Seq<char>>, bytes: Seq<u8>) -> Result<
    Option<BodyView>,
    DraduError,
> {
    if bytes.len() == 0 {
        Ok(None)
    } else if content_type == Some("json"@) {
        if valid_utf8(bytes) && parsed(decode_utf8(bytes)) is Some {
            Ok(Some(BodyView::Json(parsed(decode_utf8(bytes)).unwrap())))
        } else {
            Err(DraduError::ProtocolError)
        }
    } else if content_type == Some("text"@) {
        Ok(Some(BodyView::Text(lossy_text(bytes))))
    } else {
        Ok(Some(BodyView::Bin(bytes)))
    }
}

/// Whether a body of this type and length is a picture to decode.
pub open spec fn is_picture(content_type: Option<Seq<char>>, bytes: Seq<u8>) -> bool {
    bytes.len() > 0 && content_type == Some("image"@)
}

/// Decodes the bytes of a body as its content type asks: JSON is parsed, text
/// is read as UTF-8 with replacement characters, a picture is decoded, and
/// anything else stays as bytes. No bytes mean no body.
pub fn decode_body(content_type: Option<&str>, bytes: Vec<u8>) -> (r: Result<
    Option<MsgBody>,
    DraduError,
>)
    ensures
        is_picture(
            match content_type {
                Some(t) => Some(t@),
                None => None,
            },
            bytes@,
        ) ==> match r {
            Ok(body) => body is Some && body.unwrap()@ is Image,
            Err(e) => e is ImageLoadError,
        },
        !is_picture(
            match content_type {
                Some(t) => Some(t@),
                None => None,
            },
            bytes@,
        ) ==> match plain_body(
            match content_type {
                Some(t) => Some(t@),
                None => None,
            },
            bytes@,
        ) {
            Ok(body) => r is Ok && match body {
                Some(b) => r->Ok_0 is Some && r->Ok_0.unwrap()@ == b,
                None => r->Ok_0 is None,
            },
            Err(e) => r is Err && r->Err_0 == e,
        },
{
    if bytes.len() == 0 {
        return Ok(None);
    }
    let kind = match content_type {
        Some(t) => t.to_owned(),
        None => String::new(),
    };
    proof {
        reveal_strlit("json");
        reveal_strlit("text");
        reveal_strlit("image");
        assert("json"@.len() == 4 && "text"@.len() == 4 && "image"@.len() == 5);
    }
    if content_type.is_some() && kind == "json".to_owned() {
        match utf8_string(bytes) {
            Some(text) => match Json::parse(text.as_str()) {
                Some(json) => Ok(Some(MsgBody::Json(json))),
                None => Err(DraduError::ProtocolError),
            },
            None => Err(DraduError::ProtocolError),
        }
    } else if content_type.is_some() && kind == "text".to_owned() {
        Ok(Some(MsgBody::Text(lossy_string(&bytes))))
    } else if content_type.is_some() && kind == "image".to_owned() {
        match MsgBody::retained_image(bytes.as_slice()) {
            Ok(body) => Ok(Some(body)),
            Err(e) => Err(e),
        }
    } else {
        Ok(Some(MsgBody::Bin(bytes)))
    }
}

/// Completes a received message: decodes the bytes that followed its header
/// under the content type that the header names, and attaches the body.
pub fn attach_decoded(msg: Message, bytes: Vec<u8>) -> (r: Result<Message, DraduError>)
    requires
        msg.wf(),
    ensures
        is_picture(value_of(msg@.props, content_type_key()), bytes@) ==> match r {
            Ok(m) => m@.kind == msg@.kind && m@.props == msg@.props && m@.body is Some
                && m@.body.unwrap() is Image && m.wf(),
            Err(e) => e is ImageLoadError,
        },
        !is_picture(value_of(msg@.props, content_type_key()), bytes@) ==> match plain_body(
            value_of(msg@.props, content_type_key()),
            bytes@,
        ) {
            Ok(Some(b)) => r is Ok && r->Ok_0@ == (MessageView { body: Some(b), ..msg@ })
                && r->Ok_0.wf(),
            Ok(None) => r is Ok && r->Ok_0@ == msg@ && r->Ok_0.wf(),
            Err(e) => r is Err && r->Err_0 == e,
        },
{
    let mut msg = msg;
    let decoded = decode_body(msg.get_prop("contentType"), bytes);
    match decoded {
        Ok(Some(body)) => {
            msg.attach_body(body);
            Ok(msg)
        },
        Ok(None) => Ok(msg),
        Err(e) => Err(e),
    }
}

/// The header of a message ends at `n`: the first `n` bytes end with the
/// empty line, and no shorter run of the first bytes does.
pub open spec fn header_ends_at(bytes: Seq<u8>, n: int) -> bool {
    &&& 2 <= n <= bytes.len()
    &&& ends_header(bytes.subrange(0, n))
    &&& forall|k: int| 0 <= k < n ==> !ends_header(#[trigger] bytes.subrange(0, k))
}

/// A header ends at one place only.
pub proof fn lemma_header_end_unique(bytes: Seq<u8>, a: int, b: int)
    requires
        header_ends_at(bytes, a),
        header_ends_at(bytes, b),
    ensures
        a == b,
{
    if a < b {
        assert(!ends_header(bytes.subrange(0, a)));
    } else if b < a {
        assert(!ends_header(bytes.subrange(0, b)));
    }
}

/// What a run of bytes off the stream begins with.
pub enum Framed {
    /// Not a whole message yet: the header or the body is not all there.
    Incomplete,
    /// A header that cannot be read.
    Malformed,
    /// A whole message: the header, its length in bytes, and the bytes of
    /// the body that follow it.
    Whole { header: MessageView, header_len: nat, body: Seq<u8> },
}

/// What `bytes` begin with: the header up to the first empty line, and as
/// many bytes behind it as the header announces.
pub open spec fn framed(bytes: Seq<u8>) -> Framed {
    if exists|n: int| header_ends_at(bytes, n) {
        let n = choose|n: int| header_ends_at(bytes, n);
        match header_of(bytes.subrange(0, n)) {
            None => Framed::Malformed,
            Some((header, length)) => if n + length <= bytes.len() {
                Framed::Whole {
                    header,
                    header_len: n as nat,
                    body: bytes.subrange(n, n + length),
                }
            } else {
                Framed::Incomplete
            },
        }
    } else {
        Framed::Incomplete
    }
}

/// Where the header that `bytes` begin with ends, if it is all there.
pub fn find_header_end(bytes: &Vec<u8>) -> (r: Option<usize>)
    ensures
        match r {
            Some(n) => header_ends_at(bytes@, n as int),
            None => forall|n: int| !header_ends_at(bytes@, n),
        },
{
    let mut scanner = HeaderScanner::new();
    let mut i: usize = 0;
    assert(bytes@.subrange(0, 0) =~= Seq::<u8>::empty());
    while i < bytes.len()
        invariant
            i <= bytes@.len(),
            scanner.wf(),
            scanner@ == bytes@.subrange(0, i as int),
            forall|k: int| 0 <= k <= i ==> !ends_header(#[trigger] bytes@.subrange(0, k)),
        decreases bytes@.len() - i,
    {
        let done = scanner.push(bytes[i]);
        assert(bytes@.subrange(0, i + 1) =~= bytes@.subrange(0, i as int).push(bytes@[i as int]));
        i += 1;
        if done {
            return Some(i);
        }
    }
    assert forall|n: int| !header_ends_at(bytes@, n) by {
        if header_ends_at(bytes@, n) {
            assert(!ends_header(bytes@.subrange(0, n)));
        }
    }
    None
}

/// The bytes `bytes[from..to]`.
fn copy_range(bytes: &Vec<u8>, from: usize, to: usize) -> (out: Vec<u8>)
    requires
        from <= to <= bytes@.len(),
    ensures
        out@ == bytes@.subrange(from as int, to as int),
{
    let mut out: Vec<u8> = Vec::new();
    let mut i: usize = from;
    while i < to
        invariant
            from <= i <= to <= bytes@.len(),
            out@ == bytes@.subrange(from as int, i as int),
        decreases to - i,
    {
        out.push(bytes[i]);
        i += 1;
        assert(bytes@.subrange(from as int, i as int) == bytes@.subrange(from as int, i - 1).push(
            bytes@[i - 1],
        ));
    }
    out
}

/// Reads the message that `bytes` begin with: the header up to the first
/// empty line, then the body in the length that the header announces. The
/// answer is the message and the number of bytes that it took, or nothing
/// where the bytes do not hold a whole message yet.
pub fn read_message(bytes: &Vec<u8>) -> (r: Result<Option<(Message, usize)>, DraduError>)
    ensures
        match framed(bytes@) {
            Framed::Incomplete => r is Ok && r->Ok_0 is None,
            Framed::Malformed => r is Err && r->Err_0 == DraduError::ProtocolError,
            Framed::Whole { header, header_len, body } => {
                let content_type = value_of(header.props, content_type_key());
                if is_picture(content_type, body) {
                    match r {
                        Ok(Some((m, used))) => m@.kind == header.kind && m@.props == header.props
                            && m@.body is Some && m@.body.unwrap() is Image && m.wf() && used
                            == header_len + body.len(),
                        Ok(None) => false,
                        Err(e) => e is ImageLoadError,
                    }
                } else {
                    match plain_body(content_type, body) {
                        Ok(decoded) => r is Ok && r->Ok_0 is Some && r->Ok_0.unwrap().0@ == (
                        MessageView { body: decoded, ..header }) && r->Ok_0.unwrap().0.wf()
                            && r->Ok_0.unwrap().1 == header_len + body.len(),
                        Err(e) => r is Err && r->Err_0 == e,
                    }
                }
            },
        },
{
    let n = match find_header_end(bytes) {
        Some(n) => n,
        None => {
            return Ok(None);
        },
    };
    proof {
        let found = choose|k: int| header_ends_at(bytes@, k);
        lemma_header_end_unique(bytes@, n as int, found);
    }
    let (msg, length) = match decode_header(copy_range(bytes, 0, n)) {
        Ok(r) => r,
        Err(e) => {
            return Err(e);
        },
    };
    if length > bytes.len() - n {
        return Ok(None);
    }
    let body = copy_range(bytes, n, n + length);
    match attach_decoded(msg, body) {
        Ok(m) => Ok(Some((m, n + length))),
        Err(e) => Err(e),
    }
}

} // verus!
