//! Reading back what was written: a header that is written and read gives
//! the kind and the properties that went in.

use vstd::prelude::*;
use vstd::utf8::{
    char_is_scalar, encode_scalar, encode_utf8, encode_utf8_decode_utf8, encode_utf8_valid_utf8,
};
use crate::dict::{distinct_keys, has_key, index_of, lemma_put, put, value_of};
use crate::frame::{ends_header, framed, header_ends_at, header_of, lemma_header_end_unique, Framed};
use crate::message::{
    after_line, content_length_key, content_type_key, first_line_kind, header_text, kind_name,
    kind_of_name, line_of, parse_header, prop_line, prop_lines, prop_of_line, props_from,
    protocol_name, protocol_prefix, strip_cr, MessageView, MsgType,
};
use crate::text::{
    ascii_lower, decimal, eq_ignore_case, first_pos, has_char, is_space, lemma_first_pos_unique,
    lemma_leading_spaces_unique, lemma_parse_decimal, lemma_trailing_spaces_unique, trim,
    trim_start,
};
use crate::utils::{compatible, own_major};

verus! {

/// A property that a header line can carry unchanged: no line feed in it, no
/// colon in the key, no white space in front of the value and no carriage
/// return at its end.
pub open spec fn plain_entry(e: (Seq<char>, Seq<char>)) -> bool {
    &&& forall|i: int| 0 <= i < e.0.len() ==> #[trigger] e.0[i] != '\n' && e.0[i] != ':'
    &&& forall|i: int| 0 <= i < e.1.len() ==> #[trigger] e.1[i] != '\n'
    &&& e.1.len() > 0 ==> !is_space(e.1[0]) && e.1.last() != '\r'
}

/// Properties that a header can carry unchanged: each is plain, and the value
/// of the last does not end in white space.
pub open spec fn plain_props(props: Seq<(Seq<char>, Seq<char>)>) -> bool {
    &&& forall|i: int| 0 <= i < props.len() ==> plain_entry(#[trigger] props[i])
    &&& props.len() > 0 && props.last().1.len() > 0 ==> !is_space(props.last().1.last())
}

/// The line of a property without the line feed at its end.
pub open spec fn bare_line(e: (Seq<char>, Seq<char>)) -> Seq<char> {
    e.0 + seq![':'] + e.1
}

/// The lines of the properties from place `k` on, with line feeds between
/// them and none at the end.
pub open spec fn lines_from(props: Seq<(Seq<char>, Seq<char>)>, k: int) -> Seq<char>
    decreases props.len() - k,
{
    if k < 0 || k >= props.len() {
        Seq::empty()
    } else if k == props.len() - 1 {
        bare_line(props[k])
    } else {
        bare_line(props[k]) + seq!['\n'] + lines_from(props, k + 1)
    }
}

proof fn lemma_first_pos_split(a: Seq<char>, c: char, b: Seq<char>)
    requires
        forall|i: int| 0 <= i < a.len() ==> #[trigger] a[i] != c,
    ensures
        first_pos(a + seq![c] + b, c) == a.len(),
        first_pos(a, c) == a.len(),
{
    let s = a + seq![c] + b;
    assert(s[a.len() as int] == c);
    assert forall|i: int| 0 <= i < a.len() implies #[trigger] s[i] != c by {
        assert(s[i] == a[i]);
    }
    lemma_first_pos_unique(s, c, a.len() as int);
    lemma_first_pos_unique(a, c, a.len() as int);
}

/// The property lines are the lines from the first on, and a line feed.
proof fn lemma_prop_lines(props: Seq<(Seq<char>, Seq<char>)>, k: int)
    requires
        0 <= k < props.len(),
    ensures
        prop_lines(props.subrange(k, props.len() as int)) == lines_from(props, k) + seq!['\n'],
    decreases props.len() - k,
{
    let n = props.len() as int;
    let s = props.subrange(k, n);
    if k == n - 1 {
        assert(s.drop_last() == Seq::<(Seq<char>, Seq<char>)>::empty());
        assert(prop_lines(s.drop_last()) == Seq::<char>::empty());
        assert(s.last() == props[k]);
        assert(prop_lines(s) =~= bare_line(props[k]) + seq!['\n']);
    } else {
        lemma_prop_lines_left(s);
        assert(s.drop_first() == props.subrange(k + 1, n));
        lemma_prop_lines(props, k + 1);
        assert(s[0] == props[k]);
        assert(prop_lines(s) =~= lines_from(props, k) + seq!['\n']);
    }
}

/// The property lines begin with the line of the first property.
proof fn lemma_prop_lines_left(s: Seq<(Seq<char>, Seq<char>)>)
    requires
        s.len() > 0,
    ensures
        prop_lines(s) == prop_line(s[0]) + prop_lines(s.drop_first()),
    decreases s.len(),
{
    if s.len() == 1 {
        assert(s.drop_last() == Seq::<(Seq<char>, Seq<char>)>::empty());
        assert(s.drop_first() == Seq::<(Seq<char>, Seq<char>)>::empty());
        assert(prop_lines(s.drop_last()) == Seq::<char>::empty());
        assert(prop_lines(s) =~= prop_line(s[0]) + prop_lines(s.drop_first()));
    } else {
        let t = s.drop_last();
        lemma_prop_lines_left(t);
        assert(t.drop_first() == s.drop_first().drop_last());
        assert(t[0] == s[0]);
        assert(s.drop_first().last() == s.last());
        assert(prop_lines(s) =~= prop_line(s[0]) + prop_lines(s.drop_first()));
    }
}

/// What a plain property line reads as.
proof fn lemma_bare_line(e: (Seq<char>, Seq<char>))
    requires
        plain_entry(e),
    ensures
        forall|i: int| 0 <= i < bare_line(e).len() ==> #[trigger] bare_line(e)[i] != '\n',
        has_char(bare_line(e), ':'),
        prop_of_line(bare_line(e)) == e,
        strip_cr(bare_line(e)) == bare_line(e),
        bare_line(e).len() > 0,
{
    let l = bare_line(e);
    assert forall|i: int| 0 <= i < l.len() implies #[trigger] l[i] != '\n' by {
        if i < e.0.len() {
            assert(l[i] == e.0[i]);
        } else if i > e.0.len() {
            assert(l[i] == e.1[i - e.0.len() - 1]);
        }
    }
    lemma_first_pos_split(e.0, ':', e.1);
    assert(l =~= e.0 + seq![':'] + e.1);
    assert(l.subrange(0, e.0.len() as int) =~= e.0);
    let v = l.subrange(e.0.len() as int + 1, l.len() as int);
    assert(v =~= e.1);
    lemma_leading_spaces_unique(e.1, 0);
    assert(e.1.subrange(0, e.1.len() as int) =~= e.1);
    if e.1.len() > 0 {
        assert(l.last() == e.1.last());
    } else {
        assert(l.last() == ':');
    }
}

/// Reading the lines from place `k` on adds the properties from `k` on.
proof fn lemma_props_from(props: Seq<(Seq<char>, Seq<char>)>, k: int)
    requires
        distinct_keys(props),
        forall|i: int| 0 <= i < props.len() ==> plain_entry(#[trigger] props[i]),
        0 <= k < props.len(),
    ensures
        props_from(lines_from(props, k), props.subrange(0, k)) == props,
    decreases props.len() - k,
{
    let n = props.len() as int;
    let e = props[k];
    let l = bare_line(e);
    let acc = props.subrange(0, k);
    let t = lines_from(props, k);
    lemma_bare_line(e);
    assert(!has_key(acc, e.0)) by {
        if has_key(acc, e.0) {
            let j = index_of(acc, e.0);
            assert(acc[j] == props[j]);
            assert(props[j].0 != props[k].0);
        }
    }
    assert(put(acc, e.0, e.1) =~= props.subrange(0, k + 1));
    if k == n - 1 {
        assert(t == l);
        lemma_first_pos_unique(t, '\n', t.len() as int);
        assert(line_of(t) == l);
        assert(after_line(t) == Seq::<char>::empty());
        assert(props.subrange(0, k + 1) == props);
        assert(props_from(Seq::<char>::empty(), props) == props);
    } else {
        let rest = lines_from(props, k + 1);
        assert(t == l + seq!['\n'] + rest);
        lemma_first_pos_split(l, '\n', rest);
        assert(t.subrange(0, l.len() as int) =~= l);
        assert(t.subrange(l.len() as int + 1, t.len() as int) =~= rest);
        assert(line_of(t) == l);
        assert(after_line(t) == rest);
        lemma_props_from(props, k + 1);
    }
}

/// The name of a kind reads as that kind.
pub proof fn lemma_kind_name(kind: MsgType)
    ensures
        kind_of_name(kind_name(kind)) == Some(kind),
        kind_name(kind).len() >= 2,
        forall|i: int|
            0 <= i < kind_name(kind).len() ==> !is_space(#[trigger] kind_name(kind)[i])
                && kind_name(kind)[i] != '/',
{
    let n = kind_name(kind);
    assert(eq_ignore_case(n, n));
    let differs = |other: MsgType|
        other != kind ==> ascii_lower(n[0]) != ascii_lower(kind_name(other)[0]) || n.len()
            != kind_name(other).len() || ascii_lower(n[1]) != ascii_lower(kind_name(other)[1]);
    assert(differs(MsgType::Join));
    assert(differs(MsgType::Init));
    assert(differs(MsgType::Quit));
    assert(differs(MsgType::MapDelta));
    assert(differs(MsgType::Player));
    assert(differs(MsgType::Msg));
    assert(differs(MsgType::Perm));
    assert(differs(MsgType::File));
    assert(differs(MsgType::Error));
    assert(differs(MsgType::Synced));
    assert(differs(MsgType::Okay));
}

/// A first line with this library's version and the name of a kind reads as
/// that kind.
proof fn lemma_first_line(kind: MsgType)
    ensures
        first_line_kind(protocol_prefix() + kind_name(kind)) == Some(kind),
{
    let name = kind_name(kind);
    let l = protocol_prefix() + name;
    lemma_kind_name(kind);
    assert(l =~= protocol_name() + seq!['/'] + (seq!['0', '.', '1', ' '] + name));
    assert forall|i: int| 0 <= i < protocol_name().len() implies #[trigger] protocol_name()[i]
        != '/' by {}
    lemma_first_pos_split(protocol_name(), '/', seq!['0', '.', '1', ' '] + name);
    assert(l.subrange(0, 5) =~= protocol_name());
    let rest = l.subrange(6, l.len() as int);
    let ver = seq!['0', '.', '1'];
    assert(rest =~= ver + seq![' '] + name);
    assert forall|i: int| 0 <= i < ver.len() implies #[trigger] ver[i] != ' ' by {}
    lemma_first_pos_split(ver, ' ', name);
    assert(rest.subrange(0, 3) =~= ver);
    assert(rest.subrange(4, rest.len() as int) =~= name);
    let major = seq!['0'];
    assert(ver =~= major + seq!['.'] + seq!['1']);
    assert forall|i: int| 0 <= i < major.len() implies #[trigger] major[i] != '.' by {}
    lemma_first_pos_split(major, '.', seq!['1']);
    assert(ver.subrange(0, 1) =~= own_major());
    assert(compatible(ver) == Some(true));
}

/// A header that is written and read gives back the kind and the properties
/// that went in, provided that the keys are distinct and the properties are
/// such as a header can carry.
pub proof fn lemma_header_round_trip(kind: MsgType, props: Seq<(Seq<char>, Seq<char>)>)
    requires
        distinct_keys(props),
        plain_props(props),
    ensures
        parse_header(header_text(kind, props)) == Some((kind, props)),
{
    let name = kind_name(kind);
    let first = protocol_prefix() + name;
    let h = header_text(kind, props);
    let n = props.len() as int;
    lemma_kind_name(kind);
    lemma_first_line(kind);
    // The text without the empty line and the line feed in front of it.
    let t = if n == 0 {
        first
    } else {
        first + seq!['\n'] + lines_from(props, 0)
    };
    if n > 0 {
        lemma_prop_lines(props, 0);
        assert(props.subrange(0, n) == props);
        lemma_last_char(props, 0);
    } else {
        assert(prop_lines(props) == Seq::<char>::empty());
    }
    assert(h =~= t + seq!['\n', '\n']);
    assert(t.len() > 0);
    assert(!is_space(t.last())) by {
        if n == 0 {
            assert(t.last() == name[name.len() - 1]);
        } else {
            assert(t.last() == lines_from(props, 0).last());
        }
    }
    assert(h[0] == 'd');
    lemma_leading_spaces_unique(h, 0);
    assert(trim_start(h) =~= h);
    assert forall|i: int| h.len() - 2 <= i < h.len() implies is_space(#[trigger] h[i]) by {}
    assert(h[h.len() - 3] == t.last());
    lemma_trailing_spaces_unique(h, 2);
    assert(trim(h) =~= t);
    assert forall|i: int| 0 <= i < first.len() implies #[trigger] first[i] != '\n' by {
        if i >= 10 {
            assert(first[i] == name[i - 10]);
        }
    }
    assert(first.last() == name[name.len() - 1]);
    if n == 0 {
        lemma_first_pos_unique(t, '\n', t.len() as int);
        assert(line_of(t) == first);
        assert(after_line(t) == Seq::<char>::empty());
        assert(props =~= Seq::empty());
    } else {
        let rest = lines_from(props, 0);
        lemma_first_pos_split(first, '\n', rest);
        assert(t.subrange(0, first.len() as int) =~= first);
        assert(t.subrange(first.len() as int + 1, t.len() as int) =~= rest);
        assert(line_of(t) == first);
        assert(after_line(t) == rest);
        assert(props.subrange(0, 0) =~= Seq::empty());
        lemma_props_from(props, 0);
    }
}

/// The lines from `k` on are not empty, and end as the last property does:
/// with the last character of its value, or with the colon.
proof fn lemma_last_char(props: Seq<(Seq<char>, Seq<char>)>, k: int)
    requires
        0 <= k < props.len(),
        plain_props(props),
    ensures
        lines_from(props, k).len() > 0,
        !is_space(lines_from(props, k).last()),
    decreases props.len() - k,
{
    let e = props[k];
    if k == props.len() - 1 {
        let l = bare_line(e);
        if e.1.len() > 0 {
            assert(l.last() == e.1.last());
        } else {
            assert(l.last() == ':');
        }
    } else {
        lemma_last_char(props, k + 1);
        let rest = lines_from(props, k + 1);
        assert(lines_from(props, k).last() == rest.last());
    }
}

/// A message that is written and read comes back with its kind and with the
/// properties that went on the wire: those of the sender, the content type of
/// the body, and the content length, which is the length of the body in
/// bytes. This holds of every message whose body is no picture and whose
/// properties are such as a header can carry.
pub proof fn lemma_message_round_trip(m: MessageView)
    requires
        distinct_keys(m.props),
        plain_props(m.wire_props()),
        !(m.body is Some && m.body.unwrap() is Image),
        m.body_bytes().len() <= usize::MAX,
    ensures
        header_of(encode_utf8(header_text(m.kind, m.wire_props()))) == Some(
            (MessageView { kind: m.kind, props: m.wire_props(), body: None }, m.body_bytes().len()),
        ),
        value_of(m.wire_props(), content_length_key()) == Some(decimal(m.body_bytes().len())),
        m.body is Some ==> value_of(m.wire_props(), content_type_key()) == if has_key(
            m.props,
            content_type_key(),
        ) {
            value_of(m.props, content_type_key())
        } else {
            Some(m.body.unwrap().content_type())
        },
        forall|k: Seq<char>|
            k != content_type_key() && k != content_length_key() ==> value_of(
                m.wire_props(),
                k,
            ) == #[trigger] value_of(m.props, k),
{
    reveal_strlit("contentType");
    reveal_strlit("contentLength");
    assert(content_type_key().len() != content_length_key().len());
    let typed = match m.body {
        Some(b) => if has_key(m.props, content_type_key()) {
            m.props
        } else {
            put(m.props, content_type_key(), b.content_type())
        },
        None => m.props,
    };
    if m.body is Some && !has_key(m.props, content_type_key()) {
        lemma_put(m.props, content_type_key(), m.body.unwrap().content_type());
    }
    lemma_put(typed, content_length_key(), decimal(m.body_bytes().len()));
    let text = header_text(m.kind, m.wire_props());
    lemma_header_round_trip(m.kind, m.wire_props());
    encode_utf8_valid_utf8(text);
    encode_utf8_decode_utf8(text);
    lemma_parse_decimal(m.body_bytes().len(), usize::MAX as nat);
}

/// No line of `s` is empty but perhaps the first: a line feed is never
/// followed by another.
pub open spec fn no_blank_line(s: Seq<char>) -> bool {
    forall|i: int| 0 <= i && i + 1 < s.len() && #[trigger] s[i] == '\n' ==> s[i + 1] != '\n'
}

/// No byte 10 of `b` is followed by another.
pub open spec fn no_blank_line_bytes(b: Seq<u8>) -> bool {
    forall|i: int| 0 <= i && i + 1 < b.len() && #[trigger] b[i] == 10 ==> b[i + 1] != 10
}

proof fn lemma_high_bytes(t: u8)
    by (bit_vector)
    ensures
        0xC0u8 | t >= 0x80,
        0xE0u8 | t >= 0x80,
        0xF0u8 | t >= 0x80,
        0x80u8 | t >= 0x80,
{
}

proof fn lemma_low_byte(s: u32)
    by (bit_vector)
    requires
        s <= 0x7F,
    ensures
        (s & 0x7F) as u8 == s,
{
}

/// The bytes of one character: the line feed is the byte 10, and no other
/// character has that byte.
proof fn lemma_scalar_bytes(c: char)
    ensures
        encode_scalar(c as u32).len() >= 1,
        c == '\n' ==> encode_scalar(c as u32) == seq![10u8],
        c != '\n' ==> forall|i: int|
            0 <= i < encode_scalar(c as u32).len() ==> #[trigger] encode_scalar(c as u32)[i] != 10,
{
    let s = c as u32;
    char_is_scalar(c);
    let b = encode_scalar(s);
    if s <= 0x7F {
        lemma_low_byte(s);
        assert(b =~= seq![s as u8]);
    } else {
        lemma_high_bytes(((s >> 6) & 0x1F) as u8);
        lemma_high_bytes(((s >> 12) & 0x0F) as u8);
        lemma_high_bytes(((s >> 18) & 0x7) as u8);
        lemma_high_bytes((s & 0x3F) as u8);
        lemma_high_bytes(((s >> 6) & 0x3F) as u8);
        lemma_high_bytes(((s >> 12) & 0x3F) as u8);
    }
}

/// The bytes of two texts in a row are the bytes of the first, then those of
/// the second.
proof fn lemma_encode_concat(a: Seq<char>, b: Seq<char>)
    ensures
        encode_utf8(a + b) == encode_utf8(a) + encode_utf8(b),
    decreases a.len(),
{
    if a.len() == 0 {
        assert(a + b =~= b);
        assert(encode_utf8(a) + encode_utf8(b) =~= encode_utf8(b));
    } else {
        lemma_encode_concat(a.drop_first(), b);
        assert((a + b).drop_first() =~= a.drop_first() + b);
        assert((a + b)[0] == a[0]);
        assert(encode_utf8(a + b) =~= encode_utf8(a) + encode_utf8(b));
    }
}

/// Line feeds in a text and bytes 10 in its encoding go together: at the
/// start, at the end, and where one follows another.
proof fn lemma_line_feed_bytes(chars: Seq<char>)
    ensures
        chars.len() > 0 ==> encode_utf8(chars).len() > 0,
        chars.len() > 0 ==> (encode_utf8(chars)[0] == 10 <==> chars[0] == '\n'),
        chars.len() > 0 && chars.last() == '\n' ==> encode_utf8(chars).last() == 10,
        no_blank_line(chars) ==> no_blank_line_bytes(encode_utf8(chars)),
    decreases chars.len(),
{
    if chars.len() > 0 {
        let rest = chars.drop_first();
        let head = encode_scalar(chars[0] as u32);
        let tail = encode_utf8(rest);
        let b = encode_utf8(chars);
        lemma_scalar_bytes(chars[0]);
        lemma_line_feed_bytes(rest);
        assert(b == head + tail);
        assert(b[0] == head[0]);
        if rest.len() > 0 {
            assert(rest.last() == chars.last());
            if chars.last() == '\n' {
                assert(b.last() == tail.last());
            }
        } else {
            assert(tail.len() == 0);
            if chars.last() == '\n' {
                assert(b =~= seq![10u8]);
            }
        }
        if no_blank_line(chars) {
            assert forall|i: int| 0 <= i && i + 1 < rest.len() && #[trigger] rest[i]
                == '\n' implies rest[i + 1] != '\n' by {
                assert(chars[i + 1] == rest[i]);
            }
            assert forall|i: int| 0 <= i && i + 1 < b.len() && #[trigger] b[i] == 10 implies b[i
                + 1] != 10 by {
                if i + 1 < head.len() {
                    assert(b[i] == head[i]);
                    assert(b[i + 1] == head[i + 1]);
                } else if i < head.len() {
                    assert(b[i] == head[i]);
                    assert(b[i + 1] == tail[0]);
                    assert(chars[0] == '\n');
                    assert(rest[0] == chars[1]);
                } else {
                    assert(b[i] == tail[i - head.len()]);
                    assert(b[i + 1] == tail[i - head.len() + 1]);
                }
            }
        }
    }
}

/// Texts without blank lines in a row make a text without blank lines, if
/// the second does not begin with a line feed.
proof fn lemma_no_blank_concat(a: Seq<char>, b: Seq<char>)
    requires
        no_blank_line(a),
        no_blank_line(b),
        b.len() > 0 ==> b[0] != '\n',
    ensures
        no_blank_line(a + b),
{
    let s = a + b;
    assert forall|i: int| 0 <= i && i + 1 < s.len() && #[trigger] s[i] == '\n' implies s[i + 1]
        != '\n' by {
        if i + 1 < a.len() {
            assert(s[i] == a[i] && s[i + 1] == a[i + 1]);
        } else if i < a.len() {
            assert(s[i + 1] == b[0]);
        } else {
            assert(s[i] == b[i - a.len()] && s[i + 1] == b[i - a.len() + 1]);
        }
    }
}

/// The lines of plain properties hold no blank line and do not begin with a
/// line feed.
proof fn lemma_prop_lines_no_blank(props: Seq<(Seq<char>, Seq<char>)>)
    requires
        forall|i: int| 0 <= i < props.len() ==> plain_entry(#[trigger] props[i]),
    ensures
        no_blank_line(prop_lines(props)),
        prop_lines(props).len() > 0 ==> prop_lines(props)[0] != '\n' && prop_lines(
            props,
        ).last() == '\n',
    decreases props.len(),
{
    if props.len() > 0 {
        let before = props.drop_last();
        assert forall|i: int| 0 <= i < before.len() implies plain_entry(#[trigger] before[i]) by {
            assert(before[i] == props[i]);
        }
        lemma_prop_lines_no_blank(before);
        let e = props.last();
        assert(plain_entry(e));
        lemma_bare_line(e);
        let l = prop_line(e);
        assert(l =~= bare_line(e) + seq!['\n']);
        assert forall|i: int| 0 <= i && i + 1 < l.len() && #[trigger] l[i] == '\n' implies l[i
            + 1] != '\n' by {
            assert(l[i] == bare_line(e)[i]);
        }
        assert(l[0] == bare_line(e)[0]);
        lemma_no_blank_concat(prop_lines(before), l);
        let all = prop_lines(props);
        assert(all == prop_lines(before) + l);
        assert(all.last() == l.last());
        if prop_lines(before).len() > 0 {
            assert(all[0] == prop_lines(before)[0]);
        } else {
            assert(all[0] == l[0]);
        }
    }
}

/// In the bytes of a message, the header ends where its text ends: reading
/// byte by byte, the empty line that closes the header is found there and
/// not before. This holds of every message whose properties are such as a
/// header can carry.
pub proof fn lemma_header_found(m: MessageView)
    requires
        plain_props(m.wire_props()),
    ensures
        header_ends_at(m.encoded(), encode_utf8(header_text(m.kind, m.wire_props())).len() as int),
{
    let props = m.wire_props();
    let name = kind_name(m.kind);
    let first = protocol_prefix() + name + seq!['\n'];
    let lines = prop_lines(props);
    let body = first + lines;
    let text = header_text(m.kind, props);
    lemma_kind_name(m.kind);
    lemma_prop_lines_no_blank(props);
    assert forall|i: int| 0 <= i && i + 1 < first.len() && #[trigger] first[i]
        == '\n' implies first[i + 1] != '\n' by {
        if i >= 10 {
            assert(first[i] == name[i - 10]);
        }
    }
    lemma_no_blank_concat(first, lines);
    assert(body.last() == '\n') by {
        if lines.len() > 0 {
            assert(body.last() == lines.last());
        } else {
            assert(body =~= first);
        }
    }
    assert(text =~= body + seq!['\n']);
    lemma_encode_concat(body, seq!['\n']);
    lemma_line_feed_bytes(body);
    lemma_line_feed_bytes(seq!['\n']);
    let head = encode_utf8(body);
    let closing = encode_utf8(seq!['\n']);
    lemma_scalar_bytes('\n');
    let one = seq!['\n'];
    assert(one.drop_first() =~= Seq::<char>::empty());
    assert(encode_utf8(one.drop_first()) =~= Seq::<u8>::empty());
    assert(one[0] == '\n');
    assert(encode_utf8(one) == encode_scalar(one[0] as u32) + encode_utf8(one.drop_first()));
    assert(closing =~= seq![10u8]);
    let header = encode_utf8(text);
    assert(header == head + seq![10u8]);
    let bytes = m.encoded();
    let n = header.len() as int;
    assert(bytes.subrange(0, n) =~= header);
    assert(header[n - 1] == 10);
    assert(header[n - 2] == head.last());
    assert forall|k: int| 0 <= k < n implies !ends_header(#[trigger] bytes.subrange(0, k)) by {
        let p = bytes.subrange(0, k);
        if k >= 2 && p[k - 1] == 10 && p[k - 2] == 10 {
            assert(p[k - 1] == head[k - 1]);
            assert(p[k - 2] == head[k - 2]);
        }
    }
}

/// The bytes of a message read back as that message: the header with the
/// kind and the properties that went on the wire, and the bytes of the body.
/// This holds of every message whose body is no picture and whose properties
/// are such as a header can carry.
pub proof fn lemma_encoded_reads_back(m: MessageView)
    requires
        distinct_keys(m.props),
        plain_props(m.wire_props()),
        !(m.body is Some && m.body.unwrap() is Image),
        m.body_bytes().len() <= usize::MAX,
    ensures
        framed(m.encoded()) == (Framed::Whole {
            header: MessageView { kind: m.kind, props: m.wire_props(), body: None },
            header_len: encode_utf8(header_text(m.kind, m.wire_props())).len(),
            body: m.body_bytes(),
        }),
{
    let header = encode_utf8(header_text(m.kind, m.wire_props()));
    let n = header.len() as int;
    let bytes = m.encoded();
    lemma_header_found(m);
    lemma_message_round_trip(m);
    let found = choose|k: int| header_ends_at(bytes, k);
    lemma_header_end_unique(bytes, n, found);
    assert(bytes.subrange(0, n) =~= header);
    assert(bytes.subrange(n, n + m.body_bytes().len()) =~= m.body_bytes());
}

} // verus!
