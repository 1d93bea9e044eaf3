//! Small conversions: colors, versions, paths, identifiers.

use vstd::prelude::*;
use egui::ColorImage;
use egui_extras::RetainedImage;
use crate::error::DraduError;
use crate::json::{Json, JsonView, Number};
use crate::message::{picture_pixels, picture_size};
use crate::text::{
    decimal, find_char, first_pos, from_chars, has_char, parse_range, parse_unsigned,
    push_decimal, to_chars,
};

verus! {

/// An opaque display color.
#[derive(Clone, Copy, Debug, PartialEq, Eq, Structural)]
pub struct Color {
    pub r: u8,
    pub g: u8,
    pub b: u8,
}

impl Color {
    /// White.
    pub open spec fn white() -> Color {
        Color { r: 255, g: 255, b: 255 }
    }

    /// Red.
    pub open spec fn red() -> Color {
        Color { r: 255, g: 0, b: 0 }
    }
}

/// The color that a JSON array of at least three bytes denotes.
pub open spec fn color_of_json(val: JsonView) -> Option<Color> {
    if val is Array && val.members().len() >= 3 && val.item(0).as_u8() is Some && val.item(
        1,
    ).as_u8() is Some && val.item(2).as_u8() is Some {
        Some(
            Color {
                r: val.item(0).as_u8().unwrap(),
                g: val.item(1).as_u8().unwrap(),
                b: val.item(2).as_u8().unwrap(),
            },
        )
    } else {
        None
    }
}

/// Reads a color from a JSON array `[r, g, b, ..]`.
pub fn color32_from_json_value(val: &Json) -> (r: Result<Color, DraduError>)
    ensures
        match r {
            Ok(c) => color_of_json(val@) == Some(c),
            Err(e) => color_of_json(val@) is None && e == DraduError::ProtocolError,
        },
{
    match val {
        Json::Array(_) => {
            match (val.at(0), val.at(1), val.at(2)) {
                (Some(a), Some(b), Some(c)) => {
                    match (a.as_u8(), b.as_u8(), c.as_u8()) {
                        (Some(r), Some(g), Some(b)) => Ok(Color { r, g, b }),
                        _ => Err(DraduError::ProtocolError),
                    }
                },
                _ => Err(DraduError::ProtocolError),
            }
        },
        _ => Err(DraduError::ProtocolError),
    }
}

/// The two numbers that a JSON array of at least two numbers begins with.
pub open spec fn pos_of_json(val: JsonView) -> Option<(Number, Number)> {
    if val.members().len() >= 2 && val.item(0) is Number && val.item(1) is Number {
        Some((val.item(0)->Number_0, val.item(1)->Number_0))
    } else {
        None
    }
}

/// Reads a position from a JSON array `[x, y, ..]`.
pub fn json_to_pos(json: &Json) -> (r: Result<(Number, Number), ()>)
    ensures
        match r {
            Ok(p) => pos_of_json(json@) == Some(p),
            Err(_) => pos_of_json(json@) is None,
        },
{
    match (json.at(0), json.at(1)) {
        (Some(x), Some(y)) => {
            match (x.as_number(), y.as_number()) {
                (Some(x), Some(y)) => Ok((x, y)),
                _ => Err(()),
            }
        },
        _ => Err(()),
    }
}

/// A color text could not be read.
#[derive(Clone, Copy, Debug, PartialEq, Eq, Structural)]
pub struct ParseColorError;

/// The (up to) three parts of a color text: what stands before the first
/// space, between the first and the second, and behind the second. A missing
/// part counts as `0`.
pub open spec fn color_parts(s: Seq<char>) -> (Seq<char>, Seq<char>, Seq<char>) {
    let p = first_pos(s, ' ');
    if p == s.len() {
        (s, seq!['0'], seq!['0'])
    } else {
        let rest = s.subrange(p + 1, s.len() as int);
        let q = first_pos(rest, ' ');
        if q == rest.len() {
            (s.subrange(0, p), rest, seq!['0'])
        } else {
            (s.subrange(0, p), rest.subrange(0, q), rest.subrange(q + 1, rest.len() as int))
        }
    }
}

/// The color that a text `r g b` denotes, if each part is a byte.
pub open spec fn color_of_text(s: Seq<char>) -> Option<[u8; 3]> {
    let parts = color_parts(s);
    let r = parse_unsigned(parts.0, 255);
    let g = parse_unsigned(parts.1, 255);
    let b = parse_unsigned(parts.2, 255);
    if r is Some && g is Some && b is Some {
        Some([r.unwrap() as u8, g.unwrap() as u8, b.unwrap() as u8])
    } else {
        None
    }
}

/// Reads a color written as up to three numbers separated by single spaces.
pub fn parse_color(s: &str) -> (r: Result<[u8; 3], ParseColorError>)
    ensures
        match r {
            Ok(rgb) => color_of_text(s@) is Some && color_of_text(s@).unwrap()@ == rgb@,
            Err(_) => color_of_text(s@) is None,
        },
{
    let v = to_chars(s);
    let n = v.len();
    assert(v@.subrange(0, n as int) == v@);
    let p = find_char(&v, 0, n, ' ');
    let r = parse_range(&v, 0, p, 255);
    let (g, b) = if p == n {
        (Some(0u64), Some(0u64))
    } else {
        let ghost rest = v@.subrange(p + 1, n as int);
        let q = find_char(&v, p + 1, n, ' ');
        assert(v@.subrange(p + 1, q as int) == rest.subrange(0, q - (p + 1)));
        let g = parse_range(&v, p + 1, q, 255);
        if q == n {
            assert(rest.subrange(0, q - (p + 1)) == rest);
            (g, Some(0u64))
        } else {
            assert(v@.subrange(q + 1, n as int) == rest.subrange(q - p, rest.len() as int));
            (g, parse_range(&v, q + 1, n, 255))
        }
    };
    proof {
        assert(seq!['0'].drop_last() == Seq::<char>::empty());
        assert(crate::text::digits_value(seq!['0'].drop_last()) == 0);
        assert(crate::text::digits_value(seq!['0']) == 0);
        assert(parse_unsigned(seq!['0'], 255) == Some(0nat));
    }
    match (r, g, b) {
        (Some(r), Some(g), Some(b)) => {
            let rgb = [r as u8, g as u8, b as u8];
            assert(color_of_text(s@).unwrap()@ =~= rgb@);
            Ok(rgb)
        },
        _ => Err(ParseColorError),
    }
}

/// A color as text: its three parts in decimal, separated by single spaces.
pub open spec fn color_text(rgb: [u8; 3]) -> Seq<char> {
    decimal(rgb@[0] as nat) + seq![' '] + decimal(rgb@[1] as nat) + seq![' '] + decimal(
        rgb@[2] as nat,
    )
}

/// Writes a color as `r g b`.
pub fn rgb_to_string(rgb: [u8; 3]) -> (s: String)
    ensures
        s@ == color_text(rgb),
{
    let mut v: Vec<char> = Vec::new();
    push_decimal(&mut v, rgb[0] as u64);
    v.push(' ');
    push_decimal(&mut v, rgb[1] as u64);
    v.push(' ');
    push_decimal(&mut v, rgb[2] as u64);
    assert(v@ =~= color_text(rgb));
    assert(v@.subrange(0, v@.len() as int) == v@);
    from_chars(&v, 0, v.len())
}

/// The major part of the protocol version that this library speaks.
pub open spec fn own_major() -> Seq<char> {
    seq!['0']
}

/// Whether a version text `major.minor` has this library's major part; none
/// where the text has no dot.
pub open spec fn compatible(ver: Seq<char>) -> Option<bool> {
    if has_char(ver, '.') {
        Some(ver.subrange(0, first_pos(ver, '.')) == own_major())
    } else {
        None
    }
}

/// Compares the major part of `ver` with the library's own.
pub fn is_compatible_ver(ver: &str) -> (r: Result<bool, ()>)
    ensures
        match r {
            Ok(b) => compatible(ver@) == Some(b),
            Err(_) => compatible(ver@) is None,
        },
{
    let v = to_chars(ver);
    assert(v@.subrange(0, v@.len() as int) == v@);
    chars_compatible(&v, 0, v.len())
}

/// [`is_compatible_ver`] on the characters `v[lo..hi]`.
pub fn chars_compatible(v: &Vec<char>, lo: usize, hi: usize) -> (r: Result<bool, ()>)
    requires
        lo <= hi <= v@.len(),
    ensures
        match r {
            Ok(b) => compatible(v@.subrange(lo as int, hi as int)) == Some(b),
            Err(_) => compatible(v@.subrange(lo as int, hi as int)) is None,
        },
{
    let ghost s = v@.subrange(lo as int, hi as int);
    let p = find_char(v, lo, hi, '.');
    if p == hi {
        Err(())
    } else {
        assert(s.subrange(0, p - lo) == v@.subrange(lo as int, p as int));
        if p - lo == 1 {
            assert(s.subrange(0, p - lo)[0] == v@[lo as int]);
            assert(s.subrange(0, p - lo) == own_major() <==> v@[lo as int] == '0') by {
                if v@[lo as int] == '0' {
                    assert(s.subrange(0, p - lo) =~= own_major());
                } else {
                    assert(own_major()[0] == '0');
                }
            }
            Ok(v[lo] == '0')
        } else {
            assert(s.subrange(0, p - lo).len() != own_major().len());
            Ok(false)
        }
    }
}

/// Whether the segment `..` occurs in `path`, between separators `/` or the
/// ends of the text.
pub open spec fn has_parent_segment(path: Seq<char>) -> bool {
    exists|i: int| parent_segment_at(path, i)
}

/// Whether a segment `..` begins at `i`.
pub open spec fn parent_segment_at(path: Seq<char>, i: int) -> bool {
    &&& 0 <= i
    &&& i + 2 <= path.len()
    &&& path[i] == '.'
    &&& path[i + 1] == '.'
    &&& (i == 0 || path[i - 1] == '/')
    &&& (i + 2 == path.len() || path[i + 2] == '/')
}

/// Whether `path` climbs to a parent directory.
pub fn directory_traversal(path: &str) -> (b: bool)
    ensures
        b == has_parent_segment(path@),
{
    let v = to_chars(path);
    chars_traverse(&v)
}

/// [`directory_traversal`] on characters.
pub fn chars_traverse(v: &Vec<char>) -> (b: bool)
    ensures
        b == has_parent_segment(v@),
{
    let n = v.len();
    if n < 2 {
        return false;
    }
    let mut i: usize = 0;
    while i <= n - 2
        invariant
            n == v@.len(),
            2 <= n,
            i <= n,
            forall|k: int| 0 <= k < i ==> !parent_segment_at(v@, k),
        decreases n - i,
    {
        if v[i] == '.' && v[i + 1] == '.' && (i == 0 || v[i - 1] == '/') && (i + 2 == n || v[i
            + 2] == '/') {
            assert(parent_segment_at(v@, i as int));
            return true;
        }
        i += 1;
    }
    false
}

/// Whether `c` is an ASCII letter or digit.
pub open spec fn is_alphanumeric(c: char) -> bool {
    ('a' <= c <= 'z') || ('A' <= c <= 'Z') || ('0' <= c <= '9')
}

/// Whether `id` has the shape of a fresh object id: 16 ASCII letters and digits.
pub open spec fn is_object_id(id: Seq<char>) -> bool {
    id.len() == 16 && forall|i: int| 0 <= i < id.len() ==> is_alphanumeric(#[trigger] id[i])
}

/// A fresh id for an object: sixteen samples of rand's `Alphanumeric` from
/// the thread's generator, as text. Each is an ASCII letter or digit; which
/// ones is a matter of chance.
#[verifier::external_body]
pub fn random_id() -> (id: String)
    ensures
        is_object_id(id@),
{
    rand::Rng::sample_iter(rand::thread_rng(), &rand::distributions::Alphanumeric)
        .take(16)
        .map(char::from)
        .collect()
}

/// `ColorImage` of egui, taken as it is: the pixels of a picture.
#[verifier::external_type_specification]
#[verifier::external_body]
pub struct ExColorImage(ColorImage);

/// Width and height of a `ColorImage`, in pixels: its field `size`.
pub uninterp spec fn image_size(image: ColorImage) -> (nat, nat);

/// The pixels of a `ColorImage`, row by row from the top: its field
/// `pixels`, each as red, green, blue and alpha.
pub uninterp spec fn image_pixels(image: ColorImage) -> Seq<(u8, u8, u8, u8)>;

/// The color that the placeholder is painted in: an opaque light purple.
pub open spec fn placeholder_color() -> (u8, u8, u8, u8) {
    (255, 0, 255, 255)
}

/// The pixels of the placeholder picture: each has the placeholder's color.
pub open spec fn placeholder_picture() -> Seq<(u8, u8, u8, u8)> {
    Seq::new((PLACEHOLDER_SIDE * PLACEHOLDER_SIDE) as nat, |i: int| placeholder_color())
}

/// Width and height of the placeholder picture, in pixels.
pub const PLACEHOLDER_SIDE: usize = 128;

/// The colors of a picture of one color: `count` pixels, four bytes each.
pub open spec fn plain_pixels(count: nat, rgba: (u8, u8, u8, u8)) -> Seq<u8> {
    Seq::new(
        count * 4,
        |i: int|
            if i % 4 == 0 {
                rgba.0
            } else if i % 4 == 1 {
                rgba.1
            } else if i % 4 == 2 {
                rgba.2
            } else {
                rgba.3
            },
    )
}

/// The bytes of the placeholder picture: every pixel an opaque light purple.
pub fn placeholder_pixels() -> (rgba: Vec<u8>)
    ensures
        rgba@ == plain_pixels((PLACEHOLDER_SIDE * PLACEHOLDER_SIDE) as nat, (255, 0, 255, 255)),
{
    let count: usize = PLACEHOLDER_SIDE * PLACEHOLDER_SIDE;
    let mut rgba: Vec<u8> = Vec::new();
    let mut i: usize = 0;
    while i < count
        invariant
            i <= count,
            count == PLACEHOLDER_SIDE * PLACEHOLDER_SIDE,
            rgba@ == plain_pixels(i as nat, (255, 0, 255, 255)),
        decreases count - i,
    {
        rgba.push(255);
        rgba.push(0);
        rgba.push(255);
        rgba.push(255);
        i += 1;
        assert(rgba@ =~= plain_pixels(i as nat, (255, 0, 255, 255)));
    }
    rgba
}

/// The picture that stands in for pictures not yet loaded: a light purple
/// square.
pub fn get_placeholder_image() -> (image: RetainedImage)
    ensures
        picture_size(image) == (PLACEHOLDER_SIDE as nat, PLACEHOLDER_SIDE as nat),
        picture_pixels(image) == placeholder_picture(),
{
    let rgba = placeholder_pixels();
    let pixels = color_image([PLACEHOLDER_SIDE, PLACEHOLDER_SIDE], &rgba);
    proof {
        assert forall|i: int| 0 <= i < PLACEHOLDER_SIDE * PLACEHOLDER_SIDE implies (
        #[trigger] image_pixels(pixels)[i]) == placeholder_color() by {
            assert(rgba@[4 * i + 3] == 255);
            assert(rgba@[4 * i] == 255 && rgba@[4 * i + 1] == 0 && rgba@[4 * i + 2] == 255);
        }
        assert(image_pixels(pixels) =~= placeholder_picture());
    }
    retained_image("placeholder", pixels)
}

/// `ColorImage::from_rgba_unmultiplied` of egui: the picture of `size[0]` by
/// `size[1]` pixels whose colors `rgba` lists, four bytes a pixel. A pixel
/// that is opaque keeps its red, green and blue; one whose alpha is 0 becomes
/// the transparent pixel. The function panics unless the length of `rgba`
/// fits the size.
#[verifier::external_body]
fn color_image(size: [usize; 2], rgba: &Vec<u8>) -> (image: ColorImage)
    requires
        size@[0] * size@[1] * 4 == rgba@.len(),
    ensures
        image_size(image) == (size@[0] as nat, size@[1] as nat),
        image_pixels(image).len() == size@[0] * size@[1],
        forall|i: int|
            0 <= i < size@[0] * size@[1] && rgba@[4 * i + 3] == 255 ==> (#[trigger] image_pixels(
                image,
            )[i]) == (rgba@[4 * i], rgba@[4 * i + 1], rgba@[4 * i + 2], 255u8),
        forall|i: int|
            0 <= i < size@[0] * size@[1] && rgba@[4 * i + 3] == 0 ==> (#[trigger] image_pixels(
                image,
            )[i]) == (0u8, 0u8, 0u8, 0u8),
{
    ColorImage::from_rgba_unmultiplied(size, rgba)
}

/// `RetainedImage::from_color_image` of egui_extras: the picture, ready to
/// be shown, under a name for debugging. It has the size of the image that
/// it is made of, and is made of its pixels.
#[verifier::external_body]
fn retained_image(name: &str, image: ColorImage) -> (picture: RetainedImage)
    ensures
        picture_size(picture) == image_size(image),
        picture_pixels(picture) == image_pixels(image),
{
    RetainedImage::from_color_image(name, image)
}

} // verus!
