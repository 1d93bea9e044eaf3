//! The map of a room: its objects, its background and its grid.

use vstd::prelude::*;
use indexmap::IndexMap;
use std::collections::hash_map::RandomState;
use crate::dict::{
    distinct_keys, has_key, index_of, lemma_index_of, lemma_put, lemma_swap_without,
    lemma_text_entries, lemma_text_put, lemma_text_without, put, swap_without, text_entries,
    value_of, without, Dict,
};
use crate::error::DraduError;
use crate::json::{lemma_lookup_found, view_or_null, Json, JsonView, Number};
use crate::utils::{json_to_pos, pos_of_json};

verus! {

/// How applying a payload ended.
#[derive(Debug, PartialEq)]
pub enum Outcome {
    /// Every entry was applied.
    Done,
    /// An entry was malformed; the entries before it were applied.
    Failed(DraduError),
    /// An entry asked for an object of a kind that cannot be built.
    Unimplemented,
}

/// A picture laid on the map.
pub struct Decal {
    pub pos: (Number, Number),
    pub scale: Number,
    pub path: String,
}

/// A game piece: a picture with free-form properties.
pub struct Token {
    pub pos: (Number, Number),
    pub scale: Number,
    pub path: String,
    /// Health, armor and the like.
    pub properties: Dict<String>,
}

/// A wall. Nothing builds one yet.
pub struct Wall {
    pub pos: (Number, Number),
    pub nodes: Vec<(Number, Number)>,
    pub path: String,
}

pub enum MapObject {
    Decal(Decal),
    Token(Token),
    Wall(Wall),
}

/// The mathematical value of a [`MapObject`].
pub enum ObjectView {
    Decal { pos: (Number, Number), scale: Number, path: Seq<char> },
    Token {
        pos: (Number, Number),
        scale: Number,
        path: Seq<char>,
        properties: Seq<(Seq<char>, Seq<char>)>,
    },
    Wall { pos: (Number, Number), nodes: Seq<(Number, Number)>, path: Seq<char> },
}

impl View for MapObject {
    type V = ObjectView;

    open spec fn view(&self) -> ObjectView {
        match self {
            MapObject::Decal(d) => ObjectView::Decal { pos: d.pos, scale: d.scale, path: d.path@ },
            MapObject::Token(t) => ObjectView::Token {
                pos: t.pos,
                scale: t.scale,
                path: t.path@,
                properties: text_entries(t.properties@),
            },
            MapObject::Wall(w) => ObjectView::Wall { pos: w.pos, nodes: w.nodes@, path: w.path@ },
        }
    }
}

/// The number 0.
pub open spec fn zero() -> Number {
    Number { positive: true, mantissa: 0, exponent: 0 }
}

/// The number 1.
pub open spec fn one() -> Number {
    Number { positive: true, mantissa: 1, exponent: 0 }
}

/// The position after a delta: the one it names under `pos`, else the old one.
pub open spec fn delta_pos(delta: JsonView, old: (Number, Number)) -> (Number, Number) {
    match pos_of_json(delta.field("pos"@)) {
        Some(p) => p,
        None => old,
    }
}

/// The scale after a delta: the number it names under `scale`, else the old one.
pub open spec fn delta_scale(delta: JsonView, old: Number) -> Number {
    match delta.field("scale"@).as_number() {
        Some(n) => n,
        None => old,
    }
}

/// One entry of a properties delta: null removes the property, a text sets
/// it, anything else leaves it alone.
pub open spec fn prop_step(
    props: Seq<(Seq<char>, Seq<char>)>,
    entry: (Seq<char>, JsonView),
) -> Seq<(Seq<char>, Seq<char>)> {
    match entry.1 {
        JsonView::Null => without(props, entry.0),
        JsonView::Str(s) => put(props, entry.0, s),
        _ => props,
    }
}

/// The properties after the entries of a delta, applied in order.
pub open spec fn props_after(
    props: Seq<(Seq<char>, Seq<char>)>,
    entries: Seq<(Seq<char>, JsonView)>,
) -> Seq<(Seq<char>, Seq<char>)>
    decreases entries.len(),
{
    if entries.len() == 0 {
        props
    } else {
        prop_step(props_after(props, entries.drop_last()), entries.last())
    }
}

impl ObjectView {
    /// Where the object lies.
    pub open spec fn pos(self) -> (Number, Number) {
        match self {
            ObjectView::Decal { pos, .. } => pos,
            ObjectView::Token { pos, .. } => pos,
            ObjectView::Wall { pos, .. } => pos,
        }
    }

    /// The scale; a wall has scale 1.
    pub open spec fn scale(self) -> Number {
        match self {
            ObjectView::Decal { scale, .. } => scale,
            ObjectView::Token { scale, .. } => scale,
            ObjectView::Wall { .. } => one(),
        }
    }

    /// The path of the object's picture.
    pub open spec fn path(self) -> Seq<char> {
        match self {
            ObjectView::Decal { path, .. } => path,
            ObjectView::Token { path, .. } => path,
            ObjectView::Wall { path, .. } => path,
        }
    }

    /// The object after a partial update: position, scale and, for a token,
    /// each property change independently. What the delta does not name stays.
    pub open spec fn updated(self, delta: JsonView) -> ObjectView {
        match self {
            ObjectView::Decal { pos, scale, path } => ObjectView::Decal {
                pos: delta_pos(delta, pos),
                scale: delta_scale(delta, scale),
                path,
            },
            ObjectView::Token { pos, scale, path, properties } => ObjectView::Token {
                pos: delta_pos(delta, pos),
                scale: delta_scale(delta, scale),
                path,
                properties: props_after(properties, delta.field("properties"@).entries()),
            },
            ObjectView::Wall { .. } => self,
        }
    }
}

/// Whether a payload names a kind of object that cannot be built.
pub open spec fn unimplemented_kind(json: JsonView) -> bool {
    json.field("type"@).as_str() == Some("wall"@) || json.field("type"@).as_str() == Some(
        "effect"@,
    )
}

/// The object that a full payload describes: `type` says which kind, `path`
/// is required, position and scale default to the origin and to 1.
pub open spec fn created(json: JsonView) -> Result<ObjectView, DraduError> {
    let kind = json.field("type"@).as_str();
    let path = json.field("path"@).as_str();
    if kind == Some("token"@) && path is Some {
        Ok(
            ObjectView::Token {
                pos: delta_pos(json, (zero(), zero())),
                scale: delta_scale(json, one()),
                path: path.unwrap(),
                properties: props_after(Seq::empty(), json.field("properties"@).entries()),
            },
        )
    } else if kind == Some("decal"@) && path is Some {
        Ok(
            ObjectView::Decal {
                pos: delta_pos(json, (zero(), zero())),
                scale: delta_scale(json, one()),
                path: path.unwrap(),
            },
        )
    } else {
        Err(DraduError::ProtocolError)
    }
}

/// Applies the entries of a properties delta to `props`.
fn apply_props(props: &mut Dict<String>, delta: Option<&Json>)
    requires
        old(props).wf(),
    ensures
        text_entries(final(props)@) == props_after(
            text_entries(old(props)@),
            view_or_null(delta).entries(),
        ),
        final(props).wf(),
{
    let json = match delta {
        Some(json) => json,
        None => {
            return ;
        },
    };
    let ghost entries = json@.entries();
    let ghost start = text_entries(props@);
    let n = json.entry_count();
    let mut i: usize = 0;
    assert(entries.subrange(0, 0) =~= Seq::empty());
    while i < n
        invariant
            i <= n,
            n == entries.len(),
            entries == json@.entries(),
            props.wf(),
            text_entries(props@) == props_after(start, entries.subrange(0, i as int)),
        decreases n - i,
    {
        let ghost before = props@;
        proof {
            let cur = entries.subrange(0, i + 1);
            assert(cur.drop_last() == entries.subrange(0, i as int));
            assert(cur.last() == entries[i as int]);
        }
        match json.entry_at(i) {
            Some((key, value)) => {
                match value {
                    Json::Null => {
                        proof {
                            lemma_text_without(before, key@);
                        }
                        props.remove(key.as_str());
                    },
                    Json::Str(text) => {
                        let text = text.clone();
                        proof {
                            lemma_text_put(before, key@, text);
                        }
                        props.insert(key.clone(), text);
                    },
                    _ => {},
                }
            },
            None => {},
        }
        i += 1;
    }
    assert(entries.subrange(0, n as int) == entries);
}

/// The position that a delta names, or `old`.
fn read_pos(json: &Json, old: (Number, Number)) -> (p: (Number, Number))
    ensures
        p == delta_pos(json@, old),
{
    match json.get("pos") {
        Some(value) => match json_to_pos(value) {
            Ok(p) => p,
            Err(_) => old,
        },
        None => {
            assert(pos_of_json(JsonView::Null) is None);
            old
        },
    }
}

/// The scale that a delta names, or `old`.
fn read_scale(json: &Json, old: Number) -> (n: Number)
    ensures
        n == delta_scale(json@, old),
{
    match json.get("scale") {
        Some(value) => match value.as_number() {
            Some(n) => n,
            None => old,
        },
        None => old,
    }
}

/// The text that a payload holds under `key`.
fn read_text(json: &Json, key: &str) -> (r: Option<String>)
    ensures
        match r {
            Some(s) => json@.field(key@).as_str() == Some(s@),
            None => json@.field(key@).as_str() is None,
        },
{
    match json.get(key) {
        Some(value) => match value.as_str() {
            Some(s) => Some(s.clone()),
            None => None,
        },
        None => None,
    }
}

impl MapObject {
    /// The properties of a token have distinct keys.
    pub open spec fn wf(&self) -> bool {
        match self {
            MapObject::Token(t) => t.properties.wf(),
            _ => true,
        }
    }

    /// Applies a partial update: position, scale and, for a token, property
    /// changes, each on its own. A wall takes no update.
    pub fn update_from_json(&mut self, json: &Json) -> (r: Result<(), DraduError>)
        requires
            old(self).wf(),
            !(old(self)@ is Wall),
        ensures
            r is Ok,
            final(self)@ == old(self)@.updated(json@),
            final(self).wf(),
    {
        match self {
            MapObject::Decal(decal) => {
                decal.pos = read_pos(json, decal.pos);
                decal.scale = read_scale(json, decal.scale);
            },
            MapObject::Token(token) => {
                token.pos = read_pos(json, token.pos);
                token.scale = read_scale(json, token.scale);
                apply_props(&mut token.properties, json.get("properties"));
            },
            MapObject::Wall(_) => {},
        }
        Ok(())
    }

    /// Whether `json` asks for a kind of object that is not built yet.
    pub fn names_unimplemented(json: &Json) -> (b: bool)
        ensures
            b == unimplemented_kind(json@),
    {
        proof {
            reveal_strlit("wall");
            reveal_strlit("effect");
        }
        match read_text(json, "type") {
            Some(kind) => kind == "wall".to_owned() || kind == "effect".to_owned(),
            None => false,
        }
    }

    /// Builds an object from a full payload.
    pub fn create_from_json(json: &Json) -> (r: Result<MapObject, DraduError>)
        requires
            !unimplemented_kind(json@),
        ensures
            match created(json@) {
                Ok(obj) => r is Ok && r->Ok_0@ == obj && r->Ok_0.wf(),
                Err(e) => r is Err && r->Err_0 == e,
            },
    {
        proof {
            reveal_strlit("token");
            reveal_strlit("decal");
        }
        let kind = match read_text(json, "type") {
            Some(kind) => kind,
            None => {
                return Err(DraduError::ProtocolError);
            },
        };
        let is_token = kind == "token".to_owned();
        let is_decal = kind == "decal".to_owned();
        if !is_token && !is_decal {
            return Err(DraduError::ProtocolError);
        }
        let path = match read_text(json, "path") {
            Some(path) => path,
            None => {
                return Err(DraduError::ProtocolError);
            },
        };
        let origin = Number { positive: true, mantissa: 0, exponent: 0 };
        let pos = read_pos(json, (origin, origin));
        let scale = read_scale(json, Number { positive: true, mantissa: 1, exponent: 0 });
        if is_token {
            let mut properties: Dict<String> = Dict::new();
            assert(text_entries(properties@) =~= Seq::empty());
            apply_props(&mut properties, json.get("properties"));
            Ok(MapObject::Token(Token { pos, scale, path, properties }))
        } else {
            Ok(MapObject::Decal(Decal { pos, scale, path }))
        }
    }

    /// A copy of this object.
    pub fn clone_object(&self) -> (r: MapObject)
        ensures
            r@ == self@,
            self.wf() ==> r.wf(),
    {
        match self {
            MapObject::Decal(d) => MapObject::Decal(
                Decal { pos: d.pos, scale: d.scale, path: d.path.clone() },
            ),
            MapObject::Token(t) => MapObject::Token(
                Token {
                    pos: t.pos,
                    scale: t.scale,
                    path: t.path.clone(),
                    properties: t.properties.clone_texts(),
                },
            ),
            MapObject::Wall(w) => {
                let mut nodes: Vec<(Number, Number)> = Vec::new();
                let mut i: usize = 0;
                while i < w.nodes.len()
                    invariant
                        i <= w.nodes@.len(),
                        nodes@ == w.nodes@.subrange(0, i as int),
                    decreases w.nodes@.len() - i,
                {
                    nodes.push(w.nodes[i]);
                    i += 1;
                    assert(w.nodes@.subrange(0, i as int) == w.nodes@.subrange(0, i - 1).push(
                        w.nodes@[i - 1],
                    ));
                }
                assert(w.nodes@.subrange(0, i as int) == w.nodes@);
                MapObject::Wall(Wall { pos: w.pos, nodes, path: w.path.clone() })
            },
        }
    }

    /// Where the object lies.
    pub fn pos(&self) -> (p: (Number, Number))
        ensures
            p == self@.pos(),
    {
        match self {
            MapObject::Decal(decal) => decal.pos,
            MapObject::Token(token) => token.pos,
            MapObject::Wall(wall) => wall.pos,
        }
    }

    /// The scale; a wall has scale 1.
    pub fn scale(&self) -> (n: Number)
        ensures
            n == self@.scale(),
    {
        match self {
            MapObject::Decal(decal) => decal.scale,
            MapObject::Token(token) => token.scale,
            MapObject::Wall(_) => Number { positive: true, mantissa: 1, exponent: 0 },
        }
    }

    /// The path of the object's picture.
    pub fn path(&self) -> (p: &str)
        ensures
            p@ == self@.path(),
    {
        match self {
            MapObject::Decal(decal) => decal.path.as_str(),
            MapObject::Token(token) => token.path.as_str(),
            MapObject::Wall(wall) => wall.path.as_str(),
        }
    }
}

/// `IndexMap` of the indexmap crate, taken as it is.
#[verifier::external_type_specification]
#[verifier::external_body]
#[verifier::reject_recursive_types(K)]
#[verifier::reject_recursive_types(V)]
#[verifier::reject_recursive_types(S)]
pub struct ExIndexMap<K, V, S>(IndexMap<K, V, S>);

/// The entries of a map of objects, in the map's order.
pub uninterp spec fn objects_of(m: IndexMap<String, MapObject, RandomState>) -> Seq<
    (Seq<char>, MapObject),
>;

/// `IndexMap::new`: a map without entries.
#[verifier::external_body]
fn objects_new() -> (m: IndexMap<String, MapObject>)
    ensures
        objects_of(m) == Seq::<(Seq<char>, MapObject)>::empty(),
{
    IndexMap::new()
}

/// `IndexMap::len`: the number of entries.
#[verifier::external_body]
fn objects_len(m: &IndexMap<String, MapObject>) -> (n: usize)
    ensures
        n == objects_of(*m).len(),
{
    m.len()
}

/// `IndexMap::contains_key`: whether an entry has this key.
#[verifier::external_body]
fn objects_contains_key(m: &IndexMap<String, MapObject>, key: &str) -> (b: bool)
    ensures
        b == has_key(objects_of(*m), key@),
{
    m.contains_key(key)
}

/// `IndexMap::get`: the value of the entry with this key, if there is one.
#[verifier::external_body]
fn objects_get<'a>(m: &'a IndexMap<String, MapObject>, key: &str) -> (r: Option<&'a MapObject>)
    ensures
        match r {
            Some(o) => exists|i: int|
                0 <= i < objects_of(*m).len() && (#[trigger] objects_of(*m)[i]).0 == key@
                    && objects_of(*m)[i].1 == *o,
            None => !has_key(objects_of(*m), key@),
        },
{
    m.get(key)
}

/// `IndexMap::get_index`: the entry at a place in the map's order.
#[verifier::external_body]
fn objects_get_index<'a>(m: &'a IndexMap<String, MapObject>, i: usize) -> (r: Option<
    (&'a String, &'a MapObject),
>)
    ensures
        match r {
            Some(e) => i < objects_of(*m).len() && (e.0@, *e.1) == objects_of(*m)[i as int],
            None => i >= objects_of(*m).len(),
        },
{
    m.get_index(i)
}

/// `IndexMap::insert`: a key that is in the map keeps its place and gets the
/// new value; a new key goes to the end. The old value comes back.
#[verifier::external_body]
fn objects_insert(m: &mut IndexMap<String, MapObject>, key: String, value: MapObject) -> (r:
    Option<MapObject>)
    requires
        distinct_keys(objects_of(*old(m))),
    ensures
        objects_of(*final(m)) == put(objects_of(*old(m)), key@, value),
        r == value_of(objects_of(*old(m)), key@),
{
    m.insert(key, value)
}

/// `IndexMap::remove`, which is `swap_remove`: the entry with this key
/// leaves, and the last entry takes its place. The removed value comes back.
#[verifier::external_body]
fn objects_remove(m: &mut IndexMap<String, MapObject>, key: &str) -> (r: Option<MapObject>)
    requires
        distinct_keys(objects_of(*old(m))),
    ensures
        objects_of(*final(m)) == swap_without(objects_of(*old(m)), key@),
        r == value_of(objects_of(*old(m)), key@),
{
    m.remove(key)
}

/// Entries of objects, seen as their mathematical values.
pub open spec fn object_entries(s: Seq<(Seq<char>, MapObject)>) -> Seq<(Seq<char>, ObjectView)> {
    s.map_values(|e: (Seq<char>, MapObject)| (e.0, e.1@))
}

/// Seeing objects as their values keeps the keys, and commutes with storing and removing.
pub proof fn lemma_object_entries(s: Seq<(Seq<char>, MapObject)>, k: Seq<char>)
    requires
        distinct_keys(s),
    ensures
        distinct_keys(object_entries(s)),
        has_key(s, k) <==> has_key(object_entries(s), k),
        has_key(s, k) ==> index_of(object_entries(s), k) == index_of(s, k) && value_of(
            object_entries(s),
            k,
        ) == Some(value_of(s, k).unwrap()@),
        object_entries(swap_without(s, k)) == swap_without(object_entries(s), k),
        forall|v: MapObject| #[trigger]
            object_entries(put(s, k, v)) == put(object_entries(s), k, v@),
{
    let t = object_entries(s);
    assert forall|i: int| 0 <= i < s.len() implies (#[trigger] t[i]).0 == s[i].0 by {}
    assert forall|i: int, j: int| 0 <= i < j < t.len() implies (#[trigger] t[i]).0 != (
    #[trigger] t[j]).0 by {
        assert(s[i].0 != s[j].0);
    }
    if has_key(s, k) {
        let i = index_of(s, k);
        assert(t[i].0 == k);
        lemma_index_of(t, k, i);
    }
    if has_key(t, k) {
        let i = index_of(t, k);
        assert(s[i].0 == k);
    }
    assert(object_entries(swap_without(s, k)) =~= swap_without(t, k));
    assert forall|v: MapObject| #[trigger] object_entries(put(s, k, v)) == put(t, k, v@) by {
        assert(object_entries(put(s, k, v)) =~= put(t, k, v@));
    }
}

/// The views of paths.
pub open spec fn texts(v: Seq<String>) -> Seq<Seq<char>> {
    v.map_values(|s: String| s@)
}

/// The grid that a setter stores for `columns` by `rows`: none unless both
/// are at least 2.
pub open spec fn grid_of(columns: u8, rows: u8) -> Option<(u8, u8)> {
    if columns >= 2 && rows >= 2 {
        Some((columns, rows))
    } else {
        None
    }
}

/// The mathematical value of a [`MapState`].
pub struct MapView {
    /// The objects by id, in the order of the map.
    pub objects: Seq<(Seq<char>, ObjectView)>,
    pub background: Option<Seq<char>>,
    /// Columns and rows.
    pub grid: Option<(u8, u8)>,
}

impl ObjectView {
    /// The properties of a token have distinct keys.
    pub open spec fn wf(self) -> bool {
        match self {
            ObjectView::Token { properties, .. } => distinct_keys(properties),
            _ => true,
        }
    }
}

impl MapView {
    /// What holds of every map: no id occurs twice, and none is `grid` or
    /// `background`; no object is a wall; the properties of each token have
    /// distinct keys; and a grid has at least two columns and two rows.
    pub open spec fn wf(self) -> bool {
        &&& distinct_keys(self.objects)
        &&& !has_key(self.objects, "grid"@)
        &&& !has_key(self.objects, "background"@)
        &&& forall|i: int|
            0 <= i < self.objects.len() ==> !((#[trigger] self.objects[i]).1 is Wall)
                && self.objects[i].1.wf()
        &&& match self.grid {
            Some(size) => size.0 >= 2 && size.1 >= 2,
            None => true,
        }
    }

    /// A map without objects, background or grid.
    pub open spec fn empty() -> MapView {
        MapView { objects: Seq::empty(), background: None, grid: None }
    }

    /// What one entry of a map delta does: the map after it, the picture that
    /// it refers to anew, and how it ended.
    ///
    /// Under `grid`, an empty value takes the grid away, and a `size` of two
    /// bytes sets it; any other size leaves the grid as it is. Under
    /// `background`, the `path` becomes the background. Under any other key,
    /// which is the id of an object, an empty value deletes the object, a
    /// value for an object that is there updates it, and a value for one
    /// that is not there creates it.
    pub open spec fn step(self, key: Seq<char>, value: JsonView) -> (
        MapView,
        Option<Seq<char>>,
        Outcome,
    ) {
        if key == "grid"@ {
            let size = value.field("size"@);
            if value.is_empty() {
                (MapView { grid: None, ..self }, None, Outcome::Done)
            } else if size.item(0).as_u8() is Some && size.item(1).as_u8() is Some {
                (
                    MapView {
                        grid: grid_of(size.item(0).as_u8().unwrap(), size.item(1).as_u8().unwrap()),
                        ..self
                    },
                    None,
                    Outcome::Done,
                )
            } else {
                (self, None, Outcome::Done)
            }
        } else if key == "background"@ {
            match value.field("path"@).as_str() {
                Some(path) => (
                    MapView { background: Some(path), ..self },
                    Some(path),
                    Outcome::Done,
                ),
                None => (self, None, Outcome::Failed(DraduError::ProtocolError)),
            }
        } else if value.is_empty() {
            (MapView { objects: swap_without(self.objects, key), ..self }, None, Outcome::Done)
        } else if has_key(self.objects, key) {
            (
                MapView {
                    objects: put(
                        self.objects,
                        key,
                        value_of(self.objects, key).unwrap().updated(value),
                    ),
                    ..self
                },
                None,
                Outcome::Done,
            )
        } else if unimplemented_kind(value) {
            (self, None, Outcome::Unimplemented)
        } else {
            match created(value) {
                Ok(obj) => (
                    MapView { objects: self.objects.push((key, obj)), ..self },
                    Some(obj.path()),
                    Outcome::Done,
                ),
                Err(e) => (self, None, Outcome::Failed(e)),
            }
        }
    }

    /// What the entries of a delta do, one after the other, up to the first
    /// that does not end well: the map, the pictures referred to anew, in
    /// order, and how it ended.
    pub open spec fn after_entries(self, entries: Seq<(Seq<char>, JsonView)>) -> (
        MapView,
        Seq<Seq<char>>,
        Outcome,
    )
        decreases entries.len(),
    {
        if entries.len() == 0 {
            (self, Seq::empty(), Outcome::Done)
        } else {
            let before = self.after_entries(entries.drop_last());
            if before.2 is Done {
                let s = before.0.step(entries.last().0, entries.last().1);
                (
                    s.0,
                    match s.1 {
                        Some(path) => before.1.push(path),
                        None => before.1,
                    },
                    s.2,
                )
            } else {
                before
            }
        }
    }

    /// What a map delta does. Null empties the map.
    pub open spec fn after_delta(self, json: JsonView) -> (MapView, Seq<Seq<char>>, Outcome) {
        if json is Null {
            (MapView::empty(), Seq::empty(), Outcome::Done)
        } else {
            self.after_entries(json.entries())
        }
    }
}

/// Once an entry has not ended well, the entries behind it change nothing.
pub proof fn lemma_after_entries_stops(m: MapView, entries: Seq<(Seq<char>, JsonView)>, k: int)
    requires
        0 <= k <= entries.len(),
        !(m.after_entries(entries.subrange(0, k)).2 is Done),
    ensures
        m.after_entries(entries) == m.after_entries(entries.subrange(0, k)),
    decreases entries.len() - k,
{
    if k < entries.len() {
        let next = entries.subrange(0, k + 1);
        assert(next.drop_last() == entries.subrange(0, k));
        lemma_after_entries_stops(m, entries, k + 1);
    } else {
        assert(entries.subrange(0, k) == entries);
    }
}

/// The map of a room.
pub struct MapState {
    objects: IndexMap<String, MapObject>,
    background_image: Option<String>,
    grid: Option<[u8; 2]>,
}

impl View for MapState {
    type V = MapView;

    closed spec fn view(&self) -> MapView {
        MapView {
            objects: object_entries(objects_of(self.objects)),
            background: match self.background_image {
                Some(path) => Some(path@),
                None => None,
            },
            grid: match self.grid {
                Some(size) => Some((size@[0], size@[1])),
                None => None,
            },
        }
    }
}

impl MapState {
    /// No id occurs twice, and none is `grid` or `background`; no object is a
    /// wall; the properties of each token have distinct keys; and a grid has
    /// at least two columns and two rows.
    pub closed spec fn wf(&self) -> bool {
        &&& distinct_keys(objects_of(self.objects))
        &&& !has_key(objects_of(self.objects), "grid"@)
        &&& !has_key(objects_of(self.objects), "background"@)
        &&& forall|i: int|
            0 <= i < objects_of(self.objects).len() ==> (#[trigger] objects_of(
                self.objects,
            )[i]).1.wf() && !(objects_of(self.objects)[i].1@ is Wall)
        &&& match self.grid {
            Some(size) => size@[0] >= 2 && size@[1] >= 2,
            None => true,
        }
    }

    /// What being well-formed means for the view.
    pub proof fn lemma_wf(&self)
        requires
            self.wf(),
        ensures
            self@.wf(),
    {
        lemma_object_entries(objects_of(self.objects), "grid"@);
        lemma_object_entries(objects_of(self.objects), "background"@);
        assert forall|i: int| 0 <= i < self@.objects.len() implies !((
        #[trigger] self@.objects[i]).1 is Wall) by {
            assert(objects_of(self.objects)[i].1.wf());
        }
        assert forall|i: int| 0 <= i < self@.objects.len() implies (
        #[trigger] self@.objects[i]).1.wf() by {
            let o = objects_of(self.objects)[i].1;
            assert(o.wf());
            if let MapObject::Token(t) = o {
                lemma_text_entries(t.properties@);
            }
        }
    }

    /// A map without objects, background or grid.
    pub fn new() -> (m: Self)
        ensures
            m@ == MapView::empty(),
            m.wf(),
    {
        let m = MapState { objects: objects_new(), background_image: None, grid: None };
        assert(m@.objects =~= Seq::empty());
        m
    }

    /// Columns and rows of the grid, if the map has one.
    pub fn grid(&self) -> (g: Option<[u8; 2]>)
        ensures
            match g {
                Some(size) => self@.grid == Some((size@[0], size@[1])),
                None => self@.grid is None,
            },
    {
        self.grid
    }

    /// The path of the background picture.
    pub fn background_image(&self) -> (r: Option<&String>)
        ensures
            match r {
                Some(path) => self@.background == Some(path@),
                None => self@.background is None,
            },
    {
        self.background_image.as_ref()
    }

    /// Number of objects.
    pub fn len(&self) -> (n: usize)
        ensures
            n == self@.objects.len(),
    {
        objects_len(&self.objects)
    }

    /// Whether an object has the id `id`.
    pub fn contains(&self, id: &str) -> (b: bool)
        requires
            self.wf(),
        ensures
            b == has_key(self@.objects, id@),
    {
        proof {
            lemma_object_entries(objects_of(self.objects), id@);
        }
        objects_contains_key(&self.objects, id)
    }

    /// The object with the id `id`.
    pub fn object(&self, id: &str) -> (r: Option<&MapObject>)
        requires
            self.wf(),
        ensures
            match r {
                Some(o) => value_of(self@.objects, id@) == Some(o@) && o.wf() && !(o@ is Wall),
                None => !has_key(self@.objects, id@),
            },
    {
        proof {
            lemma_object_entries(objects_of(self.objects), id@);
        }
        let r = objects_get(&self.objects, id);
        proof {
            if let Some(o) = r {
                let s = objects_of(self.objects);
                let i = choose|i: int|
                    0 <= i < s.len() && (#[trigger] s[i]).0 == id@ && s[i].1 == *o;
                lemma_index_of(s, id@, i);
            }
        }
        r
    }

    /// The id and the object at place `i` of the map's order.
    pub fn object_at(&self, i: usize) -> (r: Option<(&String, &MapObject)>)
        ensures
            match r {
                Some(e) => i < self@.objects.len() && (e.0@, e.1@) == self@.objects[i as int],
                None => i >= self@.objects.len(),
            },
    {
        objects_get_index(&self.objects, i)
    }

    /// Sets the grid to `size[0]` columns by `size[1]` rows. A size with a
    /// side below 2 takes the grid away.
    pub fn set_grid(&mut self, size: [u8; 2])
        ensures
            final(self)@ == (MapView { grid: grid_of(size@[0], size@[1]), ..old(self)@ }),
            old(self).wf() ==> final(self).wf(),
    {
        if size[0] >= 2 && size[1] >= 2 {
            self.grid = Some(size);
        } else {
            self.grid = None;
        }
    }

    /// Takes the grid away.
    pub fn clear_grid(&mut self)
        ensures
            final(self)@ == (MapView { grid: None, ..old(self)@ }),
            old(self).wf() ==> final(self).wf(),
    {
        self.grid = None;
    }

    /// A copy of this map.
    pub fn clone_state(&self) -> (m: Self)
        requires
            self.wf(),
        ensures
            m@ == self@,
            m.wf(),
    {
        let mut objects = objects_new();
        let n = objects_len(&self.objects);
        let ghost src = objects_of(self.objects);
        let mut i: usize = 0;
        while i < n
            invariant
                i <= n,
                n == src.len(),
                src == objects_of(self.objects),
                self.wf(),
                objects_of(objects).len() == i,
                forall|j: int|
                    0 <= j < i ==> (#[trigger] objects_of(objects)[j]).0 == src[j].0 && objects_of(
                        objects,
                    )[j].1@ == src[j].1@ && objects_of(objects)[j].1.wf(),
            decreases n - i,
        {
            let ghost cur = objects_of(objects);
            match objects_get_index(&self.objects, i) {
                Some((id, obj)) => {
                    let copy = obj.clone_object();
                    proof {
                        assert(src[i as int].1.wf());
                        assert forall|a: int, b: int| 0 <= a < b < cur.len() implies (
                        #[trigger] cur[a]).0 != (#[trigger] cur[b]).0 by {
                            assert(src[a].0 != src[b].0);
                        }
                        if has_key(cur, id@) {
                            let j = index_of(cur, id@);
                            assert(src[j].0 != src[i as int].0);
                        }
                    }
                    objects_insert(&mut objects, id.clone(), copy);
                },
                None => {},
            }
            i += 1;
        }
        let background_image = match &self.background_image {
            Some(path) => Some(path.clone()),
            None => None,
        };
        let m = MapState { objects, background_image, grid: self.grid };
        proof {
            let dst = objects_of(m.objects);
            assert(m@.objects =~= self@.objects);
            assert forall|a: int, b: int| 0 <= a < b < dst.len() implies (#[trigger] dst[a]).0 != (
            #[trigger] dst[b]).0 by {
                assert(src[a].0 != src[b].0);
            }
            assert forall|j: int| 0 <= j < dst.len() implies (#[trigger] dst[j]).1.wf() && !(
            dst[j].1@ is Wall) by {
                assert(src[j].1.wf());
            }
        }
        m
    }
}

/// The byte that an optional JSON array holds at place `i`.
fn item_u8(size: Option<&Json>, i: usize) -> (r: Option<u8>)
    ensures
        r == view_or_null(size).item(i as int).as_u8(),
{
    match size {
        Some(size) => match size.at(i) {
            Some(item) => item.as_u8(),
            None => None,
        },
        None => None,
    }
}

impl MapState {
    /// Applies one entry of a map delta.
    fn apply_entry(&mut self, key: &str, value: &Json) -> (r: (Outcome, Option<String>))
        requires
            old(self).wf(),
        ensures
            final(self).wf(),
            (
                final(self)@,
                match r.1 {
                    Some(path) => Some(path@),
                    None => None,
                },
                r.0,
            ) == old(self)@.step(key@, value@),
    {
        let id = key.to_owned();
        let ghost before = objects_of(self.objects);
        proof {
            lemma_object_entries(before, key@);
        }
        if id == "grid".to_owned() {
            if value.is_empty() {
                self.clear_grid();
                return (Outcome::Done, None);
            }
            let size = value.get("size");
            return match (item_u8(size, 0), item_u8(size, 1)) {
                (Some(columns), Some(rows)) => {
                    self.set_grid([columns, rows]);
                    (Outcome::Done, None)
                },
                _ => (Outcome::Done, None),
            };
        }
        if id == "background".to_owned() {
            return match read_text(value, "path") {
                Some(path) => {
                    self.background_image = Some(path.clone());
                    (Outcome::Done, Some(path))
                },
                None => (Outcome::Failed(DraduError::ProtocolError), None),
            };
        }
        if value.is_empty() {
            proof {
                lemma_swap_without(before, key@);
            }
            objects_remove(&mut self.objects, key);
            proof {
                let after = objects_of(self.objects);
                assert forall|i: int| 0 <= i < after.len() implies (#[trigger] after[i]).1.wf()
                    && !(after[i].1@ is Wall) by {
                    if has_key(before, key@) {
                        let p = index_of(before, key@);
                        let j = if i == p {
                            before.len() - 1
                        } else {
                            i
                        };
                        assert(after[i] == before[j]);
                        assert(before[j].1.wf());
                    } else {
                        assert(before[i].1.wf());
                    }
                }
            }
            return (Outcome::Done, None);
        }
        let existing = match self.object(key) {
            Some(obj) => Some(obj.clone_object()),
            None => None,
        };
        match existing {
            Some(obj) => {
                let mut obj = obj;
                let _ = obj.update_from_json(value);
                proof {
                    lemma_put(before, key@, obj);
                }
                objects_insert(&mut self.objects, id, obj);
                proof {
                    let after = objects_of(self.objects);
                    let p = index_of(before, key@);
                    assert forall|i: int| 0 <= i < after.len() implies (#[trigger] after[i]).1.wf()
                        && !(after[i].1@ is Wall) by {
                        if i != p {
                            assert(after[i] == before[i]);
                            assert(before[i].1.wf());
                        }
                    }
                }
                (Outcome::Done, None)
            },
            None => {
                if MapObject::names_unimplemented(value) {
                    return (Outcome::Unimplemented, None);
                }
                match MapObject::create_from_json(value) {
                    Ok(obj) => {
                        let path = obj.path().to_owned();
                        proof {
                            lemma_put(before, key@, obj);
                        }
                        objects_insert(&mut self.objects, id, obj);
                        proof {
                            let after = objects_of(self.objects);
                            assert forall|i: int| 0 <= i < after.len() implies (
                            #[trigger] after[i]).1.wf() && !(after[i].1@ is Wall) by {
                                if i < before.len() {
                                    assert(after[i] == before[i]);
                                    assert(before[i].1.wf());
                                }
                            }
                            assert(self@.objects =~= old(self)@.objects.push((key@, obj@)));
                        }
                        (Outcome::Done, Some(path))
                    },
                    Err(e) => (Outcome::Failed(e), None),
                }
            },
        }
    }

    /// Applies a map delta: an object keyed by object id, or null, which
    /// empties the map. The entries are applied in order up to the first that
    /// is malformed or asks for an object that cannot be built. The paths
    /// that come back are the pictures that the delta refers to anew: the
    /// background and the objects it made.
    pub fn apply_delta(&mut self, json: &Json) -> (r: (Outcome, Vec<String>))
        requires
            old(self).wf(),
        ensures
            final(self).wf(),
            (final(self)@, texts(r.1@), r.0) == old(self)@.after_delta(json@),
    {
        let mut paths: Vec<String> = Vec::new();
        assert(texts(paths@) =~= Seq::empty());
        if json.is_null() {
            *self = MapState::new();
            return (Outcome::Done, paths);
        }
        let n = json.entry_count();
        let ghost entries = json@.entries();
        let ghost start = self@;
        let mut i: usize = 0;
        assert(entries.subrange(0, 0) =~= Seq::empty());
        while i < n
            invariant
                i <= n,
                n == entries.len(),
                entries == json@.entries(),
                start == old(self)@,
                !(json@ is Null),
                self.wf(),
                (self@, texts(paths@), Outcome::Done) == start.after_entries(
                    entries.subrange(0, i as int),
                ),
            decreases n - i,
        {
            proof {
                let cur = entries.subrange(0, i + 1);
                assert(cur.drop_last() == entries.subrange(0, i as int));
                assert(cur.last() == entries[i as int]);
            }
            match json.entry_at(i) {
                Some((key, value)) => {
                    let ghost seen = paths@;
                    let ghost prev = self@;
                    let (outcome, path) = self.apply_entry(key.as_str(), value);
                    match path {
                        Some(path) => {
                            paths.push(path);
                            assert(texts(paths@) =~= texts(seen).push(path@));
                        },
                        None => {},
                    }
                    proof {
                        let cur = entries.subrange(0, i + 1);
                        assert(start.after_entries(cur.drop_last()) == (
                            prev,
                            texts(seen),
                            Outcome::Done,
                        ));
                        assert(start.after_entries(cur) == (self@, texts(paths@), outcome));
                    }
                    match outcome {
                        Outcome::Done => {},
                        _ => {
                            proof {
                                lemma_after_entries_stops(start, entries, i + 1);
                            }
                            return (outcome, paths);
                        },
                    }
                },
                None => {},
            }
            i += 1;
        }
        assert(entries.subrange(0, n as int) == entries);
        (Outcome::Done, paths)
    }

    /// Whether a map delta can be applied to this map: whether applying it
    /// never comes to an object of a kind that cannot be built.
    pub fn can_update(&self, json: &Json) -> (b: bool)
        requires
            self.wf(),
        ensures
            b == !(self@.after_delta(json@).2 is Unimplemented),
    {
        let mut copy = self.clone_state();
        let (outcome, _) = copy.apply_delta(json);
        match outcome {
            Outcome::Unimplemented => false,
            _ => true,
        }
    }

    /// Applies a map delta that [`MapState::can_update`] accepts. A malformed
    /// entry ends it with a protocol error; the entries before it stay applied.
    pub fn update(&mut self, json: &Json) -> (r: Result<Vec<String>, DraduError>)
        requires
            old(self).wf(),
            !(old(self)@.after_delta(json@).2 is Unimplemented),
        ensures
            final(self).wf(),
            final(self)@ == old(self)@.after_delta(json@).0,
            match old(self)@.after_delta(json@).2 {
                Outcome::Failed(e) => r is Err && r->Err_0 == e,
                _ => r is Ok && texts(r->Ok_0@) == old(self)@.after_delta(json@).1,
            },
    {
        let (outcome, paths) = self.apply_delta(json);
        match outcome {
            Outcome::Failed(e) => Err(e),
            _ => Ok(paths),
        }
    }
}

/// Deleting is idempotent: an empty value under the id of an object that is
/// not there changes nothing, and under the id of one that is there it
/// removes the object, after which a second such entry changes nothing.
pub proof fn lemma_tombstone_idempotent(map: MapView, id: Seq<char>, value: JsonView)
    requires
        distinct_keys(map.objects),
        id != "grid"@,
        id != "background"@,
        value.is_empty(),
    ensures
        map.step(id, value).2 is Done,
        !has_key(map.objects, id) ==> map.step(id, value).0 == map,
        !has_key(map.step(id, value).0.objects, id),
        map.step(id, value).0.objects.len() == if has_key(map.objects, id) {
            map.objects.len() - 1
        } else {
            map.objects.len() as int
        },
        map.step(id, value).0.step(id, value).0 == map.step(id, value).0,
{
    lemma_swap_without(map.objects, id);
}

/// The position `pos` as a JSON array of two numbers.
pub open spec fn pos_json(pos: (Number, Number)) -> JsonView {
    JsonView::Array(seq![JsonView::Number(pos.0), JsonView::Number(pos.1)])
}

/// Properties as the entries of a JSON object of texts.
pub open spec fn props_json(props: Seq<(Seq<char>, Seq<char>)>) -> Seq<(Seq<char>, JsonView)> {
    props.map_values(|e: (Seq<char>, Seq<char>)| (e.0, JsonView::Str(e.1)))
}

/// Objects as the entries of a JSON object, each with its full payload.
pub open spec fn objects_json(objects: Seq<(Seq<char>, ObjectView)>) -> Seq<(Seq<char>, JsonView)> {
    objects.map_values(|e: (Seq<char>, ObjectView)| (e.0, e.1.json()))
}

impl ObjectView {
    /// The full payload that describes the object: the delta that creates it.
    pub open spec fn json(self) -> JsonView {
        match self {
            ObjectView::Decal { pos, scale, path } => JsonView::Object(
                seq![
                    ("type"@, JsonView::Str("decal"@)),
                    ("pos"@, pos_json(pos)),
                    ("scale"@, JsonView::Number(scale)),
                    ("path"@, JsonView::Str(path)),
                ],
            ),
            ObjectView::Token { pos, scale, path, properties } => JsonView::Object(
                seq![
                    ("type"@, JsonView::Str("token"@)),
                    ("pos"@, pos_json(pos)),
                    ("scale"@, JsonView::Number(scale)),
                    ("path"@, JsonView::Str(path)),
                    ("properties"@, JsonView::Object(props_json(properties))),
                ],
            ),
            ObjectView::Wall { .. } => JsonView::Null,
        }
    }
}

impl MapView {
    /// The map as one delta: the grid and the background where the map has
    /// them, then every object by its id.
    pub open spec fn json(self) -> JsonView {
        let grid: Seq<(Seq<char>, JsonView)> = match self.grid {
            Some(size) => seq![
                (
                    "grid"@,
                    JsonView::Object(
                        seq![
                            (
                                "size"@,
                                JsonView::Array(
                                    seq![
                                        JsonView::Number(
                                            Number {
                                                positive: true,
                                                mantissa: size.0 as u64,
                                                exponent: 0,
                                            },
                                        ),
                                        JsonView::Number(
                                            Number {
                                                positive: true,
                                                mantissa: size.1 as u64,
                                                exponent: 0,
                                            },
                                        ),
                                    ],
                                ),
                            ),
                        ],
                    ),
                ),
            ],
            None => Seq::empty(),
        };
        let background: Seq<(Seq<char>, JsonView)> = match self.background {
            Some(path) => seq![
                ("background"@, JsonView::Object(seq![("path"@, JsonView::Str(path))])),
            ],
            None => Seq::empty(),
        };
        JsonView::Object(grid + background + objects_json(self.objects))
    }
}

impl MapObject {
    /// The full payload that describes this object.
    pub fn as_json(&self) -> (json: Json)
        requires
            !(self@ is Wall),
        ensures
            json@ == self@.json(),
    {
        let kind = match self {
            MapObject::Token(_) => "token",
            _ => "decal",
        };
        let pos = self.pos();
        let base = Json::object_of("type", Json::string(kind)).with_entry(
            "pos",
            Json::pair(Json::Number(pos.0), Json::Number(pos.1)),
        ).with_entry("scale", Json::Number(self.scale())).with_entry(
            "path",
            Json::string(self.path()),
        );
        match self {
            MapObject::Token(token) => {
                let mut properties = Json::object();
                let ghost props = text_entries(token.properties@);
                let mut i: usize = 0;
                assert(props_json(props.subrange(0, 0)) =~= Seq::empty());
                while i < token.properties.len()
                    invariant
                        i <= token.properties@.len(),
                        props == text_entries(token.properties@),
                        properties@ == JsonView::Object(props_json(props.subrange(0, i as int))),
                    decreases token.properties@.len() - i,
                {
                    let value = Json::string(token.properties.value_at(i).as_str());
                    properties = properties.with_entry(token.properties.key_at(i).as_str(), value);
                    i += 1;
                    assert(props_json(props.subrange(0, i as int)) =~= props_json(
                        props.subrange(0, i - 1),
                    ).push((props[i - 1].0, JsonView::Str(props[i - 1].1))));
                }
                assert(props.subrange(0, i as int) == props);
                let json = base.with_entry("properties", properties);
                assert(json@->Object_0 =~= self@.json()->Object_0);
                json
            },
            _ => {
                assert(base@->Object_0 =~= self@.json()->Object_0);
                base
            },
        }
    }
}

impl MapState {
    /// The map as one delta, such as a map message carries.
    pub fn as_json(&self) -> (json: Json)
        requires
            self.wf(),
        ensures
            json@ == self@.json(),
    {
        let mut json = Json::object();
        if let Some(size) = self.grid {
            let pair = Json::pair(
                Json::Number(Number::from_u8(size[0])),
                Json::Number(Number::from_u8(size[1])),
            );
            json = json.with_entry("grid", Json::object_of("size", pair));
        }
        if let Some(path) = &self.background_image {
            json = json.with_entry(
                "background",
                Json::object_of("path", Json::string(path.as_str())),
            );
        }
        let ghost head = json@.entries();
        let ghost objects = self@.objects;
        let n = objects_len(&self.objects);
        let mut i: usize = 0;
        assert(objects_json(objects.subrange(0, 0)) =~= Seq::empty());
        assert(head + Seq::<(Seq<char>, JsonView)>::empty() =~= head);
        while i < n
            invariant
                i <= n,
                n == objects.len(),
                objects == self@.objects,
                self.wf(),
                json@ == JsonView::Object(head + objects_json(objects.subrange(0, i as int))),
            decreases n - i,
        {
            match objects_get_index(&self.objects, i) {
                Some((id, obj)) => {
                    assert(objects_of(self.objects)[i as int].1.wf());
                    json = json.with_entry(id.as_str(), obj.as_json());
                },
                None => {},
            }
            i += 1;
            assert(head + objects_json(objects.subrange(0, i as int)) =~= (head + objects_json(
                objects.subrange(0, i - 1),
            )).push((objects[i - 1].0, objects[i - 1].1.json())));
        }
        assert(objects.subrange(0, i as int) == objects);
        assert(json@->Object_0 =~= self@.json()->Object_0);
        json
    }
}

/// Properties written as JSON and applied to no properties give the
/// properties back.
proof fn lemma_props_restore(props: Seq<(Seq<char>, Seq<char>)>, k: int)
    requires
        distinct_keys(props),
        0 <= k <= props.len(),
    ensures
        props_after(Seq::empty(), props_json(props).subrange(0, k)) == props.subrange(0, k),
    decreases k,
{
    let entries = props_json(props).subrange(0, k);
    if k == 0 {
        assert(props.subrange(0, 0) =~= Seq::empty());
    } else {
        lemma_props_restore(props, k - 1);
        assert(entries.drop_last() == props_json(props).subrange(0, k - 1));
        let acc = props.subrange(0, k - 1);
        let e = props[k - 1];
        assert(entries.last() == (e.0, JsonView::Str(e.1)));
        if has_key(acc, e.0) {
            let j = index_of(acc, e.0);
            assert(acc[j] == props[j]);
            assert(props[j].0 != props[k - 1].0);
        }
        assert(acc.push(e) =~= props.subrange(0, k));
    }
}

/// The payload of an object describes that object.
pub proof fn lemma_object_restore(o: ObjectView)
    requires
        o.wf(),
        !(o is Wall),
    ensures
        created(o.json()) == Ok::<ObjectView, DraduError>(o),
        !o.json().is_empty(),
        !unimplemented_kind(o.json()),
{
    reveal_strlit("type");
    reveal_strlit("pos");
    reveal_strlit("scale");
    reveal_strlit("path");
    reveal_strlit("properties");
    reveal_strlit("decal");
    reveal_strlit("token");
    reveal_strlit("wall");
    reveal_strlit("effect");
    let json = o.json();
    let entries = json.entries();
    assert("type"@.len() == 4 && "pos"@.len() == 3 && "scale"@.len() == 5 && "path"@.len() == 4
        && "properties"@.len() == 10);
    assert("path"@[0] != "type"@[0]);
    assert(entries[0].0 == "type"@ && entries[1].0 == "pos"@ && entries[2].0 == "scale"@
        && entries[3].0 == "path"@);
    assert("decal"@.len() != "wall"@.len());
    assert("decal"@[0] != "token"@[0] && "token"@[0] != "wall"@[0]);
    assert("decal"@.len() != "effect"@.len() && "token"@.len() != "effect"@.len());
    lemma_lookup_found(entries, "type"@, 0);
    lemma_lookup_found(entries, "pos"@, 1);
    lemma_lookup_found(entries, "scale"@, 2);
    lemma_lookup_found(entries, "path"@, 3);
    let pos = json.field("pos"@);
    assert(pos.members().len() == 2);
    assert(pos_of_json(pos) == Some(o.pos()));
    match o {
        ObjectView::Token { pos, scale, path, properties } => {
            lemma_lookup_found(entries, "properties"@, 4);
            lemma_props_restore(properties, properties.len() as int);
            assert(props_json(properties).subrange(0, properties.len() as int) == props_json(
                properties,
            ));
            assert(properties.subrange(0, properties.len() as int) == properties);
        },
        _ => {},
    }
}

/// A stored map restores: the delta that [`MapState::as_json`] writes, applied
/// to an empty map, gives the map back and refers to each of its pictures.
pub proof fn lemma_map_restore(m: MapView)
    requires
        m.wf(),
    ensures
        MapView::empty().after_delta(m.json()).0 == m,
        MapView::empty().after_delta(m.json()).2 is Done,
{
    reveal_strlit("grid");
    reveal_strlit("background");
    reveal_strlit("size");
    reveal_strlit("path");
    assert("grid"@.len() != "background"@.len());
    let start = MapView::empty();
    let entries = m.json().entries();
    let head_len: int = (if m.grid is Some {
        1int
    } else {
        0int
    }) + (if m.background is Some {
        1int
    } else {
        0int
    });
    let base = MapView { objects: Seq::empty(), ..m };
    assert(entries.subrange(0, 0) =~= Seq::empty());
    let mut after_grid = start;
    if let Some(size) = m.grid {
        let e = entries.subrange(0, 1);
        assert(e.drop_last() =~= Seq::empty());
        let value = e.last().1;
        assert(e.last().0 == "grid"@);
        lemma_lookup_found(value.entries(), "size"@, 0);
        let pair = value.field("size"@);
        assert(pair.members().len() == 2);
        assert(!value.is_empty());
        assert(pair.item(0).as_u8() == Some(size.0));
        assert(pair.item(1).as_u8() == Some(size.1));
        assert(grid_of(size.0, size.1) == m.grid);
        assert(start.after_entries(e.drop_last()) == (
            start,
            Seq::<Seq<char>>::empty(),
            Outcome::Done,
        ));
        assert(start.step("grid"@, value).0 == MapView { grid: m.grid, ..start });
        assert(start.after_entries(e).0 == MapView { grid: m.grid, ..start });
        after_grid = MapView { grid: m.grid, ..start };
    }
    let grid_len: int = if m.grid is Some {
        1
    } else {
        0
    };
    assert(start.after_entries(entries.subrange(0, grid_len)).0 == after_grid);
    assert(start.after_entries(entries.subrange(0, grid_len)).2 is Done);
    if let Some(path) = m.background {
        let e = entries.subrange(0, head_len);
        assert(e.drop_last() =~= entries.subrange(0, grid_len));
        let value = e.last().1;
        assert(e.last().0 == "background"@);
        lemma_lookup_found(value.entries(), "path"@, 0);
        assert(value.field("path"@).as_str() == Some(path));
        assert(after_grid.step("background"@, value).0 == base);
        assert(start.after_entries(e).0 == base);
    }
    assert(start.after_entries(entries.subrange(0, head_len)).0 == base);
    assert(start.after_entries(entries.subrange(0, head_len)).2 is Done);
    lemma_objects_restore(m, head_len, m.objects.len() as int);
    assert(entries.subrange(0, head_len + m.objects.len()) == entries);
    assert(m.objects.subrange(0, m.objects.len() as int) == m.objects);
}

/// Behind the grid and the background, the first `k` objects of a stored map
/// restore one by one.
proof fn lemma_objects_restore(m: MapView, head_len: int, k: int)
    requires
        m.wf(),
        0 <= k <= m.objects.len(),
        head_len == m.json().entries().len() - m.objects.len(),
        MapView::empty().after_entries(m.json().entries().subrange(0, head_len)).0 == (MapView {
            objects: Seq::empty(),
            ..m
        }),
        MapView::empty().after_entries(m.json().entries().subrange(0, head_len)).2 is Done,
    ensures
        MapView::empty().after_entries(m.json().entries().subrange(0, head_len + k)).0 == (
        MapView { objects: m.objects.subrange(0, k), ..m }),
        MapView::empty().after_entries(m.json().entries().subrange(0, head_len + k)).2 is Done,
    decreases k,
{
    let entries = m.json().entries();
    if k == 0 {
        assert(m.objects.subrange(0, 0) =~= Seq::empty());
    } else {
        lemma_objects_restore(m, head_len, k - 1);
        let cur = entries.subrange(0, head_len + k);
        assert(cur.drop_last() == entries.subrange(0, head_len + k - 1));
        let e = m.objects[k - 1];
        assert(cur.last() == (e.0, e.1.json()));
        lemma_object_restore(e.1);
        let acc = m.objects.subrange(0, k - 1);
        if has_key(acc, e.0) {
            let j = index_of(acc, e.0);
            assert(acc[j] == m.objects[j]);
            assert(m.objects[j].0 != m.objects[k - 1].0);
        }
        assert(acc.push(e) =~= m.objects.subrange(0, k));
    }
}

} // verus!
