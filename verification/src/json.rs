//! JSON values as the session payloads use them.

use vstd::prelude::*;

verus! {

/// A decimal number: `mantissa * 10^exponent`, negated unless `positive`.
#[derive(Clone, Copy, Debug, PartialEq, Eq, Structural)]
pub struct Number {
    pub positive: bool,
    pub mantissa: u64,
    pub exponent: i16,
}

impl Number {
    /// The whole number `n`.
    pub fn from_u8(n: u8) -> (r: Number)
        ensures
            r == (Number { positive: true, mantissa: n as u64, exponent: 0 }),
    {
        Number { positive: true, mantissa: n as u64, exponent: 0 }
    }

    /// This number as a byte: it must be positive, without exponent, and at most 255.
    pub open spec fn spec_as_u8(self) -> Option<u8> {
        if self.positive && self.exponent == 0 && self.mantissa <= 255 {
            Some(self.mantissa as u8)
        } else {
            None
        }
    }

    /// This number as a byte, if it is one.
    #[verifier::when_used_as_spec(spec_as_u8)]
    pub fn as_u8(self) -> (r: Option<u8>)
        ensures
            r == self.spec_as_u8(),
    {
        if self.positive && self.exponent == 0 && self.mantissa <= 255 {
            Some(self.mantissa as u8)
        } else {
            None
        }
    }
}

/// A JSON value. An object keeps its entries in the order of the text.
#[derive(Debug, PartialEq)]
pub enum Json {
    Null,
    Bool(bool),
    Number(Number),
    Str(String),
    Array(Vec<Json>),
    Object(Vec<(String, Json)>),
}

/// The mathematical value of a [`Json`].
pub enum JsonView {
    Null,
    Bool(bool),
    Number(Number),
    Str(Seq<char>),
    Array(Seq<JsonView>),
    Object(Seq<(Seq<char>, JsonView)>),
}

/// The mathematical value of `j`.
pub open spec fn json_view(j: Json) -> JsonView
    decreases j, 0nat,
{
    match j {
        Json::Null => JsonView::Null,
        Json::Bool(b) => JsonView::Bool(b),
        Json::Number(n) => JsonView::Number(n),
        Json::Str(s) => JsonView::Str(s@),
        Json::Array(v) => JsonView::Array(items_view(v, v@.len())),
        Json::Object(v) => JsonView::Object(entries_view(v, v@.len())),
    }
}

/// The views of the first `n` items of `v`.
pub open spec fn items_view(v: Vec<Json>, n: nat) -> Seq<JsonView>
    decreases v, n,
{
    if n == 0 || n > v@.len() {
        Seq::empty()
    } else {
        items_view(v, (n - 1) as nat).push(json_view(v@[n - 1]))
    }
}

/// The views of the first `n` entries of `v`.
pub open spec fn entries_view(v: Vec<(String, Json)>, n: nat) -> Seq<(Seq<char>, JsonView)>
    decreases v, n,
{
    if n == 0 || n > v@.len() {
        Seq::empty()
    } else {
        entries_view(v, (n - 1) as nat).push((v@[n - 1].0@, json_view(v@[n - 1].1)))
    }
}

impl View for Json {
    type V = JsonView;

    open spec fn view(&self) -> JsonView {
        json_view(*self)
    }
}

/// The views of the first `n` items, item by item.
pub proof fn lemma_items_view(v: Vec<Json>, n: nat)
    requires
        n <= v@.len(),
    ensures
        items_view(v, n).len() == n,
        forall|i: int| 0 <= i < n ==> (#[trigger] items_view(v, n)[i]) == v@[i]@,
    decreases n,
{
    if n > 0 {
        lemma_items_view(v, (n - 1) as nat);
    }
}

/// The views of the first `n` entries, entry by entry.
pub proof fn lemma_entries_view(v: Vec<(String, Json)>, n: nat)
    requires
        n <= v@.len(),
    ensures
        entries_view(v, n).len() == n,
        forall|i: int|
            0 <= i < n ==> (#[trigger] entries_view(v, n)[i]) == (v@[i].0@, v@[i].1@),
    decreases n,
{
    if n > 0 {
        lemma_entries_view(v, (n - 1) as nat);
    }
}

/// The value of the first entry with key `k`, or null.
pub open spec fn lookup(entries: Seq<(Seq<char>, JsonView)>, k: Seq<char>) -> JsonView
    decreases entries.len(),
{
    if entries.len() == 0 {
        JsonView::Null
    } else if entries[0].0 == k {
        entries[0].1
    } else {
        lookup(entries.drop_first(), k)
    }
}

/// Whether an entry has the key `k`.
pub open spec fn has_entry(entries: Seq<(Seq<char>, JsonView)>, k: Seq<char>) -> bool {
    exists|i: int| 0 <= i < entries.len() && (#[trigger] entries[i]).0 == k
}

/// A lookup finds the first entry with the key.
pub proof fn lemma_lookup_found(entries: Seq<(Seq<char>, JsonView)>, k: Seq<char>, p: int)
    requires
        0 <= p < entries.len(),
        entries[p].0 == k,
        forall|i: int| 0 <= i < p ==> (#[trigger] entries[i]).0 != k,
    ensures
        lookup(entries, k) == entries[p].1,
    decreases entries.len(),
{
    if p > 0 {
        let t = entries.drop_first();
        assert(entries[0].0 != k);
        assert forall|i: int| 0 <= i < p - 1 implies (#[trigger] t[i]).0 != k by {
            assert(t[i] == entries[i + 1]);
        }
        lemma_lookup_found(t, k, p - 1);
    }
}

/// A lookup of a key that no entry has gives null.
pub proof fn lemma_lookup_missing(entries: Seq<(Seq<char>, JsonView)>, k: Seq<char>)
    requires
        !has_entry(entries, k),
    ensures
        lookup(entries, k) == JsonView::Null,
    decreases entries.len(),
{
    if entries.len() > 0 {
        let t = entries.drop_first();
        assert(entries[0].0 != k);
        assert forall|i: int| 0 <= i < t.len() implies (#[trigger] t[i]).0 != k by {
            assert(t[i] == entries[i + 1]);
        }
        lemma_lookup_missing(t, k);
    }
}

impl JsonView {
    /// Null, an empty text, zero, `false`, an empty array or an empty object.
    pub open spec fn is_empty(self) -> bool {
        match self {
            JsonView::Null => true,
            JsonView::Bool(b) => !b,
            JsonView::Number(n) => n.mantissa == 0,
            JsonView::Str(s) => s.len() == 0,
            JsonView::Array(s) => s.len() == 0,
            JsonView::Object(s) => s.len() == 0,
        }
    }

    /// The text of a string value.
    pub open spec fn as_str(self) -> Option<Seq<char>> {
        match self {
            JsonView::Str(s) => Some(s),
            _ => None,
        }
    }

    /// The number of a number value.
    pub open spec fn as_number(self) -> Option<Number> {
        match self {
            JsonView::Number(n) => Some(n),
            _ => None,
        }
    }

    /// A number value as a byte.
    pub open spec fn as_u8(self) -> Option<u8> {
        match self {
            JsonView::Number(n) => n.spec_as_u8(),
            _ => None,
        }
    }

    /// The entries of an object; none for any other value.
    pub open spec fn entries(self) -> Seq<(Seq<char>, JsonView)> {
        match self {
            JsonView::Object(s) => s,
            _ => Seq::empty(),
        }
    }

    /// The items of an array; none for any other value.
    pub open spec fn members(self) -> Seq<JsonView> {
        match self {
            JsonView::Array(s) => s,
            _ => Seq::empty(),
        }
    }

    /// What an object holds under `k`; null where there is no such entry.
    pub open spec fn field(self, k: Seq<char>) -> JsonView {
        lookup(self.entries(), k)
    }

    /// Whether an object has the key `k`.
    pub open spec fn has_key(self, k: Seq<char>) -> bool {
        has_entry(self.entries(), k)
    }

    /// The item of an array at `i`; null where there is none.
    pub open spec fn item(self, i: int) -> JsonView {
        if 0 <= i < self.members().len() {
            self.members()[i]
        } else {
            JsonView::Null
        }
    }
}

/// The view of a value that may be missing: null stands for a missing one.
pub open spec fn view_or_null(o: Option<&Json>) -> JsonView {
    match o {
        Some(j) => j@,
        None => JsonView::Null,
    }
}

/// What `json::parse` makes of a text: the value, or nothing where the text
/// is not JSON.
pub uninterp spec fn parsed(text: Seq<char>) -> Option<JsonView>;

/// The text that `JsonValue::dump` writes for a value.
pub uninterp spec fn dumped(j: JsonView) -> Seq<char>;

/// `JsonValue` of the json crate, taken as it is.
#[verifier::external_type_specification]
#[verifier::external_body]
pub struct ExJsonValue(json::JsonValue);

/// Turns a value of the `json` crate into a [`Json`], variant by variant:
/// both string variants become `Str`, a number is taken by `as_parts`.
#[verifier::external_body]
fn from_outside(v: &json::JsonValue) -> Json {
    match v {
        json::JsonValue::Null => Json::Null,
        json::JsonValue::Boolean(b) => Json::Bool(*b),
        json::JsonValue::Number(n) => {
            let (positive, mantissa, exponent) = n.as_parts();
            Json::Number(Number { positive, mantissa, exponent })
        },
        json::JsonValue::Short(s) => Json::Str(s.as_str().to_owned()),
        json::JsonValue::String(s) => Json::Str(s.clone()),
        json::JsonValue::Array(a) => Json::Array(a.iter().map(from_outside).collect()),
        json::JsonValue::Object(o) => Json::Object(
            o.iter().map(|(k, v)| (k.to_owned(), from_outside(v))).collect(),
        ),
    }
}

/// Turns a [`Json`] into a value of the `json` crate, variant by variant; a
/// number goes through `Number::from_parts`.
#[verifier::external_body]
fn to_outside(j: &Json) -> json::JsonValue {
    match j {
        Json::Null => json::JsonValue::Null,
        Json::Bool(b) => json::JsonValue::Boolean(*b),
        Json::Number(n) => json::JsonValue::Number(
            json::number::Number::from_parts(n.positive, n.mantissa, n.exponent),
        ),
        Json::Str(s) => json::JsonValue::String(s.clone()),
        Json::Array(a) => json::JsonValue::Array(a.iter().map(to_outside).collect()),
        Json::Object(o) => json::JsonValue::Object(
            o.iter().map(|(k, v)| (k.as_str(), to_outside(v))).collect(),
        ),
    }
}

/// `json::parse`: the value that the text denotes, none where the parser
/// rejects the text. The result depends on the text alone.
#[verifier::external_body]
fn parse_text(text: &str) -> (r: Option<Json>)
    ensures
        match r {
            Some(j) => parsed(text@) == Some(j@),
            None => parsed(text@) is None,
        },
{
    match json::parse(text) {
        Ok(v) => Some(from_outside(&v)),
        Err(_) => None,
    }
}

/// `JsonValue::dump`: the compact JSON text of the value, a function of the
/// value alone.
#[verifier::external_body]
fn dump_text(j: &Json) -> (r: String)
    ensures
        r@ == dumped(j@),
{
    to_outside(j).dump()
}

impl JsonView {
    /// The text that stands for a value in a message body: a string value
    /// gives its own characters, any other value its JSON text.
    pub open spec fn text(self) -> Seq<char> {
        match self {
            JsonView::Str(s) => s,
            _ => dumped(self),
        }
    }
}

impl Json {
    /// Parses a JSON text.
    pub fn parse(text: &str) -> (r: Option<Json>)
        ensures
            match r {
                Some(j) => parsed(text@) == Some(j@),
                None => parsed(text@) is None,
            },
    {
        parse_text(text)
    }

    /// The compact JSON text of this value.
    pub fn dump(&self) -> (r: String)
        ensures
            r@ == dumped(self@),
    {
        dump_text(self)
    }

    /// The text that stands for this value in a message body.
    pub fn to_text(&self) -> (r: String)
        ensures
            r@ == self@.text(),
    {
        match self {
            Json::Str(s) => s.clone(),
            _ => dump_text(self),
        }
    }

    /// A string value.
    pub fn string(s: &str) -> (r: Json)
        ensures
            r@ == JsonView::Str(s@),
    {
        Json::Str(s.to_owned())
    }

    /// An object without entries.
    pub fn object() -> (r: Json)
        ensures
            r@ == JsonView::Object(Seq::empty()),
    {
        let r = Json::Object(Vec::new());
        assert(r@->Object_0 =~= Seq::empty());
        r
    }

    /// An object with the single entry `key: value`.
    pub fn object_of(key: &str, value: Json) -> (r: Json)
        ensures
            r@ == JsonView::Object(seq![(key@, value@)]),
    {
        let mut v: Vec<(String, Json)> = Vec::new();
        v.push((key.to_owned(), value));
        proof {
            lemma_entries_view(v, 1);
        }
        let r = Json::Object(v);
        assert(r@->Object_0 =~= seq![(key@, value@)]);
        r
    }

    /// This object with the entry `key: value` added at its end. A value
    /// that is no object is replaced by an object with this one entry.
    pub fn with_entry(self, key: &str, value: Json) -> (r: Json)
        ensures
            r@ == JsonView::Object(self@.entries().push((key@, value@))),
    {
        match self {
            Json::Object(v) => {
                let mut v = v;
                proof {
                    lemma_entries_view(v, v@.len());
                }
                v.push((key.to_owned(), value));
                proof {
                    lemma_entries_view(v, v@.len());
                }
                let r = Json::Object(v);
                assert(r@->Object_0 =~= self@.entries().push((key@, value@)));
                r
            },
            _ => Json::object_of(key, value),
        }
    }

    /// The array of the two items `a` and `b`.
    pub fn pair(a: Json, b: Json) -> (r: Json)
        ensures
            r@ == JsonView::Array(seq![a@, b@]),
    {
        let mut v: Vec<Json> = Vec::new();
        v.push(a);
        v.push(b);
        proof {
            lemma_items_view(v, 2);
        }
        let r = Json::Array(v);
        assert(r@->Array_0 =~= seq![a@, b@]);
        r
    }

    /// Whether this is the null value.
    pub fn is_null(&self) -> (b: bool)
        ensures
            b == (self@ is Null),
    {
        match self {
            Json::Null => true,
            _ => false,
        }
    }

    /// Null, an empty text, zero, `false`, an empty array or an empty object.
    pub fn is_empty(&self) -> (b: bool)
        ensures
            b == self@.is_empty(),
    {
        match self {
            Json::Null => true,
            Json::Bool(b) => !*b,
            Json::Number(n) => n.mantissa == 0,
            Json::Str(s) => s.as_str().is_empty(),
            Json::Array(v) => {
                proof {
                    lemma_items_view(*v, v@.len());
                }
                v.len() == 0
            },
            Json::Object(v) => {
                proof {
                    lemma_entries_view(*v, v@.len());
                }
                v.len() == 0
            },
        }
    }

    /// The text of a string value.
    pub fn as_str(&self) -> (r: Option<&String>)
        ensures
            match r {
                Some(s) => self@.as_str() == Some(s@),
                None => self@.as_str() is None,
            },
    {
        match self {
            Json::Str(s) => Some(s),
            _ => None,
        }
    }

    /// The number of a number value.
    pub fn as_number(&self) -> (r: Option<Number>)
        ensures
            r == self@.as_number(),
    {
        match self {
            Json::Number(n) => Some(*n),
            _ => None,
        }
    }

    /// A number value as a byte.
    pub fn as_u8(&self) -> (r: Option<u8>)
        ensures
            r == self@.as_u8(),
    {
        match self {
            Json::Number(n) => n.as_u8(),
            _ => None,
        }
    }

    /// Number of entries of an object; 0 for any other value.
    pub fn entry_count(&self) -> (n: usize)
        ensures
            n == self@.entries().len(),
    {
        match self {
            Json::Object(v) => {
                proof {
                    lemma_entries_view(*v, v@.len());
                }
                v.len()
            },
            _ => 0,
        }
    }

    /// The entry of an object at place `i`.
    pub fn entry_at(&self, i: usize) -> (r: Option<(&String, &Json)>)
        ensures
            match r {
                Some(e) => i < self@.entries().len() && (e.0@, e.1@) == self@.entries()[i as int],
                None => i >= self@.entries().len(),
            },
    {
        match self {
            Json::Object(v) => {
                proof {
                    lemma_entries_view(*v, v@.len());
                }
                if i < v.len() {
                    Some((&v[i].0, &v[i].1))
                } else {
                    None
                }
            },
            _ => None,
        }
    }

    /// What an object holds under `key`.
    pub fn get(&self, key: &str) -> (r: Option<&Json>)
        ensures
            r is Some <==> self@.has_key(key@),
            view_or_null(r) == self@.field(key@),
    {
        match self {
            Json::Object(v) => {
                let k = key.to_owned();
                let ghost es = self@.entries();
                proof {
                    lemma_entries_view(*v, v@.len());
                }
                let mut i: usize = 0;
                while i < v.len()
                    invariant
                        i <= v@.len(),
                        k@ == key@,
                        es == self@.entries(),
                        es.len() == v@.len(),
                        forall|j: int|
                            0 <= j < v@.len() ==> (#[trigger] es[j]) == (v@[j].0@, v@[j].1@),
                        forall|j: int| 0 <= j < i ==> (#[trigger] es[j]).0 != key@,
                    decreases v@.len() - i,
                {
                    if v[i].0 == k {
                        proof {
                            assert(es[i as int].0 == key@);
                            lemma_lookup_found(es, key@, i as int);
                        }
                        return Some(&v[i].1);
                    }
                    assert(es[i as int].0 != key@);
                    i += 1;
                }
                proof {
                    lemma_lookup_missing(es, key@);
                }
                None
            },
            _ => {
                proof {
                    lemma_lookup_missing(self@.entries(), key@);
                }
                None
            },
        }
    }

    /// Whether an object has the key `key`.
    pub fn has_key(&self, key: &str) -> (b: bool)
        ensures
            b == self@.has_key(key@),
    {
        self.get(key).is_some()
    }

    /// The item of an array at `i`.
    pub fn at(&self, i: usize) -> (r: Option<&Json>)
        ensures
            r is Some <==> i < self@.members().len(),
            view_or_null(r) == self@.item(i as int),
    {
        match self {
            Json::Array(v) => {
                proof {
                    lemma_items_view(*v, v@.len());
                }
                if i < v.len() {
                    Some(&v[i])
                } else {
                    None
                }
            },
            _ => None,
        }
    }
}

} // verus!
