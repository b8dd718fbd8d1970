//! A JSON document model owned by this library, with parsing and printing
//! done by `serde_json`.

use vstd::prelude::*;

verus! {

#[verifier::external_type_specification]
#[verifier::external_body]
pub struct ExJsonValue(serde_json::Value);

#[verifier::external_type_specification]
#[verifier::external_body]
pub struct ExJsonNumber(serde_json::Number);

#[verifier::external_type_specification]
#[verifier::external_body]
pub struct ExJsonError(serde_json::Error);

/// A JSON number: its integer readings, and the number itself as parsed.
/// Only `serde_json` makes one, so the readings agree with the number.
pub struct JsonNumber {
    as_u64: Option<u64>,
    as_i64: Option<i64>,
    raw: serde_json::Number,
}

impl JsonNumber {
    /// The number as a `u64`, when it is an integer in that range.
    pub closed spec fn u64_value(&self) -> Option<u64> {
        self.as_u64
    }

    /// The number as an `i64`, when it is an integer in that range.
    pub closed spec fn i64_value(&self) -> Option<i64> {
        self.as_i64
    }

    /// The number as `serde_json` holds it (floats included).
    pub closed spec fn number(&self) -> serde_json::Number {
        self.raw
    }

    pub fn as_u64(&self) -> (r: Option<u64>)
        ensures
            r == self.u64_value(),
    {
        self.as_u64
    }

    pub fn as_i64(&self) -> (r: Option<i64>)
        ensures
            r == self.i64_value(),
    {
        self.as_i64
    }

    pub fn raw(&self) -> (r: &serde_json::Number)
        ensures
            *r == self.number(),
    {
        &self.raw
    }
}

/// A JSON value. Object members keep the order in which `serde_json` hands
/// them out (sorted by key, the last of equal keys kept).
pub enum Json {
    Null,
    Bool(bool),
    Number(JsonNumber),
    Str(String),
    Array(Vec<Json>),
    Object(Vec<(String, Json)>),
}

/// The value that `serde_json` reads from a text, if the text is JSON.
pub uninterp spec fn json_of_text(text: Seq<char>) -> Option<Json>;

/// The value that `serde_json` reads from bytes, if they are JSON text.
pub uninterp spec fn json_of_bytes(bytes: Seq<u8>) -> Option<Json>;

/// What a JSON value holds as text prints it: strings by their characters,
/// integers by their value.
pub enum JsonView {
    Null,
    Bool(bool),
    Int(int),
    Float(serde_json::Number),
    Str(Seq<char>),
    Array(Seq<JsonView>),
    Object(Seq<(Seq<char>, JsonView)>),
}

impl Json {
    pub open spec fn shape(self) -> JsonView
        decreases self,
    {
        match self {
            Json::Null => JsonView::Null,
            Json::Bool(b) => JsonView::Bool(b),
            Json::Number(n) => match n.i64_value() {
                Some(i) => JsonView::Int(i as int),
                None => match n.u64_value() {
                    Some(u) => JsonView::Int(u as int),
                    None => JsonView::Float(n.number()),
                },
            },
            Json::Str(s) => JsonView::Str(s@),
            Json::Array(a) => JsonView::Array(
                Seq::new(a@.len(), |i: int| if 0 <= i < a@.len() { a@[i].shape() } else { JsonView::Null }),
            ),
            Json::Object(o) => JsonView::Object(
                Seq::new(
                    o@.len(),
                    |i: int| if 0 <= i < o@.len() { (o@[i].0@, o@[i].1.shape()) } else { (Seq::empty(), JsonView::Null) },
                ),
            ),
        }
    }
}

/// Whether a value nests arrays and objects no deeper than `d`.
pub open spec fn depth_within(v: JsonView, d: nat) -> bool
    decreases d,
{
    match v {
        JsonView::Array(a) => d > 0 && forall|i: int| 0 <= i < a.len() ==> depth_within(#[trigger] a[i], (d - 1) as nat),
        JsonView::Object(o) => d > 0 && forall|i: int| 0 <= i < o.len() ==> depth_within(#[trigger] o[i].1, (d - 1) as nat),
        _ => true,
    }
}

/// The deepest nesting that `print_json` accepts, as deep as `serde_json`
/// parses.
pub const MAX_JSON_DEPTH: u32 = 128;

/// The bytes that `serde_json` writes for a value.
pub uninterp spec fn text_of_json(j: JsonView) -> Seq<u8>;

/// The value of the first member named `key`.
pub open spec fn member(members: Seq<(String, Json)>, key: Seq<char>) -> Option<Json>
    decreases members.len(),
{
    if members.len() == 0 {
        None
    } else if members[0].0@ == key {
        Some(members[0].1)
    } else {
        member(members.drop_first(), key)
    }
}

/// Whether two strings hold the same characters.
pub fn str_equal(a: &str, b: &str) -> (r: bool)
    ensures
        r == (a@ == b@),
{
    let n = a.unicode_len();
    if n != b.unicode_len() {
        return false;
    }
    let mut i: usize = 0;
    while i < n
        invariant
            n == a@.len() == b@.len(),
            i <= n,
            forall|k: int| 0 <= k < i ==> a@[k] == b@[k],
        decreases n - i,
    {
        if a.get_char(i) != b.get_char(i) {
            return false;
        }
        i = i + 1;
    }
    assert(a@ =~= b@);
    true
}

/// The value of the first member of `members` named `key`.
pub fn find_member<'a>(members: &'a Vec<(String, Json)>, key: &str) -> (r: Option<&'a Json>)
    ensures
        r matches Some(v) ==> member(members@, key@) == Some(*v),
        r is None ==> member(members@, key@) is None,
{
    let mut i: usize = 0;
    assert(members@.subrange(0, members@.len() as int) =~= members@);
    while i < members.len()
        invariant
            i <= members@.len(),
            member(members@, key@) == member(members@.subrange(i as int, members@.len() as int), key@),
        decreases members@.len() - i,
    {
        let ghost rest = members@.subrange(i as int, members@.len() as int);
        assert(rest.drop_first() =~= members@.subrange(i + 1, members@.len() as int));
        if str_equal(members[i].0.as_str(), key) {
            return Some(&members[i].1);
        }
        i = i + 1;
    }
    None
}

impl Json {
    pub open spec fn spec_as_u64(self) -> Option<u64> {
        match self {
            Json::Number(n) => n.u64_value(),
            _ => None,
        }
    }

    pub open spec fn spec_as_i64(self) -> Option<i64> {
        match self {
            Json::Number(n) => n.i64_value(),
            _ => None,
        }
    }

    pub open spec fn spec_as_str(self) -> Option<Seq<char>> {
        match self {
            Json::Str(s) => Some(s@),
            _ => None,
        }
    }

    pub fn as_u64(&self) -> (r: Option<u64>)
        ensures
            r == self.spec_as_u64(),
    {
        match self {
            Json::Number(n) => n.as_u64(),
            _ => None,
        }
    }

    pub fn as_i64(&self) -> (r: Option<i64>)
        ensures
            r == self.spec_as_i64(),
    {
        match self {
            Json::Number(n) => n.as_i64(),
            _ => None,
        }
    }

    pub fn as_str(&self) -> (r: Option<&String>)
        ensures
            r is Some <==> self is Str,
            r matches Some(s) ==> Some(s@) == self.spec_as_str(),
    {
        match self {
            Json::Str(s) => Some(s),
            _ => None,
        }
    }
}

/// Relies on `serde_json::from_str` into a `serde_json::Value`: whether a text
/// is JSON, and what it holds, depends on the text alone.
#[verifier::external_body]
pub fn parse_json(text: &str) -> (r: Result<Json, serde_json::Error>)
    ensures
        r is Ok <==> json_of_text(text@) is Some,
        r matches Ok(j) ==> json_of_text(text@) == Some(j),
{
    serde_json::from_str::<serde_json::Value>(text).map(json_from_value)
}

/// Relies on `serde_json::from_slice` into a `serde_json::Value`: whether
/// bytes are JSON text, and what they hold, depends on the bytes alone.
#[verifier::external_body]
pub fn parse_json_bytes(bytes: &[u8]) -> (r: Result<Json, serde_json::Error>)
    ensures
        r is Ok <==> json_of_bytes(bytes@) is Some,
        r matches Ok(j) ==> json_of_bytes(bytes@) == Some(j),
{
    serde_json::from_slice::<serde_json::Value>(bytes).map(json_from_value)
}

/// Relies on `serde_json::to_vec` of a `serde_json::Value`, which writes the
/// value compactly: strings by their characters, integers in decimal, so the
/// bytes depend on what `shape` keeps of the value alone. Numbers are made
/// only by `serde_json`, so an integer reading fixes the number. Both this
/// function and the serializer recurse once per level of nesting, hence the
/// bound on depth.
#[verifier::external_body]
pub fn print_json(j: &Json) -> (r: Vec<u8>)
    requires
        depth_within(j.shape(), MAX_JSON_DEPTH as nat),
    ensures
        r@ == text_of_json(j.shape()),
{
    serde_json::to_vec(&json_to_value(j)).unwrap_or_default()
}

/// Relies on `serde_json::Number::from(i64)`, whose `as_i64` gives the integer
/// back and whose `as_u64` gives it when it is not negative.
#[verifier::external_body]
pub fn number_from_i64(i: i64) -> (r: JsonNumber)
    ensures
        r.i64_value() == Some(i),
        r.u64_value() == (if i >= 0 { Some(i as u64) } else { None::<u64> }),
{
    let raw = serde_json::Number::from(i);
    JsonNumber { as_u64: raw.as_u64(), as_i64: raw.as_i64(), raw }
}

/// Moves a `serde_json::Value` into the library's `Json`, variant for variant;
/// a number keeps what `as_u64` and `as_i64` read from it.
#[verifier::external_body]
fn json_from_value(v: serde_json::Value) -> Json {
    match v {
        serde_json::Value::Null => Json::Null,
        serde_json::Value::Bool(b) => Json::Bool(b),
        serde_json::Value::Number(n) => Json::Number(JsonNumber { as_u64: n.as_u64(), as_i64: n.as_i64(), raw: n }),
        serde_json::Value::String(s) => Json::Str(s),
        serde_json::Value::Array(a) => Json::Array(a.into_iter().map(json_from_value).collect()),
        serde_json::Value::Object(o) => Json::Object(o.into_iter().map(|(k, v)| (k, json_from_value(v))).collect()),
    }
}

/// Moves the library's `Json` back into a `serde_json::Value`, variant for variant.
#[verifier::external_body]
fn json_to_value(j: &Json) -> serde_json::Value {
    match j {
        Json::Null => serde_json::Value::Null,
        Json::Bool(b) => serde_json::Value::Bool(*b),
        Json::Number(n) => serde_json::Value::Number(n.raw.clone()),
        Json::Str(s) => serde_json::Value::String(s.clone()),
        Json::Array(a) => serde_json::Value::Array(a.iter().map(json_to_value).collect()),
        Json::Object(o) => serde_json::Value::Object(o.iter().map(|(k, v)| (k.clone(), json_to_value(v))).collect()),
    }
}

} // verus!
