//! JSON values, with `serde_json` doing the reading and the writing.
//!
//! A `serde_json::Value` is opaque here. What it holds is `value_json` of
//! it, a mathematical JSON value; what a `serde_json::Map` holds is
//! `map_json` of it. The functions below say of each call into
//! `serde_json` what it does to these.
use vstd::prelude::*;
use serde_json::{Map as JsonMap, Value};
use crate::order;
use crate::text;

verus! {

/// `serde_json::Value`.
#[verifier::external_type_specification]
#[verifier::external_body]
pub struct ExValue(serde_json::Value);

/// `serde_json::Map`, an ordered map.
#[verifier::external_type_specification]
#[verifier::external_body]
#[verifier::reject_recursive_types(K)]
#[verifier::reject_recursive_types(V)]
pub struct ExMap<K, V>(serde_json::Map<K, V>);

/// A JSON value.
pub enum Json {
    Null,
    Bool(bool),
    /// A whole number not below zero.
    PosInt(nat),
    /// A whole number below zero.
    NegInt(int),
    /// Any other number, by its text.
    Fraction(Seq<char>),
    Str(Seq<char>),
    Array(Seq<Json>),
    Object(Map<Seq<char>, Json>),
}

/// What reading a text gives: a value, or the text of the error.
pub enum Reading {
    Value(Json),
    Refused(Seq<char>),
}

/// What a `serde_json::Value` holds.
pub uninterp spec fn value_json(v: Value) -> Json;

/// What a `serde_json::Map` holds.
pub uninterp spec fn map_json(m: JsonMap<String, Value>) -> Map<Seq<char>, Json>;

/// What `serde_json::from_str` reads from a text.
pub uninterp spec fn json_read(s: Seq<char>) -> Reading;

/// What `serde_json::to_string_pretty` writes for a value.
pub uninterp spec fn json_pretty(j: Json) -> Seq<char>;

/// What `Display` of `serde_json::Value` writes for a value.
pub uninterp spec fn json_compact(j: Json) -> Seq<char>;

/// What `Debug` of `str` writes for a text: the text quoted and escaped.
pub uninterp spec fn quoted(s: Seq<char>) -> Seq<char>;

/// A value of whole numbers, texts and switches, with arrays and objects
/// nested at most `depth` deep.
pub open spec fn plain_within(j: Json, depth: nat) -> bool
    decreases depth,
{
    match j {
        Json::Fraction(_) => false,
        Json::NegInt(n) => i64::MIN <= n < 0,
        Json::PosInt(n) => n <= u64::MAX,
        Json::Array(s) => depth > 0 && forall|i: int|
            0 <= i < s.len() ==> plain_within(#[trigger] s[i], (depth - 1) as nat),
        Json::Object(m) => depth > 0 && forall|k: Seq<char>|
            m.contains_key(k) ==> plain_within(#[trigger] m[k], (depth - 1) as nat),
        _ => true,
    }
}

/// The decimal digits of a 64-bit number, without a leading zero.
pub open spec fn plain_number(s: Seq<char>) -> bool {
    &&& text::all_digits(s)
    &&& (s[0] == '0' ==> s.len() == 1)
    &&& text::digits_value(s) <= u64::MAX
}

/// `serde_json::from_str::<Value>`: reads a JSON text. What it reads is a
/// function of the text. `true` and `false` and plain numbers are read as
/// what they stand for.
#[verifier::external_body]
pub(crate) fn parse(s: &str) -> (r: Result<Value, String>)
    ensures
        match r {
            Ok(v) => json_read(s@) == Reading::Value(value_json(v)),
            Err(e) => json_read(s@) == Reading::Refused(e@),
        },
        s@ == "true"@ ==> r is Ok && value_json(r->Ok_0) == Json::Bool(true),
        s@ == "false"@ ==> r is Ok && value_json(r->Ok_0) == Json::Bool(false),
        plain_number(s@) ==> r is Ok && value_json(r->Ok_0) == Json::PosInt(
            text::digits_value(s@),
        ),
{
    match serde_json::from_str(s) {
        Ok(v) => Ok(v),
        Err(e) => Err(e.to_string()),
    }
}

/// `serde_json::to_string_pretty`: writes a value. It cannot fail on a
/// `Value`. The reader gives the value back, also with a line feed behind
/// the text; its limit is 127 nested containers, and fractions need not
/// come back exactly, so both are left out.
#[verifier::external_body]
pub(crate) fn pretty(v: &Value) -> (s: String)
    requires
        plain_within(value_json(*v), 127),
    ensures
        s@ == json_pretty(value_json(*v)),
        json_read(s@) == Reading::Value(value_json(*v)),
        json_read(s@.push('\n')) == Reading::Value(value_json(*v)),
{
    serde_json::to_string_pretty(v).unwrap_or_default()
}

/// `Display` of `serde_json::Value`: the compact text of a value.
#[verifier::external_body]
pub(crate) fn compact(v: &Value) -> (s: String)
    ensures
        s@ == json_compact(value_json(*v)),
{
    v.to_string()
}

/// `Debug` of `str`: the text quoted and escaped, a function of the text.
#[verifier::external_body]
pub(crate) fn quote(t: &str) -> (s: String)
    ensures
        s@ == quoted(t@),
{
    format!("{:?}", t)
}

/// `serde_json::Map::new`: an empty map.
#[verifier::external_body]
pub(crate) fn new_map() -> (m: JsonMap<String, Value>)
    ensures
        map_json(m).dom() == Set::<Seq<char>>::empty(),
{
    JsonMap::new()
}

/// `serde_json::Map::insert`: sets the value of a key and returns the value
/// that it replaced.
#[verifier::external_body]
pub(crate) fn insert(m: &mut JsonMap<String, Value>, k: String, v: Value) -> (r: Option<Value>)
    ensures
        map_json(*final(m)) == map_json(*old(m)).insert(k@, value_json(v)),
        match r {
            Some(x) => map_json(*old(m)).contains_key(k@) && map_json(*old(m))[k@] == value_json(x),
            None => !map_json(*old(m)).contains_key(k@),
        },
{
    m.insert(k, v)
}

/// `serde_json::Map::iter`: the entries in the order of their keys, each
/// key once.
#[verifier::external_body]
pub(crate) fn entries<'a>(m: &'a JsonMap<String, Value>) -> (r: Vec<(&'a String, &'a Value)>)
    ensures
        order::strictly_sorted(entry_keys(r@)),
        entry_keys(r@).to_set() == map_json(*m).dom(),
        forall|i: int|
            0 <= i < r@.len() ==> map_json(*m)[(#[trigger] r@[i]).0@] == value_json(*r@[i].1),
{
    m.iter().collect()
}

/// The keys of a list of entries.
pub open spec fn entry_keys(v: Seq<(&String, &Value)>) -> Seq<Seq<char>> {
    v.map_values(|e: (&String, &Value)| e.0@)
}

/// `Value::Object`.
#[verifier::external_body]
pub(crate) fn object(m: JsonMap<String, Value>) -> (v: Value)
    ensures
        value_json(v) == Json::Object(map_json(m)),
{
    Value::Object(m)
}

/// `Value::Bool`.
#[verifier::external_body]
pub(crate) fn boolean(b: bool) -> (v: Value)
    ensures
        value_json(v) == Json::Bool(b),
{
    Value::Bool(b)
}

/// `Value::from` of a `u64`: that number.
#[verifier::external_body]
pub(crate) fn number(n: u64) -> (v: Value)
    ensures
        value_json(v) == Json::PosInt(n as nat),
{
    Value::from(n)
}

/// `Value::String`.
#[verifier::external_body]
pub(crate) fn string(s: String) -> (v: Value)
    ensures
        value_json(v) == Json::Str(s@),
{
    Value::String(s)
}

/// `Value::Array`.
#[verifier::external_body]
pub(crate) fn array(items: Vec<Value>) -> (v: Value)
    ensures
        value_json(v) == Json::Array(items@.map_values(|x: Value| value_json(x))),
{
    Value::Array(items)
}

/// `Value::as_object`: the members of an object.
#[verifier::external_body]
pub(crate) fn as_object<'a>(v: &'a Value) -> (r: Option<&'a JsonMap<String, Value>>)
    ensures
        match r {
            Some(m) => value_json(*v) == Json::Object(map_json(*m)),
            None => !(value_json(*v) is Object),
        },
{
    v.as_object()
}

/// `Value::is_boolean`.
#[verifier::external_body]
pub(crate) fn is_boolean(v: &Value) -> (r: bool)
    ensures
        r == (value_json(*v) is Bool),
{
    v.is_boolean()
}

/// `Value::as_u64`: a whole number not below zero.
#[verifier::external_body]
pub(crate) fn as_u64(v: &Value) -> (r: Option<u64>)
    ensures
        match r {
            Some(n) => value_json(*v) == Json::PosInt(n as nat),
            None => !(value_json(*v) is PosInt),
        },
{
    v.as_u64()
}

/// `Value::as_i64`: a whole number that fits in 64 bits with a sign.
#[verifier::external_body]
pub(crate) fn as_i64(v: &Value) -> (r: Option<i64>)
    ensures
        r == match value_json(*v) {
            Json::PosInt(n) => if n <= i64::MAX {
                Some(n as i64)
            } else {
                None
            },
            Json::NegInt(n) => Some(n as i64),
            _ => None,
        },
{
    v.as_i64()
}

/// `Value::as_str`: the text of a string.
#[verifier::external_body]
pub(crate) fn as_str<'a>(v: &'a Value) -> (r: Option<&'a str>)
    ensures
        match r {
            Some(s) => value_json(*v) == Json::Str(s@),
            None => !(value_json(*v) is Str),
        },
{
    v.as_str()
}

} // verus!
