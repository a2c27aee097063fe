//! Reading JSON: what a parsed value holds, and how its members are reached.

use vstd::prelude::*;

verus! {

/// A parsed JSON value, from outside.
#[verifier::external_type_specification]
#[verifier::external_body]
pub struct ExValue(serde_json::Value);

/// What a JSON value holds. A number says what it reads as: an unsigned integer where it is
/// one, and the bit pattern of the nearest double.
#[verifier::ext_equal]
pub enum Json {
    Null,
    Bool(bool),
    Number { unsigned: Option<u64>, double: u64 },
    Text(Seq<char>),
    Array(Seq<Json>),
    Object(Map<Seq<char>, Json>),
}

/// The contents of a JSON value.
pub uninterp spec fn json_of(v: serde_json::Value) -> Json;

/// What reading a text as JSON gives; none where it is no JSON.
pub uninterp spec fn json_read(text: Seq<char>) -> Option<Json>;

/// A member of an object; none in anything but an object.
pub open spec fn member(j: Json, key: Seq<char>) -> Option<Json> {
    match j {
        Json::Object(m) => if m.dom().contains(key) {
            Some(m[key])
        } else {
            None
        },
        _ => None,
    }
}

pub open spec fn text_of(j: Option<Json>) -> Option<Seq<char>> {
    match j {
        Some(Json::Text(s)) => Some(s),
        _ => None,
    }
}

pub open spec fn bool_of(j: Option<Json>) -> Option<bool> {
    match j {
        Some(Json::Bool(b)) => Some(b),
        _ => None,
    }
}

pub open spec fn unsigned_of(j: Option<Json>) -> Option<u64> {
    match j {
        Some(Json::Number { unsigned, .. }) => unsigned,
        _ => None,
    }
}

pub open spec fn double_of(j: Option<Json>) -> Option<u64> {
    match j {
        Some(Json::Number { double, .. }) => Some(double),
        _ => None,
    }
}

pub open spec fn array_of(j: Option<Json>) -> Option<Seq<Json>> {
    match j {
        Some(Json::Array(s)) => Some(s),
        _ => None,
    }
}

/// The contents of an optional value.
pub open spec fn json_opt(v: Option<&serde_json::Value>) -> Option<Json> {
    match v {
        Some(x) => Some(json_of(*x)),
        None => None,
    }
}

/// The contents of each of these values.
pub open spec fn json_all(s: Seq<serde_json::Value>) -> Seq<Json> {
    Seq::new(s.len(), |i: int| json_of(s[i]))
}

/// The characters of an optional text.
pub open spec fn chars_opt(s: Option<String>) -> Option<Seq<char>> {
    match s {
        Some(x) => Some(x@),
        None => None,
    }
}

/// `serde_json::from_str` into a value: the text read as JSON, where it is JSON. What a text
/// reads as is left to the name; the same text always reads the same.
#[verifier::external_body]
pub(crate) fn read_json(text: &str) -> (v: Option<serde_json::Value>)
    ensures
        json_read(text@) == (match v {
            Some(x) => Some(json_of(x)),
            None => None,
        }),
{
    serde_json::from_str(text).ok()
}

/// `serde_json::Value::get` with a key: the member of that name of an object, nothing for a
/// missing one or for any other value.
#[verifier::external_body]
pub(crate) fn json_get<'a>(v: &'a serde_json::Value, key: &str) -> (m: Option<&'a serde_json::Value>)
    ensures
        json_opt(m) == member(json_of(*v), key@),
{
    v.get(key)
}

/// `serde_json::Value::as_str`, copied: the characters of a string, nothing for any other
/// value.
#[verifier::external_body]
fn json_str(v: &serde_json::Value) -> (s: Option<String>)
    ensures
        chars_opt(s) == text_of(Some(json_of(*v))),
{
    v.as_str().map(String::from)
}

/// `serde_json::Value::as_bool`: a boolean's value, nothing for any other value.
#[verifier::external_body]
fn json_bool(v: &serde_json::Value) -> (b: Option<bool>)
    ensures
        b == bool_of(Some(json_of(*v))),
{
    v.as_bool()
}

/// `serde_json::Value::as_u64`: the value of a number that is an unsigned integer, nothing
/// for any other value.
#[verifier::external_body]
fn json_unsigned(v: &serde_json::Value) -> (n: Option<u64>)
    ensures
        n == unsigned_of(Some(json_of(*v))),
{
    v.as_u64()
}

/// `serde_json::Value::as_f64`, as a bit pattern: every number reads as a double, nothing
/// else does.
#[verifier::external_body]
fn json_double(v: &serde_json::Value) -> (bits: Option<u64>)
    ensures
        bits == double_of(Some(json_of(*v))),
{
    v.as_f64().map(|x| x.to_bits())
}

/// `serde_json::Value::as_array`: the elements of an array in order, nothing for any other
/// value.
#[verifier::external_body]
fn json_array(v: &serde_json::Value) -> (a: Option<&Vec<serde_json::Value>>)
    ensures
        array_of(Some(json_of(*v))) == (match a {
            Some(x) => Some(json_all(x@)),
            None => None,
        }),
{
    v.as_array()
}

/// A member that is a string.
pub fn text_member(v: &serde_json::Value, key: &str) -> (s: Option<String>)
    ensures
        chars_opt(s) == text_of(member(json_of(*v), key@)),
{
    match json_get(v, key) {
        Some(m) => json_str(m),
        None => None,
    }
}

/// A member that is a boolean.
pub fn bool_member(v: &serde_json::Value, key: &str) -> (b: Option<bool>)
    ensures
        b == bool_of(member(json_of(*v), key@)),
{
    match json_get(v, key) {
        Some(m) => json_bool(m),
        None => None,
    }
}

/// A member that is an unsigned integer.
pub fn unsigned_member(v: &serde_json::Value, key: &str) -> (n: Option<u64>)
    ensures
        n == unsigned_of(member(json_of(*v), key@)),
{
    match json_get(v, key) {
        Some(m) => json_unsigned(m),
        None => None,
    }
}

/// A member that is a number, as the bit pattern of a double.
pub fn double_member(v: &serde_json::Value, key: &str) -> (bits: Option<u64>)
    ensures
        bits == double_of(member(json_of(*v), key@)),
{
    match json_get(v, key) {
        Some(m) => json_double(m),
        None => None,
    }
}

/// A member that is an array.
pub fn array_member<'a>(v: &'a serde_json::Value, key: &str) -> (a: Option<
    &'a Vec<serde_json::Value>,
>)
    ensures
        array_of(member(json_of(*v), key@)) == (match a {
            Some(x) => Some(json_all(x@)),
            None => None,
        }),
{
    match json_get(v, key) {
        Some(m) => json_array(m),
        None => None,
    }
}

/// What each element reads as an unsigned integer.
pub open spec fn unsigned_elements(s: Seq<Json>) -> Seq<Option<u64>> {
    Seq::new(s.len(), |i: int| unsigned_of(Some(s[i])))
}

/// The elements of an array member as unsigned integers, none for one that is not.
pub fn unsigned_array_member(v: &serde_json::Value, key: &str) -> (a: Option<Vec<Option<u64>>>)
    ensures
        (match a {
            Some(x) => Some(x@),
            None => None,
        }) == (match array_of(member(json_of(*v), key@)) {
            Some(s) => Some(unsigned_elements(s)),
            None => None,
        }),
{
    match array_member(v, key) {
        None => None,
        Some(items) => {
            let mut out: Vec<Option<u64>> = Vec::new();
            let mut i: usize = 0;
            while i < items.len()
                invariant
                    i <= items@.len(),
                    out@.len() == i,
                    forall|j: int|
                        0 <= j < i ==> #[trigger] out@[j] == unsigned_of(Some(json_of(items@[j]))),
                decreases items@.len() - i,
            {
                out.push(json_unsigned(&items[i]));
                i = i + 1;
            }
            assert(out@ =~= unsigned_elements(json_all(items@)));
            Some(out)
        },
    }
}

/// A member reads as what it is and as nothing else, and only an object has members.
pub proof fn law_members_read_as_what_they_are(
    m: Map<Seq<char>, Json>,
    key: Seq<char>,
    other: Json,
)
    ensures
        ({
            let got = member(Json::Object(m), key);
            &&& got is Some <==> m.dom().contains(key)
            &&& got is Some ==> {
                &&& got->Some_0 == m[key]
                &&& text_of(got) is Some <==> m[key] is Text
                &&& m[key] matches Json::Text(s) ==> text_of(got) == Some(s)
                &&& bool_of(got) is Some <==> m[key] is Bool
                &&& m[key] matches Json::Bool(b) ==> bool_of(got) == Some(b)
                &&& array_of(got) is Some <==> m[key] is Array
                &&& m[key] matches Json::Array(a) ==> array_of(got) == Some(a)
                &&& double_of(got) is Some <==> m[key] is Number
                &&& m[key] matches Json::Number { unsigned, double } ==> double_of(got) == Some(
                    double,
                ) && unsigned_of(got) == unsigned
                &&& unsigned_of(got) is Some ==> m[key] is Number
            }
            &&& got is None ==> text_of(got) is None && bool_of(got) is None && array_of(got) is None
                && unsigned_of(got) is None && double_of(got) is None
            &&& !(other is Object) ==> member(other, key) is None
        }),
{
}

} // verus!
