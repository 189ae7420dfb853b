//! JSON values as `serde_json` reads them.
//!
//! A value is opaque here. What can be asked of it has a name each, and the
//! rest of the crate reads JSON through those names alone.

use vstd::prelude::*;

verus! {

#[verifier::external_type_specification]
#[verifier::external_body]
pub struct ExValue(serde_json::Value);

/// What `serde_json::from_str` reads from a text: its value, or what is wrong
/// with it.
pub uninterp spec fn json_value(text: Seq<char>) -> Result<serde_json::Value, Seq<char>>;

/// The value that indexing with a key gives: the member of that name, or null.
pub uninterp spec fn json_member(v: serde_json::Value, key: Seq<char>) -> serde_json::Value;

/// The value that indexing with a number gives: the item at that place, or null.
pub uninterp spec fn json_item(v: serde_json::Value, i: nat) -> serde_json::Value;

/// The text of a value that is a string.
pub uninterp spec fn json_str(v: serde_json::Value) -> Option<Seq<char>>;

/// The number of a value that is a whole number from 0 to 2^64 - 1.
pub uninterp spec fn json_u64(v: serde_json::Value) -> Option<u64>;

/// How many items a value has, if it is an array.
pub uninterp spec fn json_len(v: serde_json::Value) -> Option<usize>;

/// Whether a value is an object.
pub uninterp spec fn json_is_object(v: serde_json::Value) -> bool;

/// The JSON text of a string, with its quotes and escapes.
pub uninterp spec fn json_quoted(text: Seq<char>) -> Seq<char>;

/// `serde_json::from_str::<Value>`: the value of a JSON text, or the `Display`
/// of the error where the text is not JSON. The same text gives the same
/// answer every time.
#[verifier::external_body]
pub(crate) fn parse_json(text: &str) -> (r: Result<serde_json::Value, String>)
    ensures
        match r {
            Ok(v) => json_value(text@) == Ok::<serde_json::Value, Seq<char>>(v),
            Err(e) => json_value(text@) == Err::<serde_json::Value, Seq<char>>(e@),
        },
{
    serde_json::from_str(text).map_err(|e| e.to_string())
}

/// The `Display` of a `Value` that is a string: its JSON text. The same string
/// gives the same text every time.
#[verifier::external_body]
pub(crate) fn quote(text: &str) -> (r: String)
    ensures
        r@ == json_quoted(text@),
{
    serde_json::Value::from(text).to_string()
}

/// `Value`'s `[]` with a string: never panics, null where there is no such
/// member or the value is no object.
#[verifier::external_body]
pub(crate) fn member<'a>(v: &'a serde_json::Value, key: &str) -> (r: &'a serde_json::Value)
    ensures
        *r == json_member(*v, key@),
{
    &v[key]
}

/// `Value`'s `[]` with a number: never panics, null where there is no such
/// item or the value is no array.
#[verifier::external_body]
pub(crate) fn item<'a>(v: &'a serde_json::Value, i: usize) -> (r: &'a serde_json::Value)
    ensures
        *r == json_item(*v, i as nat),
{
    &v[i]
}

/// `Value::as_str`: the text of a string value, `None` of any other.
pub assume_specification[ serde_json::Value::as_str ](v: &serde_json::Value) -> (r: Option<&str>)
    ensures
        match r {
            Some(s) => json_str(*v) == Some(s@),
            None => json_str(*v) is None,
        },
;

/// `Value::as_u64`: the number of a value that fits in 64 bits unsigned,
/// `None` of any other.
pub assume_specification[ serde_json::Value::as_u64 ](v: &serde_json::Value) -> (r: Option<u64>)
    ensures
        r == json_u64(*v),
;

/// `Value::is_object`: whether the value is a JSON object.
pub assume_specification[ serde_json::Value::is_object ](v: &serde_json::Value) -> (r: bool)
    ensures
        r == json_is_object(*v),
;

/// `Value::as_array` and the length of what it gives: how many items an array
/// has, `None` of any other value.
#[verifier::external_body]
pub(crate) fn array_len(v: &serde_json::Value) -> (r: Option<usize>)
    ensures
        r == json_len(*v),
{
    v.as_array().map(|a| a.len())
}

/// The text of the member `key` of `v`, if that is a string.
pub open spec fn str_member(v: serde_json::Value, key: Seq<char>) -> Option<Seq<char>> {
    json_str(json_member(v, key))
}

/// The number of the member `key` of `v`, if that is one.
pub open spec fn u64_member(v: serde_json::Value, key: Seq<char>) -> Option<u64> {
    json_u64(json_member(v, key))
}

pub(crate) fn string_at(v: &serde_json::Value, key: &str) -> (r: Option<String>)
    ensures
        crate::text::opt_text(r) == str_member(*v, key@),
{
    match member(v, key).as_str() {
        Some(s) => Some(s.to_owned()),
        None => None,
    }
}

pub(crate) fn number_at(v: &serde_json::Value, key: &str) -> (r: Option<u64>)
    ensures
        r == u64_member(*v, key@),
{
    member(v, key).as_u64()
}

} // verus!
