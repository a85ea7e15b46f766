//! Reading JSON documents.
//!
//! A place in a document is named by a pointer: the keys and the indices on
//! the way to it, a slash before each.
use crate::text;
use vstd::prelude::*;

verus! {

/// The bytes are a JSON document.
pub uninterp spec fn json_valid_of(body: Seq<u8>) -> bool;

/// There is a value at the place.
pub uninterp spec fn json_has_of(body: Seq<u8>, pointer: Seq<char>) -> bool;

/// The string at the place, if there is one.
pub uninterp spec fn json_text_of(body: Seq<u8>, pointer: Seq<char>) -> Option<Seq<char>>;

/// The number of elements of the array at the place, if there is one.
pub uninterp spec fn json_count_of(body: Seq<u8>, pointer: Seq<char>) -> Option<nat>;

/// The integer at the place, if there is one and 64 bits hold it.
pub uninterp spec fn json_integer_of(body: Seq<u8>, pointer: Seq<char>) -> Option<i64>;

/// `serde_json::from_slice`: whether the bytes parse, a function of the bytes.
#[verifier::external_body]
pub(crate) fn json_valid(body: &[u8]) -> (r: bool)
    ensures
        r == json_valid_of(body@),
{
    serde_json::from_slice::<serde_json::Value>(body).is_ok()
}

/// `serde_json::Value::pointer`: whether there is a value at the place.
/// Nothing is anywhere in bytes that do not parse.
#[verifier::external_body]
pub(crate) fn json_has(body: &[u8], pointer: &str) -> (r: bool)
    ensures
        r == json_has_of(body@, pointer@),
        r ==> json_valid_of(body@),
{
    match serde_json::from_slice::<serde_json::Value>(body) {
        Ok(value) => value.pointer(pointer).is_some(),
        Err(_) => false,
    }
}

/// `serde_json::Value::as_str` of the value at the place: a value that is
/// there, where it is some.
#[verifier::external_body]
pub(crate) fn json_text(body: &[u8], pointer: &str) -> (r: Option<String>)
    ensures
        text::opt_text(r) == json_text_of(body@, pointer@),
        r is Some ==> json_has_of(body@, pointer@),
{
    let value: serde_json::Value = serde_json::from_slice(body).ok()?;
    value.pointer(pointer)?.as_str().map(str::to_string)
}

/// `serde_json::Value::as_array` of the value at the place: how many elements
/// it has, where it is one.
#[verifier::external_body]
pub(crate) fn json_count(body: &[u8], pointer: &str) -> (r: Option<usize>)
    ensures
        match r {
            Some(n) => json_count_of(body@, pointer@) == Some(n as nat),
            None => json_count_of(body@, pointer@) is None,
        },
        r is Some ==> json_has_of(body@, pointer@),
{
    let value: serde_json::Value = serde_json::from_slice(body).ok()?;
    value.pointer(pointer)?.as_array().map(Vec::len)
}

/// `serde_json::Value::as_i64` of the value at the place: the integer there,
/// where it is one and 64 bits hold it.
#[verifier::external_body]
pub(crate) fn json_integer(body: &[u8], pointer: &str) -> (r: Option<i64>)
    ensures
        r == json_integer_of(body@, pointer@),
        r is Some ==> json_has_of(body@, pointer@),
{
    let value: serde_json::Value = serde_json::from_slice(body).ok()?;
    value.pointer(pointer)?.as_i64()
}

/// The document can be read.
pub fn is_document(body: &[u8]) -> (r: bool)
    ensures
        r == json_valid_of(body@),
{
    json_valid(body)
}

} // verus!
