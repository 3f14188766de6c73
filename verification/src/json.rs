//! Reading JSON: the few questions that are asked of a JSON text.

use serde_json::Value;
use vstd::prelude::*;

verus! {

/// A JSON value.
#[verifier::external_type_specification]
#[verifier::external_body]
pub struct ExValue(Value);

/// The value that a JSON text spells, if it is one.
pub uninterp spec fn json_value(text: Seq<char>) -> Option<Value>;

/// The member of a JSON value under a key, if it has one.
pub uninterp spec fn json_member(value: Value, key: Seq<char>) -> Option<Value>;

/// The text that a JSON value is, if it is one.
pub uninterp spec fn json_text(value: Value) -> Option<Seq<char>>;

/// The unsigned number that a JSON value is, if it is one.
pub uninterp spec fn json_number(value: Value) -> Option<u64>;

/// The items of the array that a JSON value is, if it is one.
pub uninterp spec fn json_items(value: Value) -> Option<Seq<Value>>;

/// The truth value that a JSON value is, if it is one.
pub uninterp spec fn json_flag(value: Value) -> Option<bool>;

/// Calls `serde_json::from_str`. What it gives for a text is a function of the text; an error is
/// told apart from a value, and nothing is kept of it.
#[verifier::external_body]
pub(crate) fn parse_json(text: &str) -> (r: Option<Value>)
    ensures
        r == json_value(text@),
{
    serde_json::from_str::<Value>(text).ok()
}

/// Calls `Value::get` with a key. The member is a function of the value and the key.
#[verifier::external_body]
fn get<'a>(value: &'a Value, key: &str) -> (r: Option<&'a Value>)
    ensures
        r is Some <==> json_member(*value, key@) is Some,
        r matches Some(member) ==> json_member(*value, key@) == Some(*member),
{
    value.get(key)
}

/// Calls `Value::as_str`. The text is a function of the value.
#[verifier::external_body]
fn as_str(value: &Value) -> (r: Option<&str>)
    ensures
        r is Some <==> json_text(*value) is Some,
        r matches Some(text) ==> json_text(*value) == Some(text@),
{
    value.as_str()
}

/// Calls `Value::as_u64`. The number is a function of the value.
#[verifier::external_body]
fn as_u64(value: &Value) -> (r: Option<u64>)
    ensures
        r == json_number(*value),
{
    value.as_u64()
}

/// Calls `Value::as_array`. The items are a function of the value.
#[verifier::external_body]
fn as_array(value: &Value) -> (r: Option<&Vec<Value>>)
    ensures
        r is Some <==> json_items(*value) is Some,
        r matches Some(items) ==> json_items(*value) == Some(items@),
{
    value.as_array()
}

/// Calls `Value::as_bool`. The truth value is a function of the value.
#[verifier::external_body]
fn as_bool(value: &Value) -> (r: Option<bool>)
    ensures
        r == json_flag(*value),
{
    value.as_bool()
}

/// The text of a JSON value's member, if it has one that is a text.
pub open spec fn member_text(value: Value, key: Seq<char>) -> Option<Seq<char>> {
    match json_member(value, key) {
        Some(member) => json_text(member),
        None => None,
    }
}

/// The number of a JSON value's member, if it has one that is an unsigned number.
pub open spec fn member_number(value: Value, key: Seq<char>) -> Option<u64> {
    match json_member(value, key) {
        Some(member) => json_number(member),
        None => None,
    }
}

/// The items of a JSON value's member, if it has one that is an array.
pub open spec fn member_items(value: Value, key: Seq<char>) -> Option<Seq<Value>> {
    match json_member(value, key) {
        Some(member) => json_items(member),
        None => None,
    }
}

/// The truth value of a JSON value's member, if it has one that is a truth value.
pub open spec fn member_flag(value: Value, key: Seq<char>) -> Option<bool> {
    match json_member(value, key) {
        Some(member) => json_flag(member),
        None => None,
    }
}

/// The items of an array.
pub fn items_of(value: &Value) -> (r: Option<&Vec<Value>>)
    ensures
        r is Some <==> json_items(*value) is Some,
        r matches Some(items) ==> json_items(*value) == Some(items@),
{
    as_array(value)
}

/// The truth value under a key.
pub fn flag_at(value: &Value, key: &str) -> (r: Option<bool>)
    ensures
        r == member_flag(*value, key@),
{
    match get(value, key) {
        Some(member) => as_bool(member),
        None => None,
    }
}

/// The value under a key.
pub fn value_at<'a>(value: &'a Value, key: &str) -> (r: Option<&'a Value>)
    ensures
        r is Some <==> json_member(*value, key@) is Some,
        r matches Some(member) ==> json_member(*value, key@) == Some(*member),
{
    get(value, key)
}

/// The items of the array under a key.
pub fn items_at<'a>(value: &'a Value, key: &str) -> (r: Option<&'a Vec<Value>>)
    ensures
        r is Some <==> member_items(*value, key@) is Some,
        r matches Some(items) ==> member_items(*value, key@) == Some(items@),
{
    match get(value, key) {
        Some(member) => as_array(member),
        None => None,
    }
}

/// The text under a key.
pub fn text_at<'a>(value: &'a Value, key: &str) -> (r: Option<&'a str>)
    ensures
        r is Some <==> member_text(*value, key@) is Some,
        r matches Some(text) ==> member_text(*value, key@) == Some(text@),
{
    match get(value, key) {
        Some(member) => as_str(member),
        None => None,
    }
}

/// The unsigned number under a key.
pub fn number_at(value: &Value, key: &str) -> (r: Option<u64>)
    ensures
        r == member_number(*value, key@),
{
    match get(value, key) {
        Some(member) => as_u64(member),
        None => None,
    }
}

/// A member is read by its key alone: of two values with the same member under a key, the same is
/// read, and without the member nothing is.
pub proof fn members_are_read_by_their_key(a: Value, b: Value, key: Seq<char>, other: Seq<char>)
    requires
        json_member(a, key) == json_member(b, other),
    ensures
        member_text(a, key) == member_text(b, other),
        member_number(a, key) == member_number(b, other),
        member_items(a, key) == member_items(b, other),
        member_flag(a, key) == member_flag(b, other),
        json_member(a, key) is None ==> member_text(a, key) is None && member_number(a, key) is None
            && member_items(a, key) is None && member_flag(a, key) is None,
        json_member(a, key) matches Some(member) ==> member_text(a, key) == json_text(member)
            && member_number(a, key) == json_number(member) && member_items(a, key) == json_items(
            member,
        ) && member_flag(a, key) == json_flag(member),
{
}

}
