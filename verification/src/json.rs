//! JSON documents, as `serde_json` reads and writes them.

use vstd::prelude::*;

verus! {

/// Declares `serde_json::Value`, a JSON document or a part of one.
#[verifier::external_type_specification]
#[verifier::external_body]
pub struct ExValue(serde_json::Value);

/// Declares `serde_json::Error`, which tells why a text is not valid JSON.
#[verifier::external_type_specification]
#[verifier::external_body]
pub struct ExError(serde_json::Error);

/// What `serde_json::from_str` reads from a text: a document, or none where the
/// text is not valid JSON.
pub uninterp spec fn json_document(text: Seq<char>) -> Option<serde_json::Value>;

/// The members of an object by their keys; none where the value is no object.
pub uninterp spec fn json_members(value: serde_json::Value) -> Map<Seq<char>, serde_json::Value>;

/// The elements of an array; none where the value is no array.
pub uninterp spec fn json_elements(value: serde_json::Value) -> Seq<serde_json::Value>;

/// The integer that the value is, where it is one that fits in 64 unsigned bits.
pub uninterp spec fn json_unsigned(value: serde_json::Value) -> Option<u64>;

/// Calls `serde_json::from_str` for a `serde_json::Value`. Whether it succeeds,
/// and with what, depends on the text alone. Nothing is said of the error.
#[verifier::external_body]
pub(crate) fn parse_json(text: &str) -> (document: Result<serde_json::Value, serde_json::Error>)
    ensures
        match document {
            Ok(document) => json_document(text@) == Some(document),
            Err(_) => json_document(text@) is None,
        },
{
    serde_json::from_str(text)
}

/// Calls `serde_json::Value::get` with a key: the member of that name, where the
/// value is an object that has one.
#[verifier::external_body]
pub(crate) fn member<'a>(value: &'a serde_json::Value, key: &str) -> (found: Option<&'a serde_json::Value>)
    ensures
        match found {
            Some(found) => json_members(*value).contains_pair(key@, *found),
            None => !json_members(*value).contains_key(key@),
        },
{
    value.get(key)
}

/// Calls `serde_json::Value::get` with an index: the element at that place, where
/// the value is an array that reaches so far.
#[verifier::external_body]
pub(crate) fn element(value: &serde_json::Value, index: usize) -> (found: Option<&serde_json::Value>)
    ensures
        match found {
            Some(found) => index < json_elements(*value).len() && json_elements(
                *value,
            )[index as int] == *found,
            None => index >= json_elements(*value).len(),
        },
{
    value.get(index)
}

/// Calls `serde_json::Value::as_u64`: the integer that the value is, where it is
/// one that fits.
#[verifier::external_body]
pub(crate) fn unsigned(value: &serde_json::Value) -> (number: Option<u64>)
    ensures
        number == json_unsigned(*value),
{
    value.as_u64()
}

/// The truth value `flag` as a JSON value.
pub uninterp spec fn json_flag(flag: bool) -> serde_json::Value;

/// The text `text` as a JSON value.
pub uninterp spec fn json_string(text: Seq<char>) -> serde_json::Value;

/// The integer `number` as a JSON value.
pub uninterp spec fn json_number(number: u64) -> serde_json::Value;

/// The object with these members, as a JSON value.
pub uninterp spec fn json_object(
    members: Seq<(Seq<char>, serde_json::Value)>,
) -> serde_json::Value;

/// The text of a JSON value, without any blanks between its parts.
pub uninterp spec fn json_text(value: serde_json::Value) -> Seq<char>;

/// Calls `serde_json::Value::from` with a truth value. The result depends on it alone.
#[verifier::external_body]
pub(crate) fn flag_value(flag: bool) -> (value: serde_json::Value)
    ensures
        value == json_flag(flag),
{
    serde_json::Value::from(flag)
}

/// Calls `serde_json::Value::from` with a text. The result depends on it alone.
#[verifier::external_body]
pub(crate) fn string_value(text: &str) -> (value: serde_json::Value)
    ensures
        value == json_string(text@),
{
    serde_json::Value::from(text)
}

/// Calls `serde_json::Value::from` with an integer. The result depends on it
/// alone, and is one that is read back as that integer.
#[verifier::external_body]
pub(crate) fn number_value(number: u64) -> (value: serde_json::Value)
    ensures
        value == json_number(number),
        json_unsigned(value) == Some(number),
{
    serde_json::Value::from(number)
}

/// Calls `serde_json::Value::from_iter` with keys and values. The result depends
/// on them alone.
#[verifier::external_body]
pub(crate) fn object_value(members: Vec<(String, serde_json::Value)>) -> (value: serde_json::Value)
    ensures
        value == json_object(
            members@.map_values(|member: (String, serde_json::Value)| (member.0@, member.1)),
        ),
{
    serde_json::Value::from_iter(members)
}

/// Calls `serde_json::Value::to_string`. The text depends on the value alone.
#[verifier::external_body]
pub(crate) fn value_text(value: &serde_json::Value) -> (text: String)
    ensures
        text@ == json_text(*value),
{
    value.to_string()
}

} // verus!
