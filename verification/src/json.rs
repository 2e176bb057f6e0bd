//! The JSON attribute values of blocks, as `serde_json` reads them.
//!
//! A block's attributes are a `serde_json::Value`, which this library carries
//! without looking inside. What `serde_json` reads from a text is named here
//! (`json_from_text`) rather than stated.

use vstd::prelude::*;

verus! {

/// `serde_json::Value`, carried through the library as an opaque value.
#[verifier::external_type_specification]
#[verifier::external_body]
pub struct ExJsonValue(serde_json::Value);

/// What `serde_json::from_str::<serde_json::Value>` gives for a text: the value
/// read from it, or `None` where the text is not one JSON value.
pub uninterp spec fn json_from_text(text: Seq<char>) -> Option<serde_json::Value>;

/// The text of an empty JSON object.
pub open spec fn empty_object_text() -> Seq<char> {
    seq!['{', '}']
}

/// The text of the JSON null value.
pub open spec fn null_text() -> Seq<char> {
    seq!['n', 'u', 'l', 'l']
}

/// The empty JSON object: the value read from `{}`.
pub open spec fn empty_object() -> serde_json::Value {
    json_from_text(empty_object_text())->Some_0
}

/// The JSON null value: the value read from `null`.
pub open spec fn null_value() -> serde_json::Value {
    json_from_text(null_text())->Some_0
}

/// Calls `serde_json::from_str::<serde_json::Value>` on `text`, keeping the
/// value and dropping the error. Claimed: the result is the named result
/// `json_from_text` of the text's characters (a function of the text alone).
#[verifier::external_body]
pub(crate) fn read_json(text: &str) -> (res: Option<serde_json::Value>)
    ensures
        res == json_from_text(text@),
{
    serde_json::from_str(text).ok()
}

/// Builds `serde_json::Value::Object(serde_json::Map::new())`. Claimed: this is
/// the value that `serde_json::from_str` reads from the text `{}`.
#[verifier::external_body]
pub(crate) fn new_empty_object() -> (res: serde_json::Value)
    ensures
        json_from_text(empty_object_text()) == Some(res),
{
    serde_json::Value::Object(serde_json::Map::new())
}

/// Gives `serde_json::Value::Null`. Claimed: this is the value that
/// `serde_json::from_str` reads from the text `null`.
#[verifier::external_body]
pub(crate) fn new_null() -> (res: serde_json::Value)
    ensures
        json_from_text(null_text()) == Some(res),
{
    serde_json::Value::Null
}

} // verus!
