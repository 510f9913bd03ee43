//! JSON documents: `serde_json`, behind a contract.
use vstd::prelude::*;
use serde_json::Value;

verus! {

/// What the library reads of a JSON value.
pub enum JsonTree {
    /// A string.
    Text(Seq<char>),
    /// An array.
    List(Seq<JsonTree>),
    /// An object.
    Fields(Map<Seq<char>, JsonTree>),
    /// Null, a boolean or a number.
    Other,
}

/// The JSON value of `serde_json`, kept opaque.
#[verifier::external_type_specification]
#[verifier::external_body]
pub struct ExValue(serde_json::Value);

/// What a value holds.
pub uninterp spec fn json_tree(value: serde_json::Value) -> JsonTree;

/// What the document in these bytes holds; `None` where they are no JSON document.
pub uninterp spec fn json_document(bytes: Seq<u8>) -> Option<JsonTree>;

/// The member of an object with this key; `None` where there is none, and for
/// any other value.
pub open spec fn member(tree: JsonTree, key: Seq<char>) -> Option<JsonTree> {
    match tree {
        JsonTree::Fields(fields) if fields.dom().contains(key) => Some(fields[key]),
        _ => None,
    }
}

/// The text of a value that is a string.
pub open spec fn text_of(tree: JsonTree) -> Option<Seq<char>> {
    match tree {
        JsonTree::Text(text) => Some(text),
        _ => None,
    }
}

/// The member of an object with this key, where it is a string.
pub open spec fn text_member(tree: JsonTree, key: Seq<char>) -> Option<Seq<char>> {
    match member(tree, key) {
        Some(value) => text_of(value),
        None => None,
    }
}

/// `serde_json::from_slice`: parses a document.
#[verifier::external_body]
pub(crate) fn parse(bytes: &[u8]) -> (r: Option<Value>)
    ensures
        match r {
            Some(value) => json_document(bytes@) == Some(json_tree(value)),
            None => json_document(bytes@) is None,
        },
{
    serde_json::from_slice(bytes).ok()
}

/// `serde_json::Value::get`, with a string for a key.
#[verifier::external_body]
pub(crate) fn get<'a>(value: &'a Value, key: &str) -> (r: Option<&'a Value>)
    ensures
        match r {
            Some(found) => member(json_tree(*value), key@) == Some(json_tree(*found)),
            None => member(json_tree(*value), key@) is None,
        },
{
    value.get(key)
}

/// `serde_json::Value::as_array`.
#[verifier::external_body]
pub(crate) fn as_array(value: &Value) -> (r: Option<&Vec<Value>>)
    ensures
        match r {
            Some(items) => json_tree(*value) == JsonTree::List(
                items@.map_values(|item: Value| json_tree(item)),
            ),
            None => !(json_tree(*value) is List),
        },
{
    value.as_array()
}

/// `serde_json::Value::as_str`, owned.
#[verifier::external_body]
pub(crate) fn as_text(value: &Value) -> (r: Option<String>)
    ensures
        r.deep_view() == text_of(json_tree(*value)),
{
    value.as_str().map(|text| text.to_string())
}

/// Reads a member of an object that is a string.
pub fn get_text(value: &Value, key: &str) -> (r: Option<String>)
    ensures
        r.deep_view() == text_member(json_tree(*value), key@),
{
    match get(value, key) {
        Some(found) => as_text(found),
        None => None,
    }
}

} // verus!
