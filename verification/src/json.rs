//! JSON documents as `serde_json` holds them.
//!
//! The library never looks inside a JSON value: it carries values from a
//! rule to a body object. An object is seen as the map from its keys to its
//! values; what a document holds and how an object is written out are
//! named as functions of the bytes and of the entries.
use vstd::prelude::*;

verus! {

/// `serde_json::Value`, carried through the library unopened.
#[verifier::external_type_specification]
#[verifier::external_body]
pub struct ExJsonValue(serde_json::Value);

/// `serde_json::Map`, the object type of `serde_json`.
#[verifier::external_type_specification]
#[verifier::external_body]
#[verifier::reject_recursive_types(K)]
#[verifier::reject_recursive_types(V)]
pub struct ExJsonMap<K, V>(serde_json::Map<K, V>);

/// The entries of a JSON object: each key with its value.
pub uninterp spec fn json_object_entries(m: serde_json::Map<String, serde_json::Value>) -> Map<
    Seq<char>,
    serde_json::Value,
>;

/// What `serde_json::from_slice::<Value>` reads from a byte buffer: `None`
/// when the bytes are not one JSON document, `Some(None)` when the document
/// is not an object, and `Some(Some(entries))` for an object with these
/// entries.
pub uninterp spec fn json_document_shape(bytes: Seq<u8>) -> Option<Option<Map<Seq<char>, serde_json::Value>>>;

/// The bytes that `serde_json::to_vec` writes for an object with these
/// entries (its map keeps keys sorted, so the entries alone decide them).
pub uninterp spec fn json_object_text(entries: Map<Seq<char>, serde_json::Value>) -> Seq<u8>;

/// Why a body could not be edited as a JSON object.
#[derive(Debug, Clone, Copy, PartialEq, Eq, Structural)]
pub enum JsonBodyError {
    /// The body is not a JSON document.
    NotJson,
    /// The body is JSON, but not an object.
    NotObject,
}

/// Parses `bytes` with `serde_json::from_slice::<serde_json::Value>` and
/// hands out the object it holds. Claims: the outcome is determined by the
/// bytes alone (`json_document_shape`), and a parsed object has the
/// entries that the shape names.
#[verifier::external_body]
pub(crate) fn json_parse_object(bytes: &[u8]) -> (r: Result<serde_json::Map<String, serde_json::Value>, JsonBodyError>)
    ensures
        match json_document_shape(bytes@) {
            None => r == Err::<serde_json::Map<String, serde_json::Value>, JsonBodyError>(JsonBodyError::NotJson),
            Some(None) => r == Err::<serde_json::Map<String, serde_json::Value>, JsonBodyError>(JsonBodyError::NotObject),
            Some(Some(entries)) => r is Ok && json_object_entries(r->Ok_0) == entries,
        },
{
    match serde_json::from_slice::<serde_json::Value>(bytes) {
        Ok(serde_json::Value::Object(map)) => Ok(map),
        Ok(_) => Err(JsonBodyError::NotObject),
        Err(_) => Err(JsonBodyError::NotJson),
    }
}

/// `serde_json::Map::new()`: an object without entries.
#[verifier::external_body]
pub(crate) fn json_object_new() -> (r: serde_json::Map<String, serde_json::Value>)
    ensures
        json_object_entries(r) =~= Map::empty(),
{
    serde_json::Map::new()
}

/// `serde_json::Map::insert` of a copy of `key` and `value`: afterwards
/// `key` maps to `value` (a clone equals what it was made from) and every
/// other entry is kept.
#[verifier::external_body]
pub(crate) fn json_object_insert(
    map: &mut serde_json::Map<String, serde_json::Value>,
    key: &String,
    value: &serde_json::Value,
)
    ensures
        json_object_entries(*final(map)) == json_object_entries(*old(map)).insert(key@, *value),
{
    map.insert(key.clone(), value.clone());
}

/// `serde_json::to_vec` of an object, an error handed out as its message.
/// Claims: writing an object with string keys into a vector does not fail
/// (the vector takes every write, and string keys and JSON values always
/// serialize), and the bytes are those named by `json_object_text` for the
/// object's entries.
#[verifier::external_body]
pub(crate) fn json_object_to_bytes(map: &serde_json::Map<String, serde_json::Value>) -> (r: Result<Vec<u8>, String>)
    ensures
        r is Ok && r->Ok_0@ == json_object_text(json_object_entries(*map)),
{
    serde_json::to_vec(map).map_err(|e| e.to_string())
}

/// `serde_json::Value::clone`: the copy equals the value copied.
#[verifier::external_body]
pub(crate) fn json_value_copy(value: &serde_json::Value) -> (r: serde_json::Value)
    ensures
        r == *value,
{
    value.clone()
}

} // verus!
