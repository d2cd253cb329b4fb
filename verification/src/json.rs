//! Trusted boundary to the JSON-parsing collaborator: decoding a byte block
//! into a `TreeValue` is delegated to serde_json.

use vstd::prelude::*;
use crate::tree::swf;
use crate::tree::STree;
use crate::tree::TreeValue;

verus! {

#[verifier::external_type_specification]
#[verifier::external_body]
pub struct ExValue(serde_json::Value);

/// The tree that a byte block decodes to, when it is valid JSON text for a
/// single document: a name for what `serde_json::from_slice` (followed by the
/// variant-for-variant conversion below) returns. The result depends on the
/// bytes alone.
pub uninterp spec fn json_decoded(s: Seq<u8>) -> Option<STree>;

/// Relies on serde_json::Value: converts one parsed JSON value, one variant
/// arm each. Numbers are carried as their decimal text. The tree is
/// well-formed because serde_json's map type holds each key at most once.
#[verifier::external_body]
fn value_to_tree(v: &serde_json::Value) -> (t: TreeValue)
    ensures
        swf(t@),
{
    match v {
        serde_json::Value::Null => TreeValue::Null,
        serde_json::Value::Bool(b) => TreeValue::Bool(*b),
        serde_json::Value::Number(n) => TreeValue::Num(n.to_string().into_bytes()),
        serde_json::Value::String(s) => TreeValue::Str(s.as_bytes().to_vec()),
        serde_json::Value::Array(a) => TreeValue::Arr(a.iter().map(value_to_tree).collect()),
        serde_json::Value::Object(m) => TreeValue::Obj(
            m.iter().map(|(k, w)| (k.as_bytes().to_vec(), value_to_tree(w))).collect(),
        ),
    }
}

/// Relies on serde_json::from_slice::<Value>: parses one JSON document from
/// the block (`None` when the block is not valid JSON, including non-UTF-8
/// bytes); the outcome is a function of the bytes alone, converted to a
/// well-formed `TreeValue` (serde_json's maps hold each key at most once).
#[verifier::external_body]
pub fn decode_json(s: &[u8]) -> (r: Option<TreeValue>)
    ensures
        r matches Some(t) ==> json_decoded(s@) == Some(t@) && swf(t@),
        (r is None) == (json_decoded(s@) is None),
{
    match serde_json::from_slice::<serde_json::Value>(s) {
        Ok(v) => Some(value_to_tree(&v)),
        Err(_) => None,
    }
}

} // verus!
