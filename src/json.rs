use vstd::prelude::*;

use crate::catalog::{keys_sorted, rows_map, rows_view};
use crate::model::opt_view;

verus! {

#[verifier::external_type_specification]
#[verifier::external_body]
pub struct ExJsonError(serde_json::Error);

/// The JSON text that a string-to-string map serializes to, keys in order.
pub uninterp spec fn map_json(m: Map<Seq<char>, Seq<char>>) -> Seq<char>;

/// The string-to-string map that a JSON text holds, if it holds one.
pub uninterp spec fn json_string_map(text: Seq<char>) -> Option<Map<Seq<char>, Seq<char>>>;

/// Whether a text is well-formed JSON.
pub uninterp spec fn json_well_formed(text: Seq<char>) -> bool;

/// The string held by member `key` of the JSON value that `text` holds, if that
/// member exists and is a string.
pub uninterp spec fn json_string_member(text: Seq<char>, key: Seq<char>) -> Option<Seq<char>>;

/// The compact JSON text of member `key` of the JSON value that `text` holds
/// (`null` when there is no such member).
pub uninterp spec fn json_member_text(text: Seq<char>, key: Seq<char>) -> Seq<char>;

/// Relies on `serde_json::to_string` on a `BTreeMap<&str, &str>` of the rows
/// (their names are distinct): the JSON object of the map, keys in order. It
/// cannot fail, since the map's keys are strings and `&str` serializes without
/// error; `serde_json::from_str` reads the text back into the same map.
#[verifier::external_body]
pub(crate) fn encode_string_map(rows: &Vec<(String, String)>) -> (r: Result<String, serde_json::Error>)
    requires
        keys_sorted(rows_view(rows@)),
    ensures
        r is Ok,
        r matches Ok(s) ==> s@ == map_json(rows_map(rows_view(rows@))),
        r matches Ok(s) ==> json_string_map(s@) == Some(rows_map(rows_view(rows@))),
{
    let m: std::collections::BTreeMap<&str, &str> =
        rows.iter().map(|e| (e.0.as_str(), e.1.as_str())).collect();
    serde_json::to_string(&m)
}

/// Relies on `serde_json::from_str` into a `BTreeMap<String, String>`: the
/// object's entries, once each, or `None` when the text holds no such object.
#[verifier::external_body]
pub(crate) fn decode_string_map(text: &str) -> (r: Option<Vec<(String, String)>>)
    ensures
        match r {
            Some(rows) => json_string_map(text@) == Some(rows_map(rows_view(rows@))),
            None => json_string_map(text@) is None,
        },
{
    let m: std::collections::BTreeMap<String, String> = serde_json::from_str(text).ok()?;
    Some(m.into_iter().collect())
}

/// Relies on `serde_json::from_str` into a `serde_json::Value`, which succeeds
/// exactly on well-formed JSON, then on the value's `Index<&str>` (the member
/// named `key`, or `Null`), `Value::as_str` and `serde_json::to_string`, which
/// cannot fail on a `Value` (its map keys are strings): the member's string, if
/// it is one, and its compact JSON text.
#[verifier::external_body]
pub(crate) fn json_member(text: &str, key: &str) -> (r: Result<(Option<String>, String), serde_json::Error>)
    ensures
        r is Ok <==> json_well_formed(text@),
        r matches Ok(p) ==> opt_view(p.0) == json_string_member(text@, key@) && p.1@
            == json_member_text(text@, key@),
{
    let v: serde_json::Value = serde_json::from_str(text)?;
    let m = &v[key];
    Ok((m.as_str().map(|s| s.to_string()), serde_json::to_string(m)?))
}

/// Relies on `serde_json::Error`'s `Display`: the error's message.
#[verifier::external_body]
pub(crate) fn error_text(e: &serde_json::Error) -> String {
    e.to_string()
}

} // verus!
