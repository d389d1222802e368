use vstd::prelude::*;

use crate::catalog::{CatalogError, CatalogState};
use crate::ddl::list::base_table_text;
use crate::json::{error_text, json_member, json_member_text, json_well_formed};
use crate::text::{chars_equal, chars_of, owned};

verus! {

/// The parsed fields of one view: its name, its base table, and the JSON text of
/// its dimensions, metrics, filters and joins.
pub struct DescribeBindData {
    pub name: String,
    pub base_table: String,
    pub dimensions: String,
    pub metrics: String,
    pub filters: String,
    pub joins: String,
}

/// A list member's JSON text, with an absent list (`null`) written as `[]`.
pub open spec fn list_text(t: Seq<char>) -> Seq<char> {
    if t == "null"@ {
        "[]"@
    } else {
        t
    }
}

/// The JSON text of member `key` of the definition text `json`, which is well-formed.
fn member_text(json: &str, key: &str) -> (r: String)
    requires
        json_well_formed(json@),
    ensures
        r@ == json_member_text(json@, key@),
{
    match json_member(json, key) {
        Ok((_, t)) => t,
        Err(_) => String::new(),
    }
}

/// The JSON text of list member `key`, `[]` when the member is absent.
fn list_member_text(json: &str, key: &str) -> (r: String)
    requires
        json_well_formed(json@),
    ensures
        r@ == list_text(json_member_text(json@, key@)),
{
    let t = member_text(json, key);
    let null = chars_of("null");
    if chars_equal(&chars_of(t.as_str()), &null) {
        owned("[]")
    } else {
        t
    }
}

/// Describe the view registered under `name`: `NotFound` when there is none,
/// `Invalid` when its stored text is not JSON. Otherwise its base table and the
/// JSON of its dimensions, metrics, filters and joins, an absent list as `[]`.
pub fn describe_semantic_view(state: &CatalogState, name: &str) -> (r: Result<DescribeBindData, CatalogError>)
    requires
        state.wf(),
    ensures
        match r {
            Ok(d) => {
                let j = state@[name@];
                &&& state@.contains_key(name@)
                &&& json_well_formed(j)
                &&& d.name@ == name@
                &&& d.base_table@ == base_table_text(j)
                &&& d.dimensions@ == json_member_text(j, "dimensions"@)
                &&& d.metrics@ == json_member_text(j, "metrics"@)
                &&& d.filters@ == list_text(json_member_text(j, "filters"@))
                &&& d.joins@ == list_text(json_member_text(j, "joins"@))
            },
            Err(CatalogError::NotFound { name: n }) => !state@.contains_key(name@) && n@ == name@,
            Err(CatalogError::Invalid { .. }) => state@.contains_key(name@) && !json_well_formed(
                state@[name@],
            ),
            Err(_) => false,
        },
{
    let json = match state.get(name) {
        Some(j) => j,
        None => {
            return Err(CatalogError::NotFound { name: owned(name) });
        },
    };
    let base_table = match json_member(json.as_str(), "base_table") {
        Ok((Some(s), _)) => s,
        Ok((None, _)) => String::new(),
        Err(e) => {
            return Err(CatalogError::Invalid { message: error_text(&e) });
        },
    };
    Ok(DescribeBindData {
        name: owned(name),
        base_table,
        dimensions: member_text(json.as_str(), "dimensions"),
        metrics: member_text(json.as_str(), "metrics"),
        filters: list_member_text(json.as_str(), "filters"),
        joins: list_member_text(json.as_str(), "joins"),
    })
}

} // verus!
