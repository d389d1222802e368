use vstd::prelude::*;

use crate::catalog::{rows_map, rows_view, CatalogState};
use crate::json::{json_member, json_string_member, json_well_formed};
use crate::text::name_lt;

verus! {

/// One row per registered view: its name and its base table, in name order.
pub struct ListBindData {
    pub rows: Vec<(String, String)>,
}

/// The base table that a definition's text names: its `base_table` member when
/// that is a string, and empty when the text is not JSON or has no such string.
pub open spec fn base_table_text(json: Seq<char>) -> Seq<char> {
    if json_well_formed(json) {
        match json_string_member(json, "base_table"@) {
            Some(s) => s,
            None => Seq::empty(),
        }
    } else {
        Seq::empty()
    }
}

/// The base table named in a definition's JSON text; empty when the text is not
/// JSON or names none.
pub fn base_table_of(json: &str) -> (r: String)
    ensures
        r@ == base_table_text(json@),
{
    match json_member(json, "base_table") {
        Ok((Some(s), _)) => s,
        _ => String::new(),
    }
}

/// Snapshot the catalog as `(name, base_table)` rows sorted by name.
pub fn list_semantic_views(state: &CatalogState) -> (r: ListBindData)
    requires
        state.wf(),
    ensures
        forall|k: Seq<char>|
            state@.contains_key(k) <==> exists|i: int| 0 <= i < r.rows.len() && #[trigger] r.rows@[i].0@ == k,
        forall|i: int, j: int|
            0 <= i < j < r.rows.len() ==> name_lt(#[trigger] r.rows@[i].0@, #[trigger] r.rows@[j].0@),
        forall|i: int|
            0 <= i < r.rows.len() ==> (#[trigger] r.rows@[i]).1@ == base_table_text(state@[r.rows@[i].0@]),
{
    let entries = state.entries();
    let ghost ev = rows_view(entries@);
    let mut rows: Vec<(String, String)> = Vec::new();
    let mut i: usize = 0;
    while i < entries.len()
        invariant
            0 <= i <= entries.len(),
            ev == rows_view(entries@),
            rows_map(ev) == state@,
            crate::catalog::keys_sorted(ev),
            rows.len() == i,
            forall|t: int| 0 <= t < i ==> (#[trigger] rows@[t]).0@ == ev[t].0,
            forall|t: int| 0 <= t < i ==> (#[trigger] rows@[t]).1@ == base_table_text(ev[t].1),
        decreases entries.len() - i,
    {
        let base = base_table_of(entries[i].1.as_str());
        let name = crate::text::owned(entries[i].0.as_str());
        let ghost before = rows@;
        rows.push((name, base));
        assert(forall|t: int| 0 <= t < i ==> rows@[t] == before[t]);
        i = i + 1;
    }
    proof {
        assert forall|t: int| 0 <= t < rows.len() implies state@[#[trigger] rows@[t].0@] == ev[t].1 by {
            crate::catalog::lemma_rows_map_value_pub(ev, t);
        }
        assert forall|k: Seq<char>|
            state@.contains_key(k) <==> exists|i: int| 0 <= i < rows.len() && #[trigger] rows@[i].0@ == k by {
            crate::catalog::lemma_rows_map_dom_pub(ev, k);
            if state@.contains_key(k) {
                let i = choose|i: int| 0 <= i < ev.len() && ev[i].0 == k;
                assert(rows@[i].0@ == k);
            }
            if exists|i: int| 0 <= i < rows.len() && #[trigger] rows@[i].0@ == k {
                let i = choose|i: int| 0 <= i < rows.len() && #[trigger] rows@[i].0@ == k;
                assert(ev[i].0 == k);
            }
        }
    }
    assert(forall|k: Seq<char>|
        state@.contains_key(k) <==> exists|i: int| 0 <= i < rows.len() && #[trigger] rows@[i].0@ == k);
    let r = ListBindData { rows };
    assert(r.rows@ == rows@);
    r
}

} // verus!
