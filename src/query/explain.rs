use vstd::prelude::*;
use vstd::string::StringExecFns;

use crate::catalog::CatalogState;
use crate::expand::{
    append_joined, copy_strings, expand, expansion, join_all, suggest_closest, suggestion,
    QueryRequest, RequestView,
};
use crate::model::{strings_view, SemanticViewDefinition};
use crate::query::error::QueryError;
use crate::text::{chars_of, name_lt, owned, push_char};

verus! {

/// The lines of EXPLAIN output: a header, the expanded SQL, and the engine's plan.
pub struct ExplainBindData {
    pub lines: Vec<String>,
}

/// Find the definition text of the view a query names. Fails with `EmptyRequest`
/// when neither dimensions nor metrics are given, and with `ViewNotFound`,
/// listing the registered names in order and the closest one, when the view is
/// not registered.
pub fn explain_lookup(
    state: &CatalogState,
    view_name: &str,
    dimensions: &Vec<String>,
    metrics: &Vec<String>,
) -> (r: Result<String, QueryError>)
    requires
        state.wf(),
    ensures
        dimensions.len() == 0 && metrics.len() == 0 ==> (r matches Err(
            QueryError::EmptyRequest { view_name: v },
        ) && v@ == view_name@),
        dimensions.len() > 0 || metrics.len() > 0 ==> match r {
            Ok(j) => state@.contains_key(view_name@) && j@ == state@[view_name@],
            Err(QueryError::ViewNotFound { name, suggestion: s, available }) => {
                &&& !state@.contains_key(view_name@)
                &&& name@ == view_name@
                &&& forall|k: Seq<char>|
                    state@.contains_key(k) <==> exists|i: int|
                        0 <= i < available.len() && #[trigger] available@[i]@ == k
                &&& forall|i: int, j: int|
                    0 <= i < j < available.len() ==> name_lt(
                        #[trigger] available@[i]@,
                        #[trigger] available@[j]@,
                    )
                &&& crate::model::opt_view(s) == suggestion(view_name@, strings_view(available@))
            },
            Err(_) => false,
        },
{
    if dimensions.len() == 0 && metrics.len() == 0 {
        return Err(QueryError::EmptyRequest { view_name: owned(view_name) });
    }
    match state.get(view_name) {
        Some(j) => Ok(j),
        None => {
            let available = state.names();
            let suggestion = suggest_closest(view_name, &available);
            Err(QueryError::ViewNotFound { name: owned(view_name), suggestion, available })
        },
    }
}

/// Expand a parsed definition for a query, wrapping an expansion error.
pub fn explain_expand(
    view_name: &str,
    def: &SemanticViewDefinition,
    dimensions: &Vec<String>,
    metrics: &Vec<String>,
) -> (r: Result<String, QueryError>)
    ensures
        match r {
            Ok(s) => expansion(
                view_name@,
                def@,
                RequestView { dimensions: strings_view(dimensions@), metrics: strings_view(metrics@) },
            ) == Ok::<Seq<char>, crate::expand::ExpandErrorView>(s@),
            Err(QueryError::ExpandFailed { source }) => expansion(
                view_name@,
                def@,
                RequestView { dimensions: strings_view(dimensions@), metrics: strings_view(metrics@) },
            ) == Err::<Seq<char>, crate::expand::ExpandErrorView>(source@),
            Err(_) => false,
        },
{
    let req = QueryRequest { dimensions: copy_strings(dimensions), metrics: copy_strings(metrics) };
    match expand(view_name, def, &req) {
        Ok(s) => Ok(s),
        Err(e) => Err(QueryError::from(e)),
    }
}

/// `line` without one trailing carriage return.
pub open spec fn strip_cr(line: Seq<char>) -> Seq<char> {
    if line.len() > 0 && line.last() == '\r' {
        line.drop_last()
    } else {
        line
    }
}

/// The finished lines of `s` and the unfinished last line.
pub open spec fn lines_state(s: Seq<char>) -> (Seq<Seq<char>>, Seq<char>)
    decreases s.len(),
{
    if s.len() == 0 {
        (Seq::empty(), Seq::empty())
    } else {
        let prev = lines_state(s.drop_last());
        if s.last() == '\n' {
            (prev.0.push(strip_cr(prev.1)), Seq::empty())
        } else {
            (prev.0, prev.1.push(s.last()))
        }
    }
}

/// The lines of `s`: split at each newline, a carriage return before the newline
/// dropped, and no empty line after a final newline.
pub open spec fn text_lines_spec(s: Seq<char>) -> Seq<Seq<char>> {
    let st = lines_state(s);
    if st.1.len() == 0 {
        st.0
    } else {
        st.0.push(st.1)
    }
}

/// The first `n` characters of `cs`, as a string.
fn string_of(cs: &Vec<char>, n: usize) -> (r: String)
    requires
        n <= cs.len(),
    ensures
        r@ == cs@.take(n as int),
{
    let mut r = String::new();
    let mut i: usize = 0;
    while i < n
        invariant
            0 <= i <= n,
            n <= cs.len(),
            r@ == cs@.take(i as int),
        decreases n - i,
    {
        push_char(&mut r, cs[i]);
        i = i + 1;
        assert(r@ =~= cs@.take(i as int));
    }
    r
}

/// Split `s` into lines.
pub fn text_lines(s: &str) -> (r: Vec<String>)
    ensures
        strings_view(r@) == text_lines_spec(s@),
{
    let cs = chars_of(s);
    let mut done: Vec<String> = Vec::new();
    let mut cur: Vec<char> = Vec::new();
    let mut i: usize = 0;
    while i < cs.len()
        invariant
            0 <= i <= cs.len(),
            cs@ == s@,
            strings_view(done@) == lines_state(cs@.take(i as int)).0,
            cur@ == lines_state(cs@.take(i as int)).1,
        decreases cs.len() - i,
    {
        assert(cs@.take(i + 1).drop_last() =~= cs@.take(i as int));
        if cs[i] == '\n' {
            let n = if cur.len() > 0 && cur[cur.len() - 1] == '\r' {
                cur.len() - 1
            } else {
                cur.len()
            };
            let line = string_of(&cur, n);
            assert(line@ =~= strip_cr(cur@));
            done.push(line);
            cur = Vec::new();
        } else {
            cur.push(cs[i]);
        }
        i = i + 1;
        assert(strings_view(done@) =~= lines_state(cs@.take(i as int)).0);
        assert(cur@ =~= lines_state(cs@.take(i as int)).1);
    }
    assert(cs@.take(i as int) =~= s@);
    if cur.len() > 0 {
        let n = cur.len();
        let line = string_of(&cur, n);
        assert(line@ =~= cur@);
        done.push(line);
        assert(strings_view(done@) =~= text_lines_spec(s@));
    }
    done
}

/// The output lines of EXPLAIN for a query.
pub open spec fn explain_lines_spec(
    view_name: Seq<char>,
    dimensions: Seq<Seq<char>>,
    metrics: Seq<Seq<char>>,
    sql: Seq<char>,
    plan: Seq<Seq<char>>,
) -> Seq<Seq<char>> {
    seq![
        "-- Semantic View: "@ + view_name,
        "-- Dimensions: "@ + join_all(dimensions, ", "@),
        "-- Metrics: "@ + join_all(metrics, ", "@),
        Seq::empty(),
        "-- Expanded SQL:"@,
    ] + text_lines_spec(sql) + seq![Seq::empty(), "-- DuckDB Plan:"@] + plan
}

fn prefixed(prefix: &str, rest: &str) -> (r: String)
    ensures
        r@ == prefix@ + rest@,
{
    let mut out = owned(prefix);
    out.append(rest);
    out
}

/// Build the EXPLAIN output: a header naming the view, dimensions and metrics,
/// then the expanded SQL line by line, then the plan lines.
pub fn explain_output(
    view_name: &str,
    dimensions: &Vec<String>,
    metrics: &Vec<String>,
    expanded_sql: &str,
    plan_lines: Vec<String>,
) -> (r: ExplainBindData)
    ensures
        strings_view(r.lines@) == explain_lines_spec(
            view_name@,
            strings_view(dimensions@),
            strings_view(metrics@),
            expanded_sql@,
            strings_view(plan_lines@),
        ),
{
    let mut lines: Vec<String> = Vec::new();
    lines.push(prefixed("-- Semantic View: ", view_name));
    let mut d = owned("-- Dimensions: ");
    append_joined(&mut d, dimensions, ", ");
    lines.push(d);
    let mut m = owned("-- Metrics: ");
    append_joined(&mut m, metrics, ", ");
    lines.push(m);
    lines.push(String::new());
    lines.push(owned("-- Expanded SQL:"));
    let mut sql_lines = text_lines(expanded_sql);
    lines.append(&mut sql_lines);
    lines.push(String::new());
    lines.push(owned("-- DuckDB Plan:"));
    let mut plan = plan_lines;
    lines.append(&mut plan);
    assert(strings_view(lines@) =~= explain_lines_spec(
        view_name@,
        strings_view(dimensions@),
        strings_view(metrics@),
        expanded_sql@,
        strings_view(plan_lines@),
    ));
    ExplainBindData { lines }
}

/// The plan line shown when the engine cannot explain the SQL.
pub fn plan_unavailable(error: &str) -> (r: String)
    ensures
        r@ == "-- (not available -- "@ + error@ + ")"@,
{
    let mut out = owned("-- (not available -- ");
    out.append(error);
    out.append(")");
    out
}

} // verus!
