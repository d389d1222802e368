use vstd::prelude::*;
use vstd::string::StringExecFns;

use crate::joins::{dims_view, join_refs_view, joins_view, mets_view, needed_joins, resolve_joins};
use crate::model::{opt_view, strings_view, DefinitionView, Dimension, FieldView, Join, JoinView, Metric, SemanticViewDefinition};
pub use crate::text::quote_ident;
use crate::text::{
    ascii_lowercase, chars_equal, contains_sub, eq_ignore_case, lower, lower_chars, owned, quoted,
    same_name,
};

verus! {

/// A request to expand a semantic view into SQL: the names of the dimensions
/// and metrics to include. Dimensions may be empty (a global aggregate); at
/// least one metric is required.
#[derive(Debug, Clone)]
pub struct QueryRequest {
    pub dimensions: Vec<String>,
    pub metrics: Vec<String>,
}

/// The content of a request.
pub struct RequestView {
    pub dimensions: Seq<Seq<char>>,
    pub metrics: Seq<Seq<char>>,
}

impl View for QueryRequest {
    type V = RequestView;

    open spec fn view(&self) -> RequestView {
        RequestView { dimensions: strings_view(self.dimensions@), metrics: strings_view(self.metrics@) }
    }
}

/// Errors that can occur during semantic view expansion.
#[derive(Debug)]
pub enum ExpandError {
    /// The request contained no metrics.
    EmptyMetrics { view_name: String },
    /// A requested dimension name does not exist in the view definition.
    UnknownDimension {
        view_name: String,
        name: String,
        available: Vec<String>,
        suggestion: Option<String>,
    },
    /// A requested metric name does not exist in the view definition.
    UnknownMetric {
        view_name: String,
        name: String,
        available: Vec<String>,
        suggestion: Option<String>,
    },
    /// A dimension name was requested more than once.
    DuplicateDimension { view_name: String, name: String },
    /// A metric name was requested more than once.
    DuplicateMetric { view_name: String, name: String },
}

/// The content of an [`ExpandError`].
pub enum ExpandErrorView {
    EmptyMetrics { view_name: Seq<char> },
    UnknownDimension {
        view_name: Seq<char>,
        name: Seq<char>,
        available: Seq<Seq<char>>,
        suggestion: Option<Seq<char>>,
    },
    UnknownMetric {
        view_name: Seq<char>,
        name: Seq<char>,
        available: Seq<Seq<char>>,
        suggestion: Option<Seq<char>>,
    },
    DuplicateDimension { view_name: Seq<char>, name: Seq<char> },
    DuplicateMetric { view_name: Seq<char>, name: Seq<char> },
}

impl View for ExpandError {
    type V = ExpandErrorView;

    open spec fn view(&self) -> ExpandErrorView {
        match self {
            ExpandError::EmptyMetrics { view_name } => ExpandErrorView::EmptyMetrics {
                view_name: view_name@,
            },
            ExpandError::UnknownDimension { view_name, name, available, suggestion } =>
                ExpandErrorView::UnknownDimension {
                view_name: view_name@,
                name: name@,
                available: strings_view(available@),
                suggestion: opt_view(*suggestion),
            },
            ExpandError::UnknownMetric { view_name, name, available, suggestion } =>
                ExpandErrorView::UnknownMetric {
                view_name: view_name@,
                name: name@,
                available: strings_view(available@),
                suggestion: opt_view(*suggestion),
            },
            ExpandError::DuplicateDimension { view_name, name } =>
                ExpandErrorView::DuplicateDimension { view_name: view_name@, name: name@ },
            ExpandError::DuplicateMetric { view_name, name } => ExpandErrorView::DuplicateMetric {
                view_name: view_name@,
                name: name@,
            },
        }
    }
}

// ---------------------------------------------------------------------------
// Name resolution
// ---------------------------------------------------------------------------

pub open spec fn field_names(fields: Seq<FieldView>) -> Seq<Seq<char>> {
    fields.map_values(|f: FieldView| f.name)
}

/// Some declared name is the same name as `name`, ignoring ASCII case.
pub open spec fn has_match(decl: Seq<Seq<char>>, name: Seq<char>) -> bool {
    exists|k: int| 0 <= k < decl.len() && #[trigger] same_name(decl[k], name)
}

/// `k` is the first declared position whose name is the same name as `name`.
pub open spec fn is_first_match(decl: Seq<Seq<char>>, name: Seq<char>, k: int) -> bool {
    &&& 0 <= k < decl.len()
    &&& same_name(decl[k], name)
    &&& forall|j: int| 0 <= j < k ==> !#[trigger] same_name(decl[j], name)
}

pub open spec fn first_match(decl: Seq<Seq<char>>, name: Seq<char>) -> int {
    choose|k: int| is_first_match(decl, name, k)
}

/// The requested name at `i` repeats an earlier requested name, ignoring ASCII case.
pub open spec fn dup_before(names: Seq<Seq<char>>, i: int) -> bool {
    exists|j: int| 0 <= j < i && #[trigger] same_name(names[j], names[i])
}

/// The requested name at `i` is a repeat or names nothing declared.
pub open spec fn fails_at(names: Seq<Seq<char>>, decl: Seq<Seq<char>>, i: int) -> bool {
    dup_before(names, i) || !has_match(decl, names[i])
}

pub open spec fn all_resolve(names: Seq<Seq<char>>, decl: Seq<Seq<char>>) -> bool {
    forall|i: int| 0 <= i < names.len() ==> !#[trigger] fails_at(names, decl, i)
}

pub open spec fn is_first_failure(names: Seq<Seq<char>>, decl: Seq<Seq<char>>, i: int) -> bool {
    &&& 0 <= i < names.len()
    &&& fails_at(names, decl, i)
    &&& forall|j: int| 0 <= j < i ==> !#[trigger] fails_at(names, decl, j)
}

pub open spec fn first_failure(names: Seq<Seq<char>>, decl: Seq<Seq<char>>) -> int {
    choose|i: int| is_first_failure(names, decl, i)
}

/// The declared fields that the requested names select, in request order.
pub open spec fn resolved(fields: Seq<FieldView>, names: Seq<Seq<char>>) -> Seq<FieldView> {
    Seq::new(names.len(), |i: int| fields[first_match(field_names(fields), names[i])])
}

// ---------------------------------------------------------------------------
// Suggestions
// ---------------------------------------------------------------------------

pub open spec fn min3(x: nat, y: nat, z: nat) -> nat {
    if x <= y && x <= z {
        x
    } else if y <= z {
        y
    } else {
        z
    }
}

/// The Levenshtein edit distance between two character sequences: the fewest
/// single-character insertions, deletions and substitutions turning `a` into `b`.
pub open spec fn levenshtein_distance(a: Seq<char>, b: Seq<char>) -> nat
    decreases a.len() + b.len(),
{
    if a.len() == 0 {
        b.len()
    } else if b.len() == 0 {
        a.len()
    } else {
        min3(
            levenshtein_distance(a.drop_last(), b) + 1,
            levenshtein_distance(a, b.drop_last()) + 1,
            levenshtein_distance(a.drop_last(), b.drop_last()) + if a.last() == b.last() {
                0nat
            } else {
                1nat
            },
        )
    }
}

/// Relies on `strsim::levenshtein`: the edit distance between the characters of `a` and `b`.
#[verifier::external_body]
fn levenshtein(a: &str, b: &str) -> (r: usize)
    ensures
        r as nat == levenshtein_distance(a@, b@),
{
    strsim::levenshtein(a, b)
}

/// `k` holds the smallest distance, at most 3, and no earlier position holds it.
pub open spec fn is_best(ds: Seq<int>, k: int) -> bool {
    &&& 0 <= k < ds.len()
    &&& ds[k] <= 3
    &&& forall|j: int| 0 <= j < ds.len() ==> ds[k] <= #[trigger] ds[j]
    &&& forall|j: int| 0 <= j < k ==> ds[k] < #[trigger] ds[j]
}

/// The candidate at the best position, if any distance is at most 3.
pub open spec fn pick_closest(cands: Seq<Seq<char>>, ds: Seq<int>) -> Option<Seq<char>> {
    if exists|k: int| is_best(ds, k) {
        Some(cands[choose|k: int| is_best(ds, k)])
    } else {
        None
    }
}

/// The distances from `query` to each candidate, both lowercased.
pub open spec fn distances(query: Seq<char>, cands: Seq<Seq<char>>) -> Seq<int> {
    cands.map_values(|c: Seq<char>| levenshtein_distance(lower(query), lower(c)) as int)
}

/// The closest candidate to `query`, ignoring ASCII case, within distance 3.
pub open spec fn suggestion(query: Seq<char>, cands: Seq<Seq<char>>) -> Option<Seq<char>> {
    pick_closest(cands, distances(query, cands))
}

pub open spec fn usizes_view(v: Seq<usize>) -> Seq<int> {
    v.map_values(|d: usize| d as int)
}

/// Pick the candidate with the smallest distance if that distance is at most 3;
/// the first such candidate wins a tie.
pub fn closest_within(candidates: &Vec<String>, distances: &Vec<usize>) -> (r: Option<String>)
    requires
        candidates.len() == distances.len(),
    ensures
        opt_view(r) == pick_closest(strings_view(candidates@), usizes_view(distances@)),
{
    let ghost ds = usizes_view(distances@);
    let mut best: Option<(usize, usize)> = None;
    let mut i: usize = 0;
    while i < distances.len()
        invariant
            0 <= i <= distances.len(),
            candidates.len() == distances.len(),
            ds == usizes_view(distances@),
            best is None ==> forall|j: int| 0 <= j < i ==> #[trigger] ds[j] > 3,
            best matches Some(b) ==> {
                &&& b.0 < i
                &&& b.1 as int == ds[b.0 as int]
                &&& b.1 <= 3
                &&& forall|j: int| 0 <= j < i ==> b.1 <= #[trigger] ds[j]
                &&& forall|j: int| 0 <= j < b.0 ==> b.1 < #[trigger] ds[j]
            },
        decreases distances.len() - i,
    {
        let d = distances[i];
        if d <= 3 {
            match best {
                Some(b) => {
                    if d < b.1 {
                        best = Some((i, d));
                    }
                },
                None => {
                    best = Some((i, d));
                },
            }
        }
        i = i + 1;
    }
    match best {
        Some(b) => {
            proof {
                assert(is_best(ds, b.0 as int));
                let k = choose|k: int| is_best(ds, k);
                assert(k == b.0) by {
                    if k < b.0 {
                        assert(ds[k] > ds[b.0 as int]);
                    } else if k > b.0 {
                        assert(ds[b.0 as int] > ds[k]);
                    }
                }
            }
            Some(candidates[b.0].clone())
        },
        None => {
            assert(!exists|k: int| is_best(ds, k));
            None
        },
    }
}

/// Suggest the candidate closest to `name` by Levenshtein distance, ignoring
/// ASCII case, when that distance is 3 or less.
pub fn suggest_closest(name: &str, available: &Vec<String>) -> (r: Option<String>)
    ensures
        opt_view(r) == suggestion(name@, strings_view(available@)),
{
    let query = ascii_lowercase(name);
    let mut ds: Vec<usize> = Vec::new();
    let mut i: usize = 0;
    while i < available.len()
        invariant
            0 <= i <= available.len(),
            query@ == lower(name@),
            ds.len() == i,
            forall|j: int|
                0 <= j < i ==> #[trigger] ds@[j] as int == levenshtein_distance(
                    lower(name@),
                    lower(available@[j]@),
                ),
        decreases available.len() - i,
    {
        let candidate = ascii_lowercase(available[i].as_str());
        ds.push(levenshtein(query.as_str(), candidate.as_str()));
        i = i + 1;
    }
    assert(usizes_view(ds@) =~= distances(name@, strings_view(available@)));
    closest_within(available, &ds)
}


/// Look up a dimension by name, ignoring ASCII case; the first declared match wins.
pub fn find_dimension<'a>(def: &'a SemanticViewDefinition, name: &str) -> (r: Option<&'a Dimension>)
    ensures
        r is None <==> !has_match(field_names(def@.dimensions), name@),
        r matches Some(d) ==> d@ == def@.dimensions[first_match(field_names(def@.dimensions), name@)],
{
    let ghost decl = field_names(def@.dimensions);
    let mut i: usize = 0;
    while i < def.dimensions.len()
        invariant
            0 <= i <= def.dimensions.len(),
            decl == field_names(def@.dimensions),
            forall|j: int| 0 <= j < i ==> !#[trigger] same_name(decl[j], name@),
        decreases def.dimensions.len() - i,
    {
        if eq_ignore_case(def.dimensions[i].name.as_str(), name) {
            proof {
                lemma_first_match_at(decl, name@, i as int);
            }
            return Some(&def.dimensions[i]);
        }
        i = i + 1;
    }
    None
}

/// Look up a metric by name, ignoring ASCII case; the first declared match wins.
pub fn find_metric<'a>(def: &'a SemanticViewDefinition, name: &str) -> (r: Option<&'a Metric>)
    ensures
        r is None <==> !has_match(field_names(def@.metrics), name@),
        r matches Some(m) ==> m@ == def@.metrics[first_match(field_names(def@.metrics), name@)],
{
    let ghost decl = field_names(def@.metrics);
    let mut i: usize = 0;
    while i < def.metrics.len()
        invariant
            0 <= i <= def.metrics.len(),
            decl == field_names(def@.metrics),
            forall|j: int| 0 <= j < i ==> !#[trigger] same_name(decl[j], name@),
        decreases def.metrics.len() - i,
    {
        if eq_ignore_case(def.metrics[i].name.as_str(), name) {
            proof {
                lemma_first_match_at(decl, name@, i as int);
            }
            return Some(&def.metrics[i]);
        }
        i = i + 1;
    }
    None
}

/// A first match is the chosen first match.
proof fn lemma_first_match_at(decl: Seq<Seq<char>>, name: Seq<char>, k: int)
    requires
        is_first_match(decl, name, k),
    ensures
        first_match(decl, name) == k,
        has_match(decl, name),
{
    let c = first_match(decl, name);
    assert(is_first_match(decl, name, c));
    if c < k {
        assert(same_name(decl[c], name));
    } else if c > k {
        assert(same_name(decl[k], name));
    }
}

/// A first failure is the chosen first failure.
proof fn lemma_first_failure_at(names: Seq<Seq<char>>, decl: Seq<Seq<char>>, i: int)
    requires
        is_first_failure(names, decl, i),
    ensures
        first_failure(names, decl) == i,
        !all_resolve(names, decl),
{
    let c = first_failure(names, decl);
    assert(is_first_failure(names, decl, c));
    if c < i {
        assert(fails_at(names, decl, c));
    } else if c > i {
        assert(fails_at(names, decl, i));
    }
}

/// Position of the first declared name that is the same name as `name`.
fn position_of_name(decl: &Vec<String>, name: &str) -> (r: Option<usize>)
    ensures
        r is None <==> !has_match(strings_view(decl@), name@),
        r matches Some(k) ==> k < decl.len() && k as int == first_match(strings_view(decl@), name@),
{
    let ghost dv = strings_view(decl@);
    let mut i: usize = 0;
    while i < decl.len()
        invariant
            0 <= i <= decl.len(),
            dv == strings_view(decl@),
            forall|j: int| 0 <= j < i ==> !#[trigger] same_name(dv[j], name@),
        decreases decl.len() - i,
    {
        if eq_ignore_case(decl[i].as_str(), name) {
            proof {
                lemma_first_match_at(dv, name@, i as int);
            }
            return Some(i);
        }
        i = i + 1;
    }
    None
}

/// The error for the first requested name that fails to resolve.
pub open spec fn resolution_error(
    view_name: Seq<char>,
    names: Seq<Seq<char>>,
    decl: Seq<Seq<char>>,
    metric: bool,
) -> ExpandErrorView {
    let i = first_failure(names, decl);
    let name = names[i];
    if dup_before(names, i) {
        if metric {
            ExpandErrorView::DuplicateMetric { view_name, name }
        } else {
            ExpandErrorView::DuplicateDimension { view_name, name }
        }
    } else {
        let sugg = suggestion(name, decl);
        if metric {
            ExpandErrorView::UnknownMetric { view_name, name, available: decl, suggestion: sugg }
        } else {
            ExpandErrorView::UnknownDimension { view_name, name, available: decl, suggestion: sugg }
        }
    }
}

/// A copy of a vector of strings.
pub fn copy_strings(v: &Vec<String>) -> (r: Vec<String>)
    ensures
        strings_view(r@) == strings_view(v@),
{
    let mut r: Vec<String> = Vec::new();
    let mut i: usize = 0;
    while i < v.len()
        invariant
            0 <= i <= v.len(),
            r.len() == i,
            forall|k: int| 0 <= k < i ==> #[trigger] r@[k]@ == v@[k]@,
        decreases v.len() - i,
    {
        r.push(owned(v[i].as_str()));
        i = i + 1;
    }
    assert(strings_view(r@) =~= strings_view(v@));
    r
}

/// Whether one of the vectors in `seen` equals `x`.
fn seen_before(seen: &Vec<Vec<char>>, x: &Vec<char>) -> (r: bool)
    ensures
        r == exists|j: int| 0 <= j < seen.len() && #[trigger] seen@[j]@ == x@,
{
    let mut j: usize = 0;
    while j < seen.len()
        invariant
            0 <= j <= seen.len(),
            forall|t: int| 0 <= t < j ==> #[trigger] seen@[t]@ != x@,
        decreases seen.len() - j,
    {
        if chars_equal(&seen[j], x) {
            return true;
        }
        j = j + 1;
    }
    false
}

/// Resolve requested names against declared names: the position of the first
/// declared match of each, or the error for the first name that is repeated or
/// unknown.
fn resolve_requested(view_name: &str, requested: &Vec<String>, declared: &Vec<String>, metric: bool) -> (r:
    Result<Vec<usize>, ExpandError>)
    ensures
        match r {
            Ok(idx) => {
                &&& all_resolve(strings_view(requested@), strings_view(declared@))
                &&& idx.len() == requested.len()
                &&& forall|i: int|
                    0 <= i < idx.len() ==> #[trigger] idx@[i] < declared.len() && idx@[i] as int
                        == first_match(strings_view(declared@), strings_view(requested@)[i])
            },
            Err(e) => {
                &&& !all_resolve(strings_view(requested@), strings_view(declared@))
                &&& e@ == resolution_error(
                    view_name@,
                    strings_view(requested@),
                    strings_view(declared@),
                    metric,
                )
            },
        },
{
    let ghost names = strings_view(requested@);
    let ghost decl = strings_view(declared@);
    let mut seen: Vec<Vec<char>> = Vec::new();
    let mut idx: Vec<usize> = Vec::new();
    let mut i: usize = 0;
    while i < requested.len()
        invariant
            0 <= i <= requested.len(),
            names == strings_view(requested@),
            decl == strings_view(declared@),
            seen.len() == i,
            idx.len() == i,
            forall|j: int| 0 <= j < i ==> #[trigger] seen@[j]@ == lower(names[j]),
            forall|j: int| 0 <= j < i ==> !#[trigger] fails_at(names, decl, j),
            forall|j: int|
                0 <= j < i ==> #[trigger] idx@[j] < declared.len() && idx@[j] as int == first_match(
                    decl,
                    names[j],
                ),
        decreases requested.len() - i,
    {
        let low = lower_chars(requested[i].as_str());
        if seen_before(&seen, &low) {
            proof {
                let j = choose|j: int| 0 <= j < seen.len() && #[trigger] seen@[j]@ == low@;
                assert(same_name(names[j], names[i as int]));
                assert(dup_before(names, i as int));
                lemma_first_failure_at(names, decl, i as int);
            }
            let name = requested[i].clone();
            let view_name = owned(view_name);
            if metric {
                return Err(ExpandError::DuplicateMetric { view_name, name });
            } else {
                return Err(ExpandError::DuplicateDimension { view_name, name });
            }
        }
        assert(!dup_before(names, i as int)) by {
            if dup_before(names, i as int) {
                let j = choose|j: int| 0 <= j < i && #[trigger] same_name(names[j], names[i as int]);
                assert(seen@[j]@ == low@);
            }
        }
        match position_of_name(declared, requested[i].as_str()) {
            None => {
                proof {
                    lemma_first_failure_at(names, decl, i as int);
                }
                let available = copy_strings(declared);
                let suggestion = suggest_closest(requested[i].as_str(), declared);
                let name = requested[i].clone();
                let view_name = owned(view_name);
                if metric {
                    return Err(ExpandError::UnknownMetric { view_name, name, available, suggestion });
                } else {
                    return Err(
                        ExpandError::UnknownDimension { view_name, name, available, suggestion },
                    );
                }
            },
            Some(k) => {
                assert(!fails_at(names, decl, i as int));
                seen.push(low);
                idx.push(k);
            },
        }
        i = i + 1;
    }
    Ok(idx)
}


// ---------------------------------------------------------------------------
// SQL text
// ---------------------------------------------------------------------------

/// The first `n` items, separated by `sep`.
pub open spec fn joined(items: Seq<Seq<char>>, sep: Seq<char>, n: nat) -> Seq<char>
    decreases n,
{
    if n == 0 {
        Seq::empty()
    } else if n == 1 {
        items[0]
    } else {
        joined(items, sep, (n - 1) as nat) + sep + items[n - 1]
    }
}

/// All items, separated by `sep`.
pub open spec fn join_all(items: Seq<Seq<char>>, sep: Seq<char>) -> Seq<char> {
    joined(items, sep, items.len())
}

proof fn lemma_joined_step(items: Seq<Seq<char>>, sep: Seq<char>, i: nat)
    requires
        i < items.len(),
    ensures
        joined(items, sep, i + 1) == joined(items, sep, i) + (if i == 0 {
            Seq::<char>::empty()
        } else {
            sep
        }) + items[i as int],
{
    if i == 0 {
        assert(joined(items, sep, 1) =~= Seq::<char>::empty() + Seq::<char>::empty() + items[0]);
    }
}

pub open spec fn join_clause(j: JoinView) -> Seq<char> {
    "\n    JOIN "@ + quoted(j.table) + " ON "@ + j.on
}

/// The JOIN clauses of the first `n` joins.
pub open spec fn joins_text(js: Seq<JoinView>, n: nat) -> Seq<char>
    decreases n,
{
    if n == 0 {
        Seq::empty()
    } else {
        joins_text(js, (n - 1) as nat) + join_clause(js[n - 1])
    }
}

pub open spec fn filter_item(f: Seq<char>) -> Seq<char> {
    "("@ + f + ")"@
}

pub open spec fn where_text(filters: Seq<Seq<char>>) -> Seq<char> {
    if filters.len() == 0 {
        Seq::empty()
    } else {
        "\n    WHERE "@ + join_all(filters.map_values(|f: Seq<char>| filter_item(f)), " AND "@)
    }
}

/// The base CTE: the base table, the needed joins and the filters.
pub open spec fn cte_text(base: Seq<char>, joins: Seq<JoinView>, filters: Seq<Seq<char>>) -> Seq<char> {
    "WITH \"_base\" AS (\n    SELECT *\n    FROM "@ + quoted(base) + joins_text(joins, joins.len())
        + where_text(filters) + "\n)"@
}

/// One SELECT entry: the raw expression aliased by the declared name.
pub open spec fn select_item(f: FieldView) -> Seq<char> {
    "    "@ + f.expr + " AS "@ + quoted(f.name)
}

pub open spec fn select_items(dims: Seq<FieldView>, mets: Seq<FieldView>) -> Seq<Seq<char>> {
    (dims + mets).map_values(|f: FieldView| select_item(f))
}

/// One GROUP BY entry: the raw expression.
pub open spec fn group_item(f: FieldView) -> Seq<char> {
    "    "@ + f.expr
}

pub open spec fn group_text(dims: Seq<FieldView>) -> Seq<char> {
    if dims.len() == 0 {
        Seq::empty()
    } else {
        "\nGROUP BY\n"@ + join_all(dims.map_values(|f: FieldView| group_item(f)), ",\n"@)
    }
}

/// The SQL text for resolved dimensions and metrics and the joins they need.
pub open spec fn render_sql(
    base: Seq<char>,
    joins: Seq<JoinView>,
    filters: Seq<Seq<char>>,
    dims: Seq<FieldView>,
    mets: Seq<FieldView>,
) -> Seq<char> {
    cte_text(base, joins, filters) + "\nSELECT\n"@ + join_all(select_items(dims, mets), ",\n"@)
        + "\nFROM \"_base\""@ + group_text(dims)
}

/// What `expand` returns for a view name, a definition and a request.
pub open spec fn expansion(view_name: Seq<char>, def: DefinitionView, req: RequestView) -> Result<
    Seq<char>,
    ExpandErrorView,
> {
    let dim_names = field_names(def.dimensions);
    let met_names = field_names(def.metrics);
    if req.metrics.len() == 0 {
        Err(ExpandErrorView::EmptyMetrics { view_name })
    } else if !all_resolve(req.dimensions, dim_names) {
        Err(resolution_error(view_name, req.dimensions, dim_names, false))
    } else if !all_resolve(req.metrics, met_names) {
        Err(resolution_error(view_name, req.metrics, met_names, true))
    } else {
        let dims = resolved(def.dimensions, req.dimensions);
        let mets = resolved(def.metrics, req.metrics);
        Ok(
            render_sql(
                def.base_table,
                needed_joins(def.joins, dims, mets),
                def.filters,
                dims,
                mets,
            ),
        )
    }
}

pub open spec fn expand_result_view(r: Result<String, ExpandError>) -> Result<Seq<char>, ExpandErrorView> {
    match r {
        Ok(s) => Ok(s@),
        Err(e) => Err(e@),
    }
}

fn append_joins(sql: &mut String, joins: &Vec<&Join>)
    ensures
        final(sql)@ == old(sql)@ + joins_text(join_refs_view(joins@), joins.len() as nat),
{
    let ghost js = join_refs_view(joins@);
    let ghost start = sql@;
    let mut i: usize = 0;
    while i < joins.len()
        invariant
            0 <= i <= joins.len(),
            js == join_refs_view(joins@),
            sql@ == start + joins_text(js, i as nat),
        decreases joins.len() - i,
    {
        let j: &Join = joins[i];
        sql.append("\n    JOIN ");
        let q = quote_ident(j.table.as_str());
        sql.append(q.as_str());
        sql.append(" ON ");
        sql.append(j.on.as_str());
        i = i + 1;
        assert(sql@ =~= start + joins_text(js, i as nat));
    }
}

fn append_where(sql: &mut String, filters: &Vec<String>)
    ensures
        final(sql)@ == old(sql)@ + where_text(strings_view(filters@)),
{
    if filters.len() == 0 {
        assert(sql@ =~= sql@ + where_text(strings_view(filters@)));
        return;
    }
    let ghost items = strings_view(filters@).map_values(|f: Seq<char>| filter_item(f));
    let ghost start = sql@;
    sql.append("\n    WHERE ");
    let mut i: usize = 0;
    while i < filters.len()
        invariant
            0 <= i <= filters.len(),
            items == strings_view(filters@).map_values(|f: Seq<char>| filter_item(f)),
            sql@ == start + "\n    WHERE "@ + joined(items, " AND "@, i as nat),
        decreases filters.len() - i,
    {
        proof {
            lemma_joined_step(items, " AND "@, i as nat);
        }
        let ghost before = sql@;
        if i > 0 {
            sql.append(" AND ");
        }
        sql.append("(");
        sql.append(filters[i].as_str());
        sql.append(")");
        i = i + 1;
        assert(sql@ =~= start + "\n    WHERE "@ + joined(items, " AND "@, i as nat));
    }
}

fn append_select(sql: &mut String, dims: &Vec<&Dimension>, mets: &Vec<&Metric>)
    ensures
        final(sql)@ == old(sql)@ + join_all(select_items(dims_view(dims@), mets_view(mets@)), ",\n"@),
{
    let ghost items = select_items(dims_view(dims@), mets_view(mets@));
    let ghost start = sql@;
    let mut i: usize = 0;
    while i < dims.len()
        invariant
            0 <= i <= dims.len(),
            items == select_items(dims_view(dims@), mets_view(mets@)),
            sql@ == start + joined(items, ",\n"@, i as nat),
        decreases dims.len() - i,
    {
        proof {
            lemma_joined_step(items, ",\n"@, i as nat);
        }
        let d: &Dimension = dims[i];
        if i > 0 {
            sql.append(",\n");
        }
        sql.append("    ");
        sql.append(d.expr.as_str());
        sql.append(" AS ");
        let q = quote_ident(d.name.as_str());
        sql.append(q.as_str());
        assert(items[i as int] == select_item(d@));
        i = i + 1;
        assert(sql@ =~= start + joined(items, ",\n"@, i as nat));
    }
    let mut k: usize = 0;
    while k < mets.len()
        invariant
            0 <= k <= mets.len(),
            dims.len() == i,
            items == select_items(dims_view(dims@), mets_view(mets@)),
            sql@ == start + joined(items, ",\n"@, (i + k) as nat),
        decreases mets.len() - k,
    {
        proof {
            lemma_joined_step(items, ",\n"@, (i + k) as nat);
        }
        let m: &Metric = mets[k];
        if i > 0 || k > 0 {
            sql.append(",\n");
        }
        sql.append("    ");
        sql.append(m.expr.as_str());
        sql.append(" AS ");
        let q = quote_ident(m.name.as_str());
        sql.append(q.as_str());
        assert(items[i + k] == select_item(m@));
        k = k + 1;
        assert(sql@ =~= start + joined(items, ",\n"@, (i + k) as nat));
    }
}

fn append_group(sql: &mut String, dims: &Vec<&Dimension>)
    ensures
        final(sql)@ == old(sql)@ + group_text(dims_view(dims@)),
{
    if dims.len() == 0 {
        assert(sql@ =~= sql@ + group_text(dims_view(dims@)));
        return;
    }
    let ghost items = dims_view(dims@).map_values(|f: FieldView| group_item(f));
    let ghost start = sql@;
    sql.append("\nGROUP BY\n");
    let mut i: usize = 0;
    while i < dims.len()
        invariant
            0 <= i <= dims.len(),
            items == dims_view(dims@).map_values(|f: FieldView| group_item(f)),
            sql@ == start + "\nGROUP BY\n"@ + joined(items, ",\n"@, i as nat),
        decreases dims.len() - i,
    {
        proof {
            lemma_joined_step(items, ",\n"@, i as nat);
        }
        let d: &Dimension = dims[i];
        if i > 0 {
            sql.append(",\n");
        }
        sql.append("    ");
        sql.append(d.expr.as_str());
        i = i + 1;
        assert(sql@ =~= start + "\nGROUP BY\n"@ + joined(items, ",\n"@, i as nat));
    }
}

fn field_name_list_dims(def: &SemanticViewDefinition) -> (r: Vec<String>)
    ensures
        strings_view(r@) == field_names(def@.dimensions),
{
    let mut r: Vec<String> = Vec::new();
    let mut i: usize = 0;
    while i < def.dimensions.len()
        invariant
            0 <= i <= def.dimensions.len(),
            r.len() == i,
            forall|k: int| 0 <= k < i ==> #[trigger] r@[k]@ == def@.dimensions[k].name,
        decreases def.dimensions.len() - i,
    {
        r.push(owned(def.dimensions[i].name.as_str()));
        i = i + 1;
    }
    assert(strings_view(r@) =~= field_names(def@.dimensions));
    r
}

fn field_name_list_mets(def: &SemanticViewDefinition) -> (r: Vec<String>)
    ensures
        strings_view(r@) == field_names(def@.metrics),
{
    let mut r: Vec<String> = Vec::new();
    let mut i: usize = 0;
    while i < def.metrics.len()
        invariant
            0 <= i <= def.metrics.len(),
            r.len() == i,
            forall|k: int| 0 <= k < i ==> #[trigger] r@[k]@ == def@.metrics[k].name,
        decreases def.metrics.len() - i,
    {
        r.push(owned(def.metrics[i].name.as_str()));
        i = i + 1;
    }
    assert(strings_view(r@) =~= field_names(def@.metrics));
    r
}

/// Expand a semantic view definition into a CTE-wrapped SQL query.
///
/// Fails with `EmptyMetrics` when no metric is requested, then with the error
/// for the first requested dimension, then metric, that repeats an earlier name
/// or names nothing declared (names match ignoring ASCII case). Otherwise the
/// SQL selects the resolved dimensions and metrics in request order over a base
/// CTE holding the needed joins and the filters, grouped by the dimensions'
/// raw expressions when there are any.
pub fn expand(view_name: &str, def: &SemanticViewDefinition, req: &QueryRequest) -> (r: Result<
    String,
    ExpandError,
>)
    ensures
        expand_result_view(r) == expansion(view_name@, def@, req@),
{
    if req.metrics.len() == 0 {
        return Err(ExpandError::EmptyMetrics { view_name: owned(view_name) });
    }
    let dim_names = field_name_list_dims(def);
    let dim_idx = resolve_requested(view_name, &req.dimensions, &dim_names, false)?;
    let met_names = field_name_list_mets(def);
    let met_idx = resolve_requested(view_name, &req.metrics, &met_names, true)?;

    let ghost dims_spec = resolved(def@.dimensions, req@.dimensions);
    let ghost mets_spec = resolved(def@.metrics, req@.metrics);
    let mut dims: Vec<&Dimension> = Vec::new();
    let mut i: usize = 0;
    while i < dim_idx.len()
        invariant
            0 <= i <= dim_idx.len(),
            dim_idx.len() == req.dimensions.len(),
            dims_spec == resolved(def@.dimensions, req@.dimensions),
            forall|t: int|
                0 <= t < dim_idx.len() ==> #[trigger] dim_idx@[t] < def.dimensions.len()
                    && dim_idx@[t] as int == first_match(
                    field_names(def@.dimensions),
                    req@.dimensions[t],
                ),
            dims.len() == i,
            forall|t: int| 0 <= t < i ==> #[trigger] (*dims@[t])@ == dims_spec[t],
        decreases dim_idx.len() - i,
    {
        dims.push(&def.dimensions[dim_idx[i]]);
        i = i + 1;
    }
    assert(dims_view(dims@) =~= dims_spec);
    let mut mets: Vec<&Metric> = Vec::new();
    let mut i: usize = 0;
    while i < met_idx.len()
        invariant
            0 <= i <= met_idx.len(),
            met_idx.len() == req.metrics.len(),
            mets_spec == resolved(def@.metrics, req@.metrics),
            forall|t: int|
                0 <= t < met_idx.len() ==> #[trigger] met_idx@[t] < def.metrics.len()
                    && met_idx@[t] as int == first_match(field_names(def@.metrics), req@.metrics[t]),
            mets.len() == i,
            forall|t: int| 0 <= t < i ==> #[trigger] (*mets@[t])@ == mets_spec[t],
        decreases met_idx.len() - i,
    {
        mets.push(&def.metrics[met_idx[i]]);
        i = i + 1;
    }
    assert(mets_view(mets@) =~= mets_spec);

    let needed = resolve_joins(&def.joins, &dims, &mets);
    assert(joins_view(def.joins@) =~= def@.joins);

    let mut sql = String::new();
    sql.append("WITH \"_base\" AS (\n    SELECT *\n    FROM ");
    let base = quote_ident(def.base_table.as_str());
    sql.append(base.as_str());
    append_joins(&mut sql, &needed);
    append_where(&mut sql, &def.filters);
    sql.append("\n)");
    sql.append("\nSELECT\n");
    append_select(&mut sql, &dims, &mets);
    sql.append("\nFROM \"_base\"");
    append_group(&mut sql, &dims);
    assert(sql@ =~= render_sql(
        def@.base_table,
        needed_joins(def@.joins, dims_spec, mets_spec),
        def@.filters,
        dims_spec,
        mets_spec,
    ));
    Ok(sql)
}


// ---------------------------------------------------------------------------
// Laws
// ---------------------------------------------------------------------------

/// Expansion is deterministic: the same view name, definition and request give
/// the same SQL text or the same error.
pub proof fn lemma_expand_deterministic(
    v1: Seq<char>,
    d1: DefinitionView,
    q1: RequestView,
    v2: Seq<char>,
    d2: DefinitionView,
    q2: RequestView,
)
    requires
        v1 == v2,
        d1 == d2,
        q1 == q2,
    ensures
        expansion(v1, d1, q1) == expansion(v2, d2, q2),
{
}

proof fn lemma_first_below(decl: Seq<Seq<char>>, name: Seq<char>, k: int)
    requires
        0 <= k < decl.len(),
        same_name(decl[k], name),
    ensures
        is_first_match(decl, name, first_match(decl, name)),
    decreases k,
{
    if exists|j: int| 0 <= j < k && #[trigger] same_name(decl[j], name) {
        let j = choose|j: int| 0 <= j < k && #[trigger] same_name(decl[j], name);
        lemma_first_below(decl, name, j);
    } else {
        assert(is_first_match(decl, name, k));
    }
}

/// A declared name has a first declared match.
pub proof fn lemma_first_match(decl: Seq<Seq<char>>, name: Seq<char>)
    requires
        has_match(decl, name),
    ensures
        is_first_match(decl, name, first_match(decl, name)),
{
    let k = choose|k: int| 0 <= k < decl.len() && #[trigger] same_name(decl[k], name);
    lemma_first_below(decl, name, k);
}

/// A run inside the middle part of a concatenation is a run of the whole.
pub proof fn lemma_contains_in_concat(a: Seq<char>, b: Seq<char>, c: Seq<char>, x: Seq<char>)
    requires
        contains_sub(b, x),
    ensures
        contains_sub(a + b + c, x),
{
    let i = choose|i: int| 0 <= i && i + x.len() <= b.len() && #[trigger] b.subrange(i, i + x.len()) == x;
    assert((a + b + c).subrange(a.len() + i, a.len() + i + x.len()) =~= b.subrange(i, i + x.len()));
}

proof fn lemma_contains_self(x: Seq<char>)
    ensures
        contains_sub(x, x),
{
    assert(x.subrange(0int, 0int + x.len()) =~= x);
}

/// Each of the first `n` items occurs in their joined text.
pub proof fn lemma_joined_contains(items: Seq<Seq<char>>, sep: Seq<char>, n: nat, k: int)
    requires
        0 <= k < n <= items.len(),
    ensures
        contains_sub(joined(items, sep, n), items[k]),
    decreases n,
{
    let e = Seq::<char>::empty();
    lemma_contains_self(items[k]);
    if n == 1 {
        assert(joined(items, sep, n) == items[0]);
    } else if k == n - 1 {
        let head = joined(items, sep, (n - 1) as nat) + sep;
        lemma_contains_in_concat(head, items[k], e, items[k]);
        assert(head + items[k] + e =~= joined(items, sep, n));
    } else {
        lemma_joined_contains(items, sep, (n - 1) as nat, k);
        let tail = sep + items[n - 1];
        lemma_contains_in_concat(e, joined(items, sep, (n - 1) as nat), tail, items[k]);
        assert(e + joined(items, sep, (n - 1) as nat) + tail =~= joined(items, sep, n));
    }
}

/// A request whose names are all declared (ignoring ASCII case), none repeated,
/// with at least one metric, expands successfully. The SELECT list holds each
/// requested field's raw expression aliased by its declared name, in request
/// order with dimensions first; GROUP BY lists the dimensions' raw expressions
/// when there are any and is absent when there are none.
pub proof fn lemma_valid_request_expands(view_name: Seq<char>, def: DefinitionView, req: RequestView)
    requires
        req.metrics.len() > 0,
        forall|i: int|
            0 <= i < req.dimensions.len() ==> has_match(field_names(def.dimensions), #[trigger] req.dimensions[i])
                && !dup_before(req.dimensions, i),
        forall|i: int|
            0 <= i < req.metrics.len() ==> has_match(field_names(def.metrics), #[trigger] req.metrics[i])
                && !dup_before(req.metrics, i),
    ensures
        ({
            let dims = resolved(def.dimensions, req.dimensions);
            let mets = resolved(def.metrics, req.metrics);
            let items = select_items(dims, mets);
            &&& expansion(view_name, def, req) == Ok::<Seq<char>, ExpandErrorView>(
                cte_text(def.base_table, needed_joins(def.joins, dims, mets), def.filters)
                    + "\nSELECT\n"@ + join_all(items, ",\n"@) + "\nFROM \"_base\""@ + group_text(dims),
            )
            &&& items.len() == req.dimensions.len() + req.metrics.len()
            &&& forall|i: int|
                0 <= i < req.dimensions.len() ==> {
                    &&& same_name(dims[i].name, req.dimensions[i])
                    &&& def.dimensions.contains(dims[i])
                    &&& #[trigger] items[i] == "    "@ + dims[i].expr + " AS "@ + quoted(dims[i].name)
                }
            &&& forall|i: int|
                0 <= i < req.metrics.len() ==> {
                    &&& same_name(mets[i].name, req.metrics[i])
                    &&& def.metrics.contains(mets[i])
                    &&& #[trigger] items[req.dimensions.len() + i] == "    "@ + mets[i].expr + " AS "@
                        + quoted(mets[i].name)
                }
            &&& dims.len() > 0 ==> group_text(dims) == "\nGROUP BY\n"@ + join_all(
                dims.map_values(|f: FieldView| group_item(f)),
                ",\n"@,
            )
            &&& dims.len() == 0 ==> group_text(dims) == Seq::<char>::empty()
            &&& forall|i: int|
                0 <= i < items.len() ==> contains_sub(
                    expansion(view_name, def, req)->Ok_0,
                    #[trigger] items[i],
                )
            &&& forall|i: int|
                0 <= i < dims.len() ==> contains_sub(
                    expansion(view_name, def, req)->Ok_0,
                    #[trigger] group_item(dims[i]),
                )
        }),
{
    let dn = field_names(def.dimensions);
    let mn = field_names(def.metrics);
    assert(all_resolve(req.dimensions, dn)) by {
        assert forall|i: int| 0 <= i < req.dimensions.len() implies !#[trigger] fails_at(req.dimensions, dn, i) by {
            assert(has_match(dn, req.dimensions[i]));
        }
    }
    assert(all_resolve(req.metrics, mn)) by {
        assert forall|i: int| 0 <= i < req.metrics.len() implies !#[trigger] fails_at(req.metrics, mn, i) by {
            assert(has_match(mn, req.metrics[i]));
        }
    }
    let dims = resolved(def.dimensions, req.dimensions);
    let mets = resolved(def.metrics, req.metrics);
    assert forall|i: int| 0 <= i < req.dimensions.len() implies same_name(dims[i].name, req.dimensions[i])
        && def.dimensions.contains(dims[i]) by {
        assert(has_match(dn, req.dimensions[i]));
        lemma_first_match(dn, req.dimensions[i]);
        let k = first_match(dn, req.dimensions[i]);
        assert(dims[i] == def.dimensions[k]);
    }
    assert forall|i: int| 0 <= i < req.metrics.len() implies same_name(mets[i].name, req.metrics[i])
        && def.metrics.contains(mets[i]) by {
        assert(has_match(mn, req.metrics[i]));
        lemma_first_match(mn, req.metrics[i]);
        let k = first_match(mn, req.metrics[i]);
        assert(mets[i] == def.metrics[k]);
    }
    let items = select_items(dims, mets);
    let cte = cte_text(def.base_table, needed_joins(def.joins, dims, mets), def.filters);
    let sel = join_all(items, ",\n"@);
    let grp = group_text(dims);
    let sql = cte + "\nSELECT\n"@ + sel + "\nFROM \"_base\""@ + grp;
    assert forall|i: int| 0 <= i < items.len() implies contains_sub(sql, #[trigger] items[i]) by {
        lemma_joined_contains(items, ",\n"@, items.len(), i);
        lemma_contains_in_concat(cte + "\nSELECT\n"@, sel, "\nFROM \"_base\""@ + grp, items[i]);
        assert(cte + "\nSELECT\n"@ + sel + ("\nFROM \"_base\""@ + grp) =~= sql);
    }
    assert forall|i: int| 0 <= i < dims.len() implies contains_sub(sql, #[trigger] group_item(dims[i])) by {
        let gitems = dims.map_values(|f: FieldView| group_item(f));
        lemma_joined_contains(gitems, ",\n"@, gitems.len(), i);
        let head = cte + "\nSELECT\n"@ + sel + "\nFROM \"_base\""@ + "\nGROUP BY\n"@;
        lemma_contains_in_concat(head, join_all(gitems, ",\n"@), Seq::<char>::empty(), gitems[i]);
        assert(head + join_all(gitems, ",\n"@) + Seq::<char>::empty() =~= sql);
    }
}

// ---------------------------------------------------------------------------
// Error messages
// ---------------------------------------------------------------------------

pub open spec fn suggestion_text(s: Option<Seq<char>>) -> Seq<char> {
    match s {
        Some(x) => ". Did you mean '"@ + x + "'?"@,
        None => Seq::empty(),
    }
}

pub open spec fn unknown_text(
    kind: Seq<char>,
    view_name: Seq<char>,
    name: Seq<char>,
    available: Seq<Seq<char>>,
    suggestion: Option<Seq<char>>,
) -> Seq<char> {
    "semantic view '"@ + view_name + "': unknown "@ + kind + " '"@ + name + "'. Available: ["@
        + join_all(available, ", "@) + "]"@ + suggestion_text(suggestion)
}

/// The message of an expansion error.
pub open spec fn expand_error_text(e: ExpandErrorView) -> Seq<char> {
    match e {
        ExpandErrorView::EmptyMetrics { view_name } => "semantic view '"@ + view_name
            + "': at least one metric is required"@,
        ExpandErrorView::UnknownDimension { view_name, name, available, suggestion } =>
            unknown_text("dimension"@, view_name, name, available, suggestion),
        ExpandErrorView::UnknownMetric { view_name, name, available, suggestion } =>
            unknown_text("metric"@, view_name, name, available, suggestion),
        ExpandErrorView::DuplicateDimension { view_name, name } => "semantic view '"@ + view_name
            + "': duplicate dimension '"@ + name + "'"@,
        ExpandErrorView::DuplicateMetric { view_name, name } => "semantic view '"@ + view_name
            + "': duplicate metric '"@ + name + "'"@,
    }
}

/// Append the items of `items`, separated by `sep`.
pub fn append_joined(out: &mut String, items: &Vec<String>, sep: &str)
    ensures
        final(out)@ == old(out)@ + join_all(strings_view(items@), sep@),
{
    let ghost iv = strings_view(items@);
    let ghost start = out@;
    let mut i: usize = 0;
    while i < items.len()
        invariant
            0 <= i <= items.len(),
            iv == strings_view(items@),
            out@ == start + joined(iv, sep@, i as nat),
        decreases items.len() - i,
    {
        proof {
            lemma_joined_step(iv, sep@, i as nat);
        }
        if i > 0 {
            out.append(sep);
        }
        out.append(items[i].as_str());
        i = i + 1;
        assert(out@ =~= start + joined(iv, sep@, i as nat));
    }
}

fn append_suggestion(out: &mut String, suggestion: &Option<String>)
    ensures
        final(out)@ == old(out)@ + suggestion_text(opt_view(*suggestion)),
{
    match suggestion {
        Some(s) => {
            out.append(". Did you mean '");
            out.append(s.as_str());
            out.append("'?");
            assert(out@ =~= old(out)@ + suggestion_text(opt_view(*suggestion)));
        },
        None => {
            assert(out@ =~= old(out)@ + suggestion_text(opt_view(*suggestion)));
        },
    }
}

fn unknown_message(
    kind: &str,
    view_name: &String,
    name: &String,
    available: &Vec<String>,
    suggestion: &Option<String>,
) -> (r: String)
    ensures
        r@ == unknown_text(kind@, view_name@, name@, strings_view(available@), opt_view(*suggestion)),
{
    let mut out = String::new();
    out.append("semantic view '");
    out.append(view_name.as_str());
    out.append("': unknown ");
    out.append(kind);
    out.append(" '");
    out.append(name.as_str());
    out.append("'. Available: [");
    append_joined(&mut out, available, ", ");
    out.append("]");
    append_suggestion(&mut out, suggestion);
    assert(out@ =~= unknown_text(
        kind@,
        view_name@,
        name@,
        strings_view(available@),
        opt_view(*suggestion),
    ));
    out
}

impl ExpandError {
    /// The human-readable message of this error.
    pub fn message(&self) -> (r: String)
        ensures
            r@ == expand_error_text(self@),
    {
        match self {
            ExpandError::EmptyMetrics { view_name } => {
                let mut out = String::new();
                out.append("semantic view '");
                out.append(view_name.as_str());
                out.append("': at least one metric is required");
                assert(out@ =~= expand_error_text(self@));
                out
            },
            ExpandError::UnknownDimension { view_name, name, available, suggestion } => {
                unknown_message("dimension", view_name, name, available, suggestion)
            },
            ExpandError::UnknownMetric { view_name, name, available, suggestion } => {
                unknown_message("metric", view_name, name, available, suggestion)
            },
            ExpandError::DuplicateDimension { view_name, name } => {
                let mut out = String::new();
                out.append("semantic view '");
                out.append(view_name.as_str());
                out.append("': duplicate dimension '");
                out.append(name.as_str());
                out.append("'");
                assert(out@ =~= expand_error_text(self@));
                out
            },
            ExpandError::DuplicateMetric { view_name, name } => {
                let mut out = String::new();
                out.append("semantic view '");
                out.append(view_name.as_str());
                out.append("': duplicate metric '");
                out.append(name.as_str());
                out.append("'");
                assert(out@ =~= expand_error_text(self@));
                out
            },
        }
    }
}

} // verus!
