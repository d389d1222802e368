use vstd::prelude::*;
use vstd::string::StringExecFns;

use crate::expand::{append_joined, expand_error_text, join_all, ExpandError, ExpandErrorView};
use crate::model::{opt_view, strings_view};

verus! {

/// Errors that can occur when executing a semantic view query.
#[derive(Debug)]
pub enum QueryError {
    /// The requested semantic view does not exist in the catalog.
    ViewNotFound { name: String, suggestion: Option<String>, available: Vec<String> },
    /// The query specified neither dimensions nor metrics.
    EmptyRequest { view_name: String },
    /// The expansion engine returned an error.
    ExpandFailed { source: ExpandError },
    /// The expanded SQL failed to execute against the host engine.
    SqlExecution { expanded_sql: String, duckdb_error: String },
}

/// The content of a [`QueryError`].
pub enum QueryErrorView {
    ViewNotFound { name: Seq<char>, suggestion: Option<Seq<char>>, available: Seq<Seq<char>> },
    EmptyRequest { view_name: Seq<char> },
    ExpandFailed { source: ExpandErrorView },
    SqlExecution { expanded_sql: Seq<char>, duckdb_error: Seq<char> },
}

impl View for QueryError {
    type V = QueryErrorView;

    open spec fn view(&self) -> QueryErrorView {
        match self {
            QueryError::ViewNotFound { name, suggestion, available } =>
                QueryErrorView::ViewNotFound {
                name: name@,
                suggestion: opt_view(*suggestion),
                available: strings_view(available@),
            },
            QueryError::EmptyRequest { view_name } => QueryErrorView::EmptyRequest {
                view_name: view_name@,
            },
            QueryError::ExpandFailed { source } => QueryErrorView::ExpandFailed { source: source@ },
            QueryError::SqlExecution { expanded_sql, duckdb_error } =>
                QueryErrorView::SqlExecution {
                expanded_sql: expanded_sql@,
                duckdb_error: duckdb_error@,
            },
        }
    }
}

pub open spec fn not_found_text(
    name: Seq<char>,
    suggestion: Option<Seq<char>>,
    available: Seq<Seq<char>>,
) -> Seq<char> {
    "Semantic view '"@ + name + "' not found."@ + match suggestion {
        Some(s) => " Did you mean '"@ + s + "'?"@,
        None => Seq::empty(),
    } + if available.len() == 0 {
        Seq::empty()
    } else {
        " Available views: ["@ + join_all(available, ", "@) + "]."@
    } + " Run FROM list_semantic_views() to see all registered views."@
}

/// The message of a query error.
pub open spec fn query_error_text(e: QueryErrorView) -> Seq<char> {
    match e {
        QueryErrorView::ViewNotFound { name, suggestion, available } => not_found_text(
            name,
            suggestion,
            available,
        ),
        QueryErrorView::EmptyRequest { view_name } => "semantic view '"@ + view_name
            + "': specify at least dimensions := [...] or metrics := [...]."@
            + " Run FROM describe_semantic_view('"@ + view_name
            + "') to see available dimensions and metrics."@,
        QueryErrorView::ExpandFailed { source } => expand_error_text(source),
        QueryErrorView::SqlExecution { expanded_sql, duckdb_error } => "SQL execution failed: "@
            + duckdb_error + "\nExpanded SQL:\n"@ + expanded_sql,
    }
}

impl QueryError {
    /// The human-readable message of this error.
    pub fn message(&self) -> (r: String)
        ensures
            r@ == query_error_text(self@),
    {
        match self {
            QueryError::ViewNotFound { name, suggestion, available } => {
                let mut out = String::new();
                out.append("Semantic view '");
                out.append(name.as_str());
                out.append("' not found.");
                match suggestion {
                    Some(s) => {
                        out.append(" Did you mean '");
                        out.append(s.as_str());
                        out.append("'?");
                    },
                    None => {},
                }
                if available.len() > 0 {
                    out.append(" Available views: [");
                    append_joined(&mut out, available, ", ");
                    out.append("].");
                }
                out.append(" Run FROM list_semantic_views() to see all registered views.");
                assert(out@ =~= query_error_text(self@));
                out
            },
            QueryError::EmptyRequest { view_name } => {
                let mut out = String::new();
                out.append("semantic view '");
                out.append(view_name.as_str());
                out.append("': specify at least dimensions := [...] or metrics := [...].");
                out.append(" Run FROM describe_semantic_view('");
                out.append(view_name.as_str());
                out.append("') to see available dimensions and metrics.");
                assert(out@ =~= query_error_text(self@));
                out
            },
            QueryError::ExpandFailed { source } => source.message(),
            QueryError::SqlExecution { expanded_sql, duckdb_error } => {
                let mut out = String::new();
                out.append("SQL execution failed: ");
                out.append(duckdb_error.as_str());
                out.append("\nExpanded SQL:\n");
                out.append(expanded_sql.as_str());
                assert(out@ =~= query_error_text(self@));
                out
            },
        }
    }

    /// The expansion error underneath, if this error wraps one.
    pub fn source(&self) -> (r: Option<&ExpandError>)
        ensures
            match self {
                QueryError::ExpandFailed { source } => r == Some(source),
                _ => r is None,
            },
    {
        match self {
            QueryError::ExpandFailed { source } => Some(source),
            _ => None,
        }
    }
}

impl From<ExpandError> for QueryError {
    fn from(source: ExpandError) -> (r: QueryError)
        ensures
            r == (QueryError::ExpandFailed { source }),
    {
        QueryError::ExpandFailed { source }
    }
}

impl vstd::std_specs::convert::FromSpecImpl<ExpandError> for QueryError {
    open spec fn obeys_from_spec() -> bool {
        true
    }

    open spec fn from_spec(source: ExpandError) -> QueryError {
        QueryError::ExpandFailed { source }
    }
}

} // verus!
