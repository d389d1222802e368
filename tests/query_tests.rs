use semantic_views::catalog::{catalog_insert, CatalogError, CatalogState};
use semantic_views::ddl::describe::describe_semantic_view;
use semantic_views::ddl::list::{base_table_of, list_semantic_views};
use semantic_views::expand::ExpandError;
use semantic_views::model::{Dimension, Metric, SemanticViewDefinition};
use semantic_views::query::error::QueryError;
use semantic_views::query::explain::{
    explain_expand, explain_lookup, explain_output, plan_unavailable, text_lines,
};

fn catalog_with(entries: &[(&str, &str)]) -> CatalogState {
    let mut state = CatalogState::new();
    for (name, json) in entries {
        catalog_insert(&mut state, name, json, &Ok(())).unwrap();
    }
    state
}

fn strings(v: &[&str]) -> Vec<String> {
    v.iter().map(|s| s.to_string()).collect()
}

#[test]
fn list_is_sorted_with_base_tables() {
    let state = catalog_with(&[
        ("zeta", r#"{"base_table":"z_tbl","dimensions":[],"metrics":[]}"#),
        ("alpha", r#"{"base_table":"a_tbl","dimensions":[],"metrics":[]}"#),
        ("mid", "not json"),
    ]);
    let data = list_semantic_views(&state);
    assert_eq!(
        data.rows,
        vec![
            ("alpha".to_string(), "a_tbl".to_string()),
            ("mid".to_string(), String::new()),
            ("zeta".to_string(), "z_tbl".to_string()),
        ]
    );
}

#[test]
fn base_table_of_reads_the_field() {
    assert_eq!(base_table_of(r#"{"base_table":"orders"}"#), "orders");
    assert_eq!(base_table_of(r#"{"base_table":1}"#), "");
    assert_eq!(base_table_of("[]"), "");
    assert_eq!(base_table_of("{oops"), "");
}

#[test]
fn describe_returns_fields() {
    let json = r#"{"base_table":"orders","dimensions":[{"name":"region","expr":"region"}],"metrics":[{"name":"revenue","expr":"sum(amount)"}],"joins":[]}"#;
    let state = catalog_with(&[("orders", json)]);
    let d = describe_semantic_view(&state, "orders").unwrap();
    assert_eq!(d.name, "orders");
    assert_eq!(d.base_table, "orders");
    assert_eq!(d.dimensions, r#"[{"expr":"region","name":"region"}]"#);
    assert_eq!(d.metrics, r#"[{"expr":"sum(amount)","name":"revenue"}]"#);
    assert_eq!(d.filters, "[]");
    assert_eq!(d.joins, "[]");
}

#[test]
fn describe_missing_view_is_not_found() {
    let state = catalog_with(&[]);
    match describe_semantic_view(&state, "missing") {
        Err(CatalogError::NotFound { name }) => assert_eq!(name, "missing"),
        Err(other) => panic!("expected NotFound, got {other:?}"),
        Ok(_) => panic!("expected NotFound"),
    }
}

#[test]
fn describe_unparsable_text_is_invalid() {
    let state = catalog_with(&[("broken", "{not json")]);
    assert!(matches!(
        describe_semantic_view(&state, "broken"),
        Err(CatalogError::Invalid { .. })
    ));
}

#[test]
fn explain_lookup_empty_request() {
    let state = catalog_with(&[]);
    match explain_lookup(&state, "orders", &vec![], &vec![]) {
        Err(QueryError::EmptyRequest { view_name }) => assert_eq!(view_name, "orders"),
        other => panic!("expected EmptyRequest, got {other:?}"),
    }
}

#[test]
fn explain_lookup_missing_view_suggests() {
    let state = catalog_with(&[("orders", "{}"), ("customers", "{}")]);
    let err = explain_lookup(&state, "ordrs", &strings(&["region"]), &vec![]).unwrap_err();
    match &err {
        QueryError::ViewNotFound { name, suggestion, available } => {
            assert_eq!(name, "ordrs");
            assert_eq!(suggestion.as_deref(), Some("orders"));
            assert_eq!(available, &strings(&["customers", "orders"]));
        }
        other => panic!("expected ViewNotFound, got {other:?}"),
    }
    assert_eq!(
        err.message(),
        "Semantic view 'ordrs' not found. Did you mean 'orders'? Available views: [customers, orders]. Run FROM list_semantic_views() to see all registered views."
    );
}

#[test]
fn explain_lookup_finds_text() {
    let state = catalog_with(&[("orders", "{\"a\":1}")]);
    assert_eq!(
        explain_lookup(&state, "orders", &vec![], &strings(&["m"])).unwrap(),
        "{\"a\":1}"
    );
}

fn small_def() -> SemanticViewDefinition {
    SemanticViewDefinition {
        base_table: "orders".to_string(),
        dimensions: vec![Dimension {
            name: "region".to_string(),
            expr: "region".to_string(),
            source_table: None,
        }],
        metrics: vec![Metric {
            name: "revenue".to_string(),
            expr: "sum(amount)".to_string(),
            source_table: None,
        }],
        filters: vec![],
        joins: vec![],
    }
}

#[test]
fn explain_expand_wraps_errors() {
    let def = small_def();
    let err = explain_expand("orders", &def, &strings(&["region"]), &vec![]).unwrap_err();
    match &err {
        QueryError::ExpandFailed { source: ExpandError::EmptyMetrics { view_name } } => {
            assert_eq!(view_name, "orders")
        }
        other => panic!("expected ExpandFailed, got {other:?}"),
    }
    assert!(err.source().is_some());
    assert_eq!(err.message(), "semantic view 'orders': at least one metric is required");
    let sql = explain_expand("orders", &def, &strings(&["region"]), &strings(&["revenue"])).unwrap();
    assert!(sql.starts_with("WITH"));
}

#[test]
fn explain_output_has_three_parts() {
    let out = explain_output(
        "orders",
        &strings(&["region", "status"]),
        &strings(&["revenue"]),
        "SELECT 1\nFROM t",
        strings(&["PLAN A", "PLAN B"]),
    );
    assert_eq!(
        out.lines,
        strings(&[
            "-- Semantic View: orders",
            "-- Dimensions: region, status",
            "-- Metrics: revenue",
            "",
            "-- Expanded SQL:",
            "SELECT 1",
            "FROM t",
            "",
            "-- DuckDB Plan:",
            "PLAN A",
            "PLAN B",
        ])
    );
}

#[test]
fn text_lines_matches_str_lines() {
    for s in ["", "a", "a\n", "a\nb", "a\r\nb\r\n", "\n\n", "x\r", "a\n\nb\n"] {
        let expected: Vec<String> = s.lines().map(|l| l.to_string()).collect();
        assert_eq!(text_lines(s), expected, "input {s:?}");
    }
}

#[test]
fn plan_unavailable_line() {
    assert_eq!(plan_unavailable("boom"), "-- (not available -- boom)");
}

#[test]
fn query_error_messages() {
    let e = QueryError::EmptyRequest { view_name: "v".to_string() };
    assert_eq!(
        e.message(),
        "semantic view 'v': specify at least dimensions := [...] or metrics := [...]. Run FROM describe_semantic_view('v') to see available dimensions and metrics."
    );
    let e = QueryError::SqlExecution {
        expanded_sql: "SELECT 1".to_string(),
        duckdb_error: "bad".to_string(),
    };
    assert_eq!(e.message(), "SQL execution failed: bad\nExpanded SQL:\nSELECT 1");
    assert!(e.source().is_none());
    let e = QueryError::ViewNotFound { name: "v".to_string(), suggestion: None, available: vec![] };
    assert_eq!(
        e.message(),
        "Semantic view 'v' not found. Run FROM list_semantic_views() to see all registered views."
    );
    let e = QueryError::from(ExpandError::DuplicateMetric {
        view_name: "v".to_string(),
        name: "m".to_string(),
    });
    assert_eq!(e.message(), "semantic view 'v': duplicate metric 'm'");
}

#[test]
fn describe_defaults_absent_lists_and_keeps_present_ones() {
    let json = r#"{"base_table":"t","dimensions":[],"metrics":[],"filters":["a > 1"],"joins":[{"table":"c","on":"t.id = c.id"}]}"#;
    let state = catalog_with(&[("v", json), ("bare", r#"{"base_table":"u","dimensions":[],"metrics":[]}"#)]);
    let d = describe_semantic_view(&state, "v").unwrap();
    assert_eq!(d.base_table, "t");
    assert_eq!(d.dimensions, "[]");
    assert_eq!(d.filters, r#"["a > 1"]"#);
    assert_eq!(d.joins, r#"[{"on":"t.id = c.id","table":"c"}]"#);
    let b = describe_semantic_view(&state, "bare").unwrap();
    assert_eq!(b.base_table, "u");
    assert_eq!(b.filters, "[]");
    assert_eq!(b.joins, "[]");
}
