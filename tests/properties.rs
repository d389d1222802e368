use semantic_views::expand::{
    closest_within, expand, find_dimension, find_metric, suggest_closest, ExpandError, QueryRequest,
};
use semantic_views::joins::resolve_joins;
use semantic_views::model::{Dimension, Join, Metric, SemanticViewDefinition};

fn dim(name: &str, expr: &str, source: Option<&str>) -> Dimension {
    Dimension {
        name: name.to_string(),
        expr: expr.to_string(),
        source_table: source.map(|s| s.to_string()),
    }
}

fn met(name: &str, expr: &str, source: Option<&str>) -> Metric {
    Metric {
        name: name.to_string(),
        expr: expr.to_string(),
        source_table: source.map(|s| s.to_string()),
    }
}

fn join(table: &str, on: &str) -> Join {
    Join { table: table.to_string(), on: on.to_string() }
}

fn request(dims: &[&str], mets: &[&str]) -> QueryRequest {
    QueryRequest {
        dimensions: dims.iter().map(|s| s.to_string()).collect(),
        metrics: mets.iter().map(|s| s.to_string()).collect(),
    }
}

/// The fixed definition the name fuzzer expands against.
fn fixed_definition() -> SemanticViewDefinition {
    SemanticViewDefinition {
        base_table: "orders".to_string(),
        dimensions: vec![
            dim("region", "region", None),
            dim("month", "date_trunc('month', created_at)", None),
        ],
        metrics: vec![met("revenue", "sum(amount)", None), met("count", "count(*)", None)],
        filters: vec!["status = 'active'".to_string()],
        joins: vec![],
    }
}

#[test]
fn scenario_basic_expansion() {
    let def = SemanticViewDefinition {
        base_table: "orders".to_string(),
        dimensions: vec![dim("region", "region", None)],
        metrics: vec![met("total_revenue", "sum(amount)", None)],
        filters: vec![],
        joins: vec![],
    };
    let sql = expand("orders", &def, &request(&["region"], &["total_revenue"])).unwrap();
    assert_eq!(
        sql,
        "WITH \"_base\" AS (\n    SELECT *\n    FROM \"orders\"\n)\nSELECT\n    region AS \"region\",\n    sum(amount) AS \"total_revenue\"\nFROM \"_base\"\nGROUP BY\n    region"
    );
    match expand("orders", &def, &request(&["reigon"], &["total_revenue"])) {
        Err(ExpandError::UnknownDimension { name, suggestion, .. }) => {
            assert_eq!(name, "reigon");
            assert_eq!(suggestion.as_deref(), Some("region"));
        }
        other => panic!("expected UnknownDimension, got {other:?}"),
    }
    assert!(matches!(
        expand("orders", &def, &request(&[], &[])),
        Err(ExpandError::EmptyMetrics { .. })
    ));
}

#[test]
fn expansion_is_deterministic() {
    let def = fixed_definition();
    let req = request(&["month", "REGION"], &["Revenue", "count"]);
    let a = expand("v", &def, &req).unwrap();
    let b = expand("v", &def.clone(), &req.clone()).unwrap();
    assert_eq!(a, b);
}

#[test]
fn valid_request_selects_declared_names() {
    let def = fixed_definition();
    let sql = expand("v", &def, &request(&["MONTH"], &["Count", "revenue"])).unwrap();
    assert!(sql.contains("    date_trunc('month', created_at) AS \"month\""));
    assert!(sql.contains("    count(*) AS \"count\""));
    assert!(sql.contains("    sum(amount) AS \"revenue\""));
    assert!(sql.ends_with("\nGROUP BY\n    date_trunc('month', created_at)"));
    assert!(sql.contains("    WHERE (status = 'active')"));
    let global = expand("v", &def, &request(&[], &["revenue"])).unwrap();
    assert!(!global.contains("GROUP BY"));
    assert!(global.ends_with("FROM \"_base\""));
}

#[test]
fn fuzz_names_expand_or_fail() {
    let def = fixed_definition();
    let names = ["region", "month", "revenue", "count", "", "x", "REGION", "\"", "mont"];
    for a in names {
        for b in names {
            if let Ok(sql) = expand("fuzz_view", &def, &request(&[a], &[b])) {
                assert!(!sql.is_empty());
                assert!(sql.starts_with("WITH"));
            }
        }
    }
}

#[test]
fn join_needed_through_on_text_ignoring_case() {
    let def = SemanticViewDefinition {
        base_table: "orders".to_string(),
        dimensions: vec![dim("r", "Regions.name", Some("REGIONS"))],
        metrics: vec![met("m", "count(*)", None)],
        filters: vec![],
        joins: vec![
            join("Products", "orders.product_id = products.id"),
            join("Customers", "orders.customer_id = customers.id"),
            join("regions", "CUSTOMERS.region_id = regions.id"),
        ],
    };
    let sql = expand("v", &def, &request(&["r"], &["m"])).unwrap();
    assert!(sql.contains("JOIN \"Customers\" ON orders.customer_id = customers.id"));
    assert!(sql.contains("JOIN \"regions\" ON CUSTOMERS.region_id = regions.id"));
    assert!(!sql.contains("Products"));
    assert!(sql.find("\"Customers\"").unwrap() < sql.find("\"regions\"").unwrap());
}

#[test]
fn resolve_joins_returns_needed_in_order() {
    let joins = vec![
        join("a", "a.x = b.x"),
        join("b", "b.y = base.y"),
        join("c", "c.z = base.z"),
    ];
    let d = dim("d", "a.v", Some("A"));
    let picked = resolve_joins(&joins, &vec![&d], &vec![]);
    let tables: Vec<&str> = picked.iter().map(|j| j.table.as_str()).collect();
    assert_eq!(tables, vec!["a", "b"]);
    let none = resolve_joins(&joins, &vec![], &vec![]);
    assert!(none.is_empty());
}

#[test]
fn lookup_is_case_insensitive_first_match() {
    let def = SemanticViewDefinition {
        base_table: "t".to_string(),
        dimensions: vec![dim("Region", "r1", None), dim("REGION", "r2", None)],
        metrics: vec![met("Total", "sum(x)", None)],
        filters: vec![],
        joins: vec![],
    };
    assert_eq!(find_dimension(&def, "region").unwrap().expr, "r1");
    assert!(find_dimension(&def, "regions").is_none());
    assert_eq!(find_metric(&def, "TOTAL").unwrap().expr, "sum(x)");
    assert!(find_metric(&def, "region").is_none());
}

#[test]
fn suggestion_picks_first_closest_within_three() {
    let cands: Vec<String> = vec!["abcd".to_string(), "abce".to_string(), "zzzzzzz".to_string()];
    assert_eq!(suggest_closest("ABCF", &cands).as_deref(), Some("abcd"));
    assert_eq!(suggest_closest("qqqqqqqq", &cands), None);
    assert_eq!(suggest_closest("x", &vec![]), None);
    assert_eq!(closest_within(&cands, &vec![4, 2, 2]).as_deref(), Some("abce"));
    assert_eq!(closest_within(&cands, &vec![4, 5, 9]), None);
    assert_eq!(closest_within(&cands, &vec![3, 3, 0]).as_deref(), Some("zzzzzzz"));
}

#[test]
fn duplicate_names_ignore_case() {
    let def = fixed_definition();
    match expand("v", &def, &request(&["region", "Region"], &["revenue"])) {
        Err(ExpandError::DuplicateDimension { name, .. }) => assert_eq!(name, "Region"),
        other => panic!("expected DuplicateDimension, got {other:?}"),
    }
    match expand("v", &def, &request(&["nope", "nope"], &["revenue"])) {
        Err(ExpandError::UnknownDimension { name, available, .. }) => {
            assert_eq!(name, "nope");
            assert_eq!(available, vec!["region".to_string(), "month".to_string()]);
        }
        other => panic!("expected UnknownDimension, got {other:?}"),
    }
    match expand("v", &def, &request(&["bogus"], &[])) {
        Err(ExpandError::EmptyMetrics { view_name }) => assert_eq!(view_name, "v"),
        other => panic!("expected EmptyMetrics, got {other:?}"),
    }
}

#[test]
fn unknown_metric_message() {
    let def = fixed_definition();
    let err = expand("v", &def, &request(&[], &["revenu"])).unwrap_err();
    assert_eq!(
        err.message(),
        "semantic view 'v': unknown metric 'revenu'. Available: [revenue, count]. Did you mean 'revenue'?"
    );
}

#[test]
fn quoted_identifiers_in_output() {
    let def = SemanticViewDefinition {
        base_table: "my \"t\"".to_string(),
        dimensions: vec![dim("a\"b", "x", None)],
        metrics: vec![met("m", "count(*)", None)],
        filters: vec![],
        joins: vec![],
    };
    let sql = expand("v", &def, &request(&["A\"B"], &["m"])).unwrap();
    assert!(sql.contains("FROM \"my \"\"t\"\"\""));
    assert!(sql.contains("x AS \"a\"\"b\""));
}
