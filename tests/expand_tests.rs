use semantic_views::expand::{expand, quote_ident, ExpandError, QueryRequest};
use semantic_views::model::{Dimension, Join, Metric, SemanticViewDefinition};

#[test]
fn simple_identifier() {
    assert_eq!(quote_ident("orders"), "\"orders\"");
}

#[test]
fn reserved_word() {
    assert_eq!(quote_ident("select"), "\"select\"");
}

#[test]
fn embedded_double_quote() {
    assert_eq!(quote_ident("col\"name"), "\"col\"\"name\"");
}

#[test]
fn identifier_with_spaces() {
    assert_eq!(quote_ident("my table"), "\"my table\"");
}

/// Helper to build a simple orders view definition.
fn orders_view() -> SemanticViewDefinition {
    SemanticViewDefinition {
        base_table: "orders".to_string(),
        dimensions: vec![
            Dimension {
                name: "region".to_string(),
                expr: "region".to_string(),
                source_table: None,
            },
            Dimension {
                name: "status".to_string(),
                expr: "status".to_string(),
                source_table: None,
            },
        ],
        metrics: vec![
            Metric {
                name: "total_revenue".to_string(),
                expr: "sum(amount)".to_string(),
                source_table: None,
            },
            Metric {
                name: "order_count".to_string(),
                expr: "count(*)".to_string(),
                source_table: None,
            },
        ],
        filters: vec![],
        joins: vec![],
    }
}

#[test]
fn test_basic_single_dimension_single_metric() {
    let def = orders_view();
    let req = QueryRequest {
        dimensions: vec!["region".to_string()],
        metrics: vec!["total_revenue".to_string()],
    };
    let sql = expand("orders", &def, &req).unwrap();
    let expected = "\
WITH \"_base\" AS (
    SELECT *
    FROM \"orders\"
)
SELECT
    region AS \"region\",
    sum(amount) AS \"total_revenue\"
FROM \"_base\"
GROUP BY
    region";
    assert_eq!(sql, expected);
}

#[test]
fn test_multiple_dimensions_multiple_metrics() {
    let def = orders_view();
    let req = QueryRequest {
        dimensions: vec!["region".to_string(), "status".to_string()],
        metrics: vec!["total_revenue".to_string(), "order_count".to_string()],
    };
    let sql = expand("orders", &def, &req).unwrap();
    let expected = "\
WITH \"_base\" AS (
    SELECT *
    FROM \"orders\"
)
SELECT
    region AS \"region\",
    status AS \"status\",
    sum(amount) AS \"total_revenue\",
    count(*) AS \"order_count\"
FROM \"_base\"
GROUP BY
    region,
    status";
    assert_eq!(sql, expected);
}

#[test]
fn test_global_aggregate_no_dimensions() {
    let def = orders_view();
    let req = QueryRequest {
        dimensions: vec![],
        metrics: vec!["total_revenue".to_string()],
    };
    let sql = expand("orders", &def, &req).unwrap();
    let expected = "\
WITH \"_base\" AS (
    SELECT *
    FROM \"orders\"
)
SELECT
    sum(amount) AS \"total_revenue\"
FROM \"_base\"";
    assert_eq!(sql, expected);
}

#[test]
fn test_filters_and_composed() {
    let mut def = orders_view();
    def.filters = vec![
        "status = 'completed'".to_string(),
        "amount > 100".to_string(),
    ];
    let req = QueryRequest {
        dimensions: vec!["region".to_string()],
        metrics: vec!["total_revenue".to_string()],
    };
    let sql = expand("orders", &def, &req).unwrap();
    let expected = "\
WITH \"_base\" AS (
    SELECT *
    FROM \"orders\"
    WHERE (status = 'completed') AND (amount > 100)
)
SELECT
    region AS \"region\",
    sum(amount) AS \"total_revenue\"
FROM \"_base\"
GROUP BY
    region";
    assert_eq!(sql, expected);
}

#[test]
fn test_single_filter() {
    let mut def = orders_view();
    def.filters = vec!["status = 'completed'".to_string()];
    let req = QueryRequest {
        dimensions: vec!["region".to_string()],
        metrics: vec!["total_revenue".to_string()],
    };
    let sql = expand("orders", &def, &req).unwrap();
    let expected = "\
WITH \"_base\" AS (
    SELECT *
    FROM \"orders\"
    WHERE (status = 'completed')
)
SELECT
    region AS \"region\",
    sum(amount) AS \"total_revenue\"
FROM \"_base\"
GROUP BY
    region";
    assert_eq!(sql, expected);
}

#[test]
fn test_identifier_quoting() {
    let def = SemanticViewDefinition {
        base_table: "select".to_string(),
        dimensions: vec![Dimension {
            name: "col".to_string(),
            expr: "col".to_string(),
            source_table: None,
        }],
        metrics: vec![Metric {
            name: "cnt".to_string(),
            expr: "count(*)".to_string(),
            source_table: None,
        }],
        filters: vec![],
        joins: vec![],
    };
    let req = QueryRequest {
        dimensions: vec!["col".to_string()],
        metrics: vec!["cnt".to_string()],
    };
    let sql = expand("test", &def, &req).unwrap();
    // Base table "select" must be quoted, CTE name is always "_base" quoted
    assert!(sql.contains("FROM \"select\""));
    assert!(sql.contains("\"_base\""));
}

#[test]
fn test_dimension_expression_not_quoted() {
    let def = SemanticViewDefinition {
        base_table: "orders".to_string(),
        dimensions: vec![Dimension {
            name: "month".to_string(),
            expr: "date_trunc('month', created_at)".to_string(),
            source_table: None,
        }],
        metrics: vec![Metric {
            name: "total_revenue".to_string(),
            expr: "sum(amount)".to_string(),
            source_table: None,
        }],
        filters: vec![],
        joins: vec![],
    };
    let req = QueryRequest {
        dimensions: vec!["month".to_string()],
        metrics: vec!["total_revenue".to_string()],
    };
    let sql = expand("orders", &def, &req).unwrap();
    // Expression appears verbatim in both SELECT and GROUP BY (not quoted)
    assert!(sql.contains("date_trunc('month', created_at) AS \"month\""));
    assert!(sql.contains("GROUP BY\n    date_trunc('month', created_at)"));
}

#[test]
fn test_empty_metrics_error() {
    let def = orders_view();
    let req = QueryRequest {
        dimensions: vec!["region".to_string()],
        metrics: vec![],
    };
    let result = expand("orders", &def, &req);
    assert!(result.is_err());
    match result.unwrap_err() {
        ExpandError::EmptyMetrics { view_name } => {
            assert_eq!(view_name, "orders");
        }
        other => panic!("Expected EmptyMetrics, got: {other:?}"),
    }
}

#[test]
fn test_case_insensitive_dimension_lookup() {
    let def = SemanticViewDefinition {
        base_table: "orders".to_string(),
        dimensions: vec![Dimension {
            name: "Region".to_string(),
            expr: "region".to_string(),
            source_table: None,
        }],
        metrics: vec![Metric {
            name: "total_revenue".to_string(),
            expr: "sum(amount)".to_string(),
            source_table: None,
        }],
        filters: vec![],
        joins: vec![],
    };
    // Request uses lowercase "region" but definition has "Region"
    let req = QueryRequest {
        dimensions: vec!["region".to_string()],
        metrics: vec!["total_revenue".to_string()],
    };
    let sql = expand("orders", &def, &req).unwrap();
    // Should succeed and use the definition's expression
    assert!(sql.contains("region AS \"Region\""));
    assert!(sql.contains("GROUP BY\n    region"));
}

#[test]
fn test_unknown_dimension_error() {
    let def = orders_view();
    let req = QueryRequest {
        dimensions: vec!["reigon".to_string()],
        metrics: vec!["total_revenue".to_string()],
    };
    let result = expand("orders", &def, &req);
    assert!(result.is_err());
    match result.unwrap_err() {
        ExpandError::UnknownDimension {
            view_name,
            name,
            available,
            suggestion,
        } => {
            assert_eq!(view_name, "orders");
            assert_eq!(name, "reigon");
            assert!(available.contains(&"region".to_string()));
            assert_eq!(suggestion, Some("region".to_string()));
        }
        other => panic!("Expected UnknownDimension, got: {other:?}"),
    }
}

#[test]
fn test_unknown_metric_error() {
    let def = orders_view();
    let req = QueryRequest {
        dimensions: vec![],
        metrics: vec!["totl_revenue".to_string()],
    };
    let result = expand("orders", &def, &req);
    assert!(result.is_err());
    match result.unwrap_err() {
        ExpandError::UnknownMetric {
            view_name,
            name,
            available,
            suggestion,
        } => {
            assert_eq!(view_name, "orders");
            assert_eq!(name, "totl_revenue");
            assert!(available.contains(&"total_revenue".to_string()));
            assert_eq!(suggestion, Some("total_revenue".to_string()));
        }
        other => panic!("Expected UnknownMetric, got: {other:?}"),
    }
}

#[test]
fn test_unknown_dimension_no_suggestion() {
    let def = orders_view();
    let req = QueryRequest {
        dimensions: vec!["xyzzy".to_string()],
        metrics: vec!["total_revenue".to_string()],
    };
    let result = expand("orders", &def, &req);
    assert!(result.is_err());
    match result.unwrap_err() {
        ExpandError::UnknownDimension { suggestion, .. } => {
            assert_eq!(suggestion, None);
        }
        other => panic!("Expected UnknownDimension, got: {other:?}"),
    }
}

#[test]
fn test_duplicate_dimension_error() {
    let def = orders_view();
    let req = QueryRequest {
        dimensions: vec!["region".to_string(), "region".to_string()],
        metrics: vec!["total_revenue".to_string()],
    };
    let result = expand("orders", &def, &req);
    assert!(result.is_err());
    match result.unwrap_err() {
        ExpandError::DuplicateDimension { view_name, name } => {
            assert_eq!(view_name, "orders");
            assert_eq!(name, "region");
        }
        other => panic!("Expected DuplicateDimension, got: {other:?}"),
    }
}

#[test]
fn test_duplicate_metric_error() {
    let def = orders_view();
    let req = QueryRequest {
        dimensions: vec![],
        metrics: vec!["total_revenue".to_string(), "total_revenue".to_string()],
    };
    let result = expand("orders", &def, &req);
    assert!(result.is_err());
    match result.unwrap_err() {
        ExpandError::DuplicateMetric { view_name, name } => {
            assert_eq!(view_name, "orders");
            assert_eq!(name, "total_revenue");
        }
        other => panic!("Expected DuplicateMetric, got: {other:?}"),
    }
}

#[test]
fn test_case_insensitive_metric_lookup() {
    let def = SemanticViewDefinition {
        base_table: "orders".to_string(),
        dimensions: vec![],
        metrics: vec![Metric {
            name: "Total_Revenue".to_string(),
            expr: "sum(amount)".to_string(),
            source_table: None,
        }],
        filters: vec![],
        joins: vec![],
    };
    // Request uses lowercase "total_revenue" but definition has "Total_Revenue"
    let req = QueryRequest {
        dimensions: vec![],
        metrics: vec!["total_revenue".to_string()],
    };
    let sql = expand("orders", &def, &req).unwrap();
    // Should succeed and use the definition's name casing in the alias
    assert!(sql.contains("sum(amount) AS \"Total_Revenue\""));
}

#[test]
fn test_error_display_messages() {
    // EmptyMetrics
    let err = ExpandError::EmptyMetrics {
        view_name: "orders".to_string(),
    };
    let msg = err.message();
    assert!(msg.contains("orders"));
    assert!(msg.contains("at least one metric is required"));

    // UnknownDimension with suggestion
    let err = ExpandError::UnknownDimension {
        view_name: "orders".to_string(),
        name: "reigon".to_string(),
        available: vec!["region".to_string(), "status".to_string()],
        suggestion: Some("region".to_string()),
    };
    let msg = err.message();
    assert!(msg.contains("orders"));
    assert!(msg.contains("reigon"));
    assert!(msg.contains("region, status"));
    assert!(msg.contains("Did you mean 'region'?"));

    // UnknownDimension without suggestion
    let err = ExpandError::UnknownDimension {
        view_name: "orders".to_string(),
        name: "xyzzy".to_string(),
        available: vec!["region".to_string()],
        suggestion: None,
    };
    let msg = err.message();
    assert!(msg.contains("xyzzy"));
    assert!(!msg.contains("Did you mean"));

    // UnknownMetric with suggestion
    let err = ExpandError::UnknownMetric {
        view_name: "orders".to_string(),
        name: "totl_revenue".to_string(),
        available: vec!["total_revenue".to_string()],
        suggestion: Some("total_revenue".to_string()),
    };
    let msg = err.message();
    assert!(msg.contains("orders"));
    assert!(msg.contains("totl_revenue"));
    assert!(msg.contains("Did you mean 'total_revenue'?"));

    // DuplicateDimension
    let err = ExpandError::DuplicateDimension {
        view_name: "orders".to_string(),
        name: "region".to_string(),
    };
    let msg = err.message();
    assert!(msg.contains("orders"));
    assert!(msg.contains("duplicate dimension 'region'"));

    // DuplicateMetric
    let err = ExpandError::DuplicateMetric {
        view_name: "orders".to_string(),
        name: "total_revenue".to_string(),
    };
    let msg = err.message();
    assert!(msg.contains("orders"));
    assert!(msg.contains("duplicate metric 'total_revenue'"));
}

#[test]
fn test_join_included_when_dimension_needs_it() {
    let def = SemanticViewDefinition {
        base_table: "orders".to_string(),
        dimensions: vec![Dimension {
            name: "customer_name".to_string(),
            expr: "customers.name".to_string(),
            source_table: Some("customers".to_string()),
        }],
        metrics: vec![Metric {
            name: "total_revenue".to_string(),
            expr: "sum(amount)".to_string(),
            source_table: None,
        }],
        filters: vec![],
        joins: vec![Join {
            table: "customers".to_string(),
            on: "orders.customer_id = customers.id".to_string(),
        }],
    };
    let req = QueryRequest {
        dimensions: vec!["customer_name".to_string()],
        metrics: vec!["total_revenue".to_string()],
    };
    let sql = expand("orders", &def, &req).unwrap();
    assert!(sql.contains("JOIN \"customers\" ON orders.customer_id = customers.id"));
}

#[test]
fn test_join_excluded_when_not_needed() {
    let def = SemanticViewDefinition {
        base_table: "orders".to_string(),
        dimensions: vec![
            Dimension {
                name: "region".to_string(),
                expr: "region".to_string(),
                source_table: None,
            },
            Dimension {
                name: "customer_name".to_string(),
                expr: "customers.name".to_string(),
                source_table: Some("customers".to_string()),
            },
        ],
        metrics: vec![Metric {
            name: "total_revenue".to_string(),
            expr: "sum(amount)".to_string(),
            source_table: None,
        }],
        filters: vec![],
        joins: vec![Join {
            table: "customers".to_string(),
            on: "orders.customer_id = customers.id".to_string(),
        }],
    };
    // Request only "region" which comes from base table
    let req = QueryRequest {
        dimensions: vec!["region".to_string()],
        metrics: vec!["total_revenue".to_string()],
    };
    let sql = expand("orders", &def, &req).unwrap();
    assert!(
        !sql.contains("JOIN"),
        "JOIN should not appear when only base-table dims/metrics requested"
    );
}

#[test]
fn test_join_included_when_metric_needs_it() {
    let def = SemanticViewDefinition {
        base_table: "orders".to_string(),
        dimensions: vec![Dimension {
            name: "region".to_string(),
            expr: "region".to_string(),
            source_table: None,
        }],
        metrics: vec![Metric {
            name: "customer_count".to_string(),
            expr: "count(distinct customers.id)".to_string(),
            source_table: Some("customers".to_string()),
        }],
        filters: vec![],
        joins: vec![Join {
            table: "customers".to_string(),
            on: "orders.customer_id = customers.id".to_string(),
        }],
    };
    let req = QueryRequest {
        dimensions: vec!["region".to_string()],
        metrics: vec!["customer_count".to_string()],
    };
    let sql = expand("orders", &def, &req).unwrap();
    assert!(sql.contains("JOIN \"customers\" ON orders.customer_id = customers.id"));
}

#[test]
fn test_transitive_join_resolution() {
    let def = SemanticViewDefinition {
        base_table: "orders".to_string(),
        dimensions: vec![Dimension {
            name: "region_name".to_string(),
            expr: "regions.name".to_string(),
            source_table: Some("regions".to_string()),
        }],
        metrics: vec![Metric {
            name: "total_revenue".to_string(),
            expr: "sum(amount)".to_string(),
            source_table: None,
        }],
        filters: vec![],
        joins: vec![
            Join {
                table: "customers".to_string(),
                on: "orders.customer_id = customers.id".to_string(),
            },
            Join {
                table: "regions".to_string(),
                on: "customers.region_id = regions.id".to_string(),
            },
        ],
    };
    let req = QueryRequest {
        dimensions: vec!["region_name".to_string()],
        metrics: vec!["total_revenue".to_string()],
    };
    let sql = expand("orders", &def, &req).unwrap();
    // regions depends on customers (ON clause references customers), so both must be included
    assert!(
        sql.contains("JOIN \"customers\""),
        "transitive dependency 'customers' must be included"
    );
    assert!(
        sql.contains("JOIN \"regions\""),
        "directly needed 'regions' must be included"
    );
}

#[test]
fn test_joins_emitted_in_declaration_order() {
    let def = SemanticViewDefinition {
        base_table: "orders".to_string(),
        dimensions: vec![Dimension {
            name: "region_name".to_string(),
            expr: "regions.name".to_string(),
            source_table: Some("regions".to_string()),
        }],
        metrics: vec![Metric {
            name: "total_revenue".to_string(),
            expr: "sum(amount)".to_string(),
            source_table: None,
        }],
        filters: vec![],
        joins: vec![
            Join {
                table: "customers".to_string(),
                on: "orders.customer_id = customers.id".to_string(),
            },
            Join {
                table: "regions".to_string(),
                on: "customers.region_id = regions.id".to_string(),
            },
        ],
    };
    let req = QueryRequest {
        dimensions: vec!["region_name".to_string()],
        metrics: vec!["total_revenue".to_string()],
    };
    let sql = expand("orders", &def, &req).unwrap();
    let customers_pos = sql
        .find("JOIN \"customers\"")
        .expect("customers join missing");
    let regions_pos = sql.find("JOIN \"regions\"").expect("regions join missing");
    assert!(
        customers_pos < regions_pos,
        "customers must appear before regions (declaration order)"
    );
}

#[test]
fn test_no_joins_declared_no_error() {
    let def = SemanticViewDefinition {
        base_table: "orders".to_string(),
        dimensions: vec![Dimension {
            name: "region".to_string(),
            expr: "region".to_string(),
            source_table: None,
        }],
        metrics: vec![Metric {
            name: "total_revenue".to_string(),
            expr: "sum(amount)".to_string(),
            source_table: None,
        }],
        filters: vec![],
        joins: vec![],
    };
    let req = QueryRequest {
        dimensions: vec!["region".to_string()],
        metrics: vec!["total_revenue".to_string()],
    };
    let sql = expand("orders", &def, &req).unwrap();
    assert!(
        !sql.contains("JOIN"),
        "no JOIN clauses when no joins declared"
    );
}

#[test]
fn test_mixed_base_and_joined_dimensions() {
    let def = SemanticViewDefinition {
        base_table: "orders".to_string(),
        dimensions: vec![
            Dimension {
                name: "region".to_string(),
                expr: "region".to_string(),
                source_table: None,
            },
            Dimension {
                name: "customer_name".to_string(),
                expr: "customers.name".to_string(),
                source_table: Some("customers".to_string()),
            },
        ],
        metrics: vec![Metric {
            name: "total_revenue".to_string(),
            expr: "sum(amount)".to_string(),
            source_table: None,
        }],
        filters: vec![],
        joins: vec![
            Join {
                table: "customers".to_string(),
                on: "orders.customer_id = customers.id".to_string(),
            },
            Join {
                table: "products".to_string(),
                on: "orders.product_id = products.id".to_string(),
            },
        ],
    };
    // Request base-table "region" AND joined "customer_name"
    let req = QueryRequest {
        dimensions: vec!["region".to_string(), "customer_name".to_string()],
        metrics: vec!["total_revenue".to_string()],
    };
    let sql = expand("orders", &def, &req).unwrap();
    assert!(
        sql.contains("JOIN \"customers\""),
        "customers join needed for customer_name"
    );
    assert!(
        !sql.contains("JOIN \"products\""),
        "products join NOT needed"
    );
}
