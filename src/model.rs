use vstd::prelude::*;

verus! {

/// A named SQL column expression used as a dimension.
#[derive(Debug, Clone)]
pub struct Dimension {
    pub name: String,
    pub expr: String,
    /// The joined table this dimension comes from; `None` means the base table.
    pub source_table: Option<String>,
}

/// A named aggregation expression used as a metric.
#[derive(Debug, Clone)]
pub struct Metric {
    pub name: String,
    pub expr: String,
    /// The joined table this metric comes from; `None` means the base table.
    pub source_table: Option<String>,
}

/// A JOIN relationship between the base table and another table.
#[derive(Debug, Clone)]
pub struct Join {
    pub table: String,
    pub on: String,
}

/// Top-level definition of a semantic view.
#[derive(Debug, Clone)]
pub struct SemanticViewDefinition {
    pub base_table: String,
    pub dimensions: Vec<Dimension>,
    pub metrics: Vec<Metric>,
    pub filters: Vec<String>,
    pub joins: Vec<Join>,
}

/// The content of a dimension or a metric: both have the same shape.
pub struct FieldView {
    pub name: Seq<char>,
    pub expr: Seq<char>,
    pub source_table: Option<Seq<char>>,
}

/// The content of a join.
pub struct JoinView {
    pub table: Seq<char>,
    pub on: Seq<char>,
}

/// The content of a definition.
pub struct DefinitionView {
    pub base_table: Seq<char>,
    pub dimensions: Seq<FieldView>,
    pub metrics: Seq<FieldView>,
    pub filters: Seq<Seq<char>>,
    pub joins: Seq<JoinView>,
}

pub open spec fn opt_view(o: Option<String>) -> Option<Seq<char>> {
    match o {
        Some(s) => Some(s@),
        None => None,
    }
}

pub open spec fn strings_view(v: Seq<String>) -> Seq<Seq<char>> {
    v.map_values(|s: String| s@)
}

impl View for Dimension {
    type V = FieldView;

    open spec fn view(&self) -> FieldView {
        FieldView { name: self.name@, expr: self.expr@, source_table: opt_view(self.source_table) }
    }
}

impl View for Metric {
    type V = FieldView;

    open spec fn view(&self) -> FieldView {
        FieldView { name: self.name@, expr: self.expr@, source_table: opt_view(self.source_table) }
    }
}

impl View for Join {
    type V = JoinView;

    open spec fn view(&self) -> JoinView {
        JoinView { table: self.table@, on: self.on@ }
    }
}

impl View for SemanticViewDefinition {
    type V = DefinitionView;

    open spec fn view(&self) -> DefinitionView {
        DefinitionView {
            base_table: self.base_table@,
            dimensions: self.dimensions@.map_values(|d: Dimension| d@),
            metrics: self.metrics@.map_values(|m: Metric| m@),
            filters: strings_view(self.filters@),
            joins: self.joins@.map_values(|j: Join| j@),
        }
    }
}

} // verus!
