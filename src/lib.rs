pub mod catalog;
pub mod ddl;
pub mod expand;
pub mod joins;
pub mod json;
pub mod model;
pub mod query;
pub mod text;
