pub mod error;
pub mod explain;
