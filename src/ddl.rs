pub mod describe;
pub mod list;
