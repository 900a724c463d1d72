//! Laying a backward tree out as a table, and writing that table out.

pub mod constants;
pub mod graph;
pub mod table;
