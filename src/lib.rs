//! Compiles recipe flow rules into a backward tree and lays that tree out
//! as a rectangular grid of spanning cells.

pub mod types;
pub mod checks;
pub mod render;
pub mod text;
pub mod parse;
