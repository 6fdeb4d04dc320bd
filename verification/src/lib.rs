//! Parsing strings against `format()`-style templates: the inverse of
//! Python's `str.format()`.

pub mod api;
pub mod compiler;
pub mod datetime;
pub mod decimals;
pub mod engine;
pub mod numbers;
pub mod result;
pub mod text;
pub mod types;
pub mod nested;
pub mod parser;
