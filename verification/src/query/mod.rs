//! The query language.

pub mod joining;
pub mod laws;
pub mod parse;
pub mod patterns;
pub mod sizes;

pub use parse::{parse_query, ParsedQuery, QueryError};
