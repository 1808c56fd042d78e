//! Recursive-descent parser for JSON dictionaries
pub mod dict;
pub mod stroke;
