//! Storage for outlines and their respective commands
pub mod format;
pub mod tree;
