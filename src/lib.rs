//! Parsing of note sections and reconciliation of their cross-references.
pub mod section;
pub mod text;
