//! An immutable, prefix-accelerated string whose short values live inline
//! and whose long values share one reference-counted buffer.

pub mod lex;
pub mod arc;

pub use arc::{ContentTooLarge, UmbraArcString};
