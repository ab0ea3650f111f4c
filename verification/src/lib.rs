//! A small relational engine kept entirely in memory.
//!
//! Statements are split into tokens, parsed into typed queries and run
//! against tables. Every table stores its rows in a B-tree keyed by the
//! primary key; the tree is the heart of the crate and carries the
//! structural invariants that the rest relies on.

pub mod engine;
pub mod parser;
