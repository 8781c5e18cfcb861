//! A decoder for a small textual graph-description language, together with
//! the persistent `Value`/`Graph` data model it produces.
//!
//! Input text describes named bindings; each binds an edge (destination,
//! label, source) into a graph whose equality ignores insertion order.

pub mod gg;
pub mod graph;
pub mod vm;
