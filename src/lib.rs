//! Structural code search: kind paths over syntax trees, alias resolution,
//! pattern matching of nodes and rendering of matches with context.

pub mod text;
pub mod pattern;
pub mod tree;
pub mod render;
pub mod alias;
pub mod walk;
pub mod engine;
