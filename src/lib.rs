//! Codebase selection engine: glob-based inclusion decisions with explicit
//! per-path overrides, a lazily loaded file tree with selection propagation,
//! a live search filter over that tree, and template variable bookkeeping.

pub mod file_tree;
pub mod pattern;
pub mod search;
pub mod session;
pub mod text;
pub mod variable;
