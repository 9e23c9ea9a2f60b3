//! A hierarchical configuration store: named elements arranged in a tree,
//! each carrying a value and string metadata, with lookups by path, by
//! predicate over descendants and ancestors, and a loader from JSON text.

pub mod config;
