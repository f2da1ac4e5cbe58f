//! A namespaced catalog of attribute definitions: a hierarchical trie keyed by
//! dot-delimited paths, a schema model for attribute types, a catalog loader
//! fold, and a usage aggregator that folds observed column names back into the
//! matching attributes.

pub mod data;
pub mod honeycomb;
pub mod paths;
pub mod semconv;
pub mod text;
