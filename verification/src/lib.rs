//! Deep cloning of scene documents: trees of typed, named nodes with keyed
//! properties, copied under freshly issued identities.
//!
//! `orchestrator::sigma` clones a whole document, `cloner::skibidi` one
//! subtree, `value::sanitize` one property value; `laws` holds what is
//! proved of every clone.

pub mod aggregator;
pub mod arena;
pub mod builder;
pub mod cloner;
pub mod document;
pub mod keys;
pub mod laws;
pub mod mint;
pub mod orchestrator;
mod outside;
pub mod properties;
pub mod tree;
pub mod value;
