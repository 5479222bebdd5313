//! Store-management core of a local encrypted secret store.
//!
//! Secrets are individually encrypted files addressed by hierarchical names.
//! This crate holds the verified logic: path-safety validation, per-subtree
//! recipient resolution, entry create/read/delete on an in-memory model of the
//! store, namespace rendering and search, a re-encryption session that
//! retargets every entry under a subtree, and the init/deinit lifecycle of the
//! per-directory recipient configuration.
//!
//! The encryption, signing and history backends are external collaborators:
//! callers run them and hand their results to the functions here as plain
//! values.

pub mod entry_ops;
pub mod errors;
pub mod lifecycle;
pub mod keyring;
pub mod model;
pub mod naming;
pub mod paths;
pub mod reencrypt;
pub mod render;
pub mod resolver;
pub mod search;
pub mod text;
