//! Error taxonomy of the store core.
//!
//! Every failure of the core is a typed result surfaced to the caller; the
//! core never prints and never terminates the process.

use vstd::prelude::*;

verus! {

/// Input-safety failure of a externally supplied name.
#[derive(Clone, Copy, Debug, PartialEq, Eq, Structural)]
pub enum PathError {
    /// The raw name is `..`, starts with `../`, contains `/../`, or ends
    /// with `/..`.
    Traversal,
}

/// Failure of recipient resolution.
#[derive(Clone, Copy, Debug, PartialEq, Eq, Structural)]
pub enum ResolveError {
    /// No directory from the target up to the store root carries a
    /// recipient file.
    NotInitialized,
}

/// Failure of an entry operation.
#[derive(Clone, Debug)]
pub enum EntryError {
    /// The name failed path validation.
    InvalidName(PathError),
    /// The entry to read or remove does not exist.
    NotFound,
    /// The entry to create already exists and overwriting was not requested.
    AlreadyExists,
    /// No recipient configuration encloses the entry's directory.
    NotInitialized,
    /// The encryption backend reported a failure; the message is its own.
    BackendFailure(String),
}

/// Failure of a re-encryption run.
#[derive(Clone, Debug)]
pub enum ReencryptError {
    /// No recipient configuration encloses the subtree root.
    NotInitialized,
    /// The first step that failed: the entry it failed on and the backend's
    /// message. Entries converted before it stay converted.
    StepFailed { path: Vec<String>, cause: String },
}

/// Failure of a store lifecycle transition.
#[derive(Clone, Debug)]
pub enum LifecycleError {
    /// Deinit was asked of a directory that has no recipient file.
    NotInitialized,
    /// The signing backend reported a failure; the message is its own.
    BackendFailure(String),
}

/// Failure of a namespace search.
#[derive(Clone, Copy, Debug, PartialEq, Eq, Structural)]
pub enum SearchError {
    /// The list of search terms was empty.
    EmptyQuery,
}

} // verus!
