//! The errors of the store.

use vstd::prelude::*;

verus! {

/// The ways in which an operation on the store can fail.
#[derive(Debug, Clone, Copy, PartialEq, Eq, Structural)]
pub enum PrefixStoreError {
    /// The bounded number of retries for publishing a record was exhausted.
    NodeCreationMaxRetryError,
    /// A traversal asked for a node that is not in the store.
    NodeNotFound,
    /// The store is not completely constructed yet.
    StoreNotReadyError,
    /// A decision was taken on paths that have been replaced since.
    PathSelectionOutdated,
    /// The prefix that a query is anchored at is not in the store.
    PrefixNotFound,
}

impl PrefixStoreError {
    /// The sentence that describes the error.
    pub open spec fn description(self) -> Seq<char> {
        match self {
            PrefixStoreError::NodeCreationMaxRetryError => {
                "Error: Maximum number of retries for node creation reached."@
            },
            PrefixStoreError::NodeNotFound => "Error: Node not found."@,
            PrefixStoreError::StoreNotReadyError => "Error: Store isn't ready yet."@,
            PrefixStoreError::PathSelectionOutdated => {
                "Error: The Path Selection process is based on outdated paths."@
            },
            PrefixStoreError::PrefixNotFound => "Error: The Prefix cannot be found."@,
        }
    }

    /// The sentence that describes the error, as a string.
    pub fn message(&self) -> (r: String)
        ensures
            r@ == self.description(),
    {
        match self {
            PrefixStoreError::NodeCreationMaxRetryError => {
                "Error: Maximum number of retries for node creation reached.".to_owned()
            },
            PrefixStoreError::NodeNotFound => "Error: Node not found.".to_owned(),
            PrefixStoreError::StoreNotReadyError => "Error: Store isn't ready yet.".to_owned(),
            PrefixStoreError::PathSelectionOutdated => {
                "Error: The Path Selection process is based on outdated paths.".to_owned()
            },
            PrefixStoreError::PrefixNotFound => "Error: The Prefix cannot be found.".to_owned(),
        }
    }
}

} // verus!
