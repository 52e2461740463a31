//! What a query asks for.

use vstd::prelude::*;

verus! {

/// The kind of match that a query asks for, and the kind that it found.
#[derive(Debug, Clone, Copy, PartialEq, Eq, Structural)]
pub enum MatchType {
    /// The prefix itself.
    ExactMatch,
    /// The longest prefix that covers the prefix.
    LongestMatch,
    /// No prefix. As a request: the prefixes below the prefix are wanted,
    /// whether or not a prefix matches.
    EmptyMatch,
}

/// The options of a query.
#[derive(Debug, Clone, Copy)]
pub struct MatchOptions {
    /// The kind of match asked for.
    pub match_type: MatchType,
    /// Kept for stores that hold several records for one prefix; this store
    /// holds one and does not look at the option.
    pub include_all_records: bool,
    /// Whether the prefixes that cover the search prefix are wanted.
    pub include_less_specifics: bool,
    /// Whether the prefixes below the search prefix are wanted.
    pub include_more_specifics: bool,
}

} // verus!
