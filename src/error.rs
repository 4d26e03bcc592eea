//! What can go wrong while reading and checking a bibliography.
use vstd::prelude::*;

verus! {

/// A problem found while checking entries for duplicates.
#[derive(Debug, Clone)]
pub enum Problem {
    /// Two entries share this (non-empty) key.
    DuplicateKey(String),
    /// Two entries share this DOI.
    DuplicateDoi(String),
    /// The entry with this key has a `doi` field in which no DOI can be found.
    UnparseableDoi(String),
}

/// Why a bibliography was refused.
#[derive(Debug, Clone)]
pub enum BibError {
    /// A line outside any entry does not start one with `@`.
    LineOutsideEntry(String),
    /// A line that starts an entry has no opening brace.
    MissingOpeningBrace(String),
    /// An entry has no key, and empty keys are not permitted.
    MissingKey(String),
    /// A closing brace came before its opening brace, in this line.
    ClosedBeforeOpened(String),
    /// The input ended inside an entry.
    UnexpectedEndOfInput,
    /// The first author holds more than one comma.
    AmbiguousAuthor(String),
    /// Every duplicate or unreadable DOI that the checks found.
    Validation(Vec<Problem>),
}

} // verus!
