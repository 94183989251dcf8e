//! Configuration errors that abort a whole search before any scanning.

use vstd::prelude::*;

verus! {

/// A pre-scan validation failure. Per-line and per-file failures are never
/// errors; only these abort a run.
#[derive(Debug)]
pub enum SearchError {
    /// The query list was empty.
    EmptyQuery,
    /// A query term failed to compile as a regular expression.
    InvalidRegex { pattern: String },
}

impl SearchError {
    /// A human-readable description of the error.
    pub fn message(&self) -> (r: String)
        ensures
            match *self {
                SearchError::EmptyQuery => r@ == "Search query cannot be empty"@,
                SearchError::InvalidRegex { pattern } => r@ == "Invalid regex pattern: "@
                    + pattern@,
            },
    {
        match self {
            SearchError::EmptyQuery => {
                let mut s = String::new();
                s.append("Search query cannot be empty");
                s
            },
            SearchError::InvalidRegex { pattern } => {
                let mut s = String::new();
                s.append("Invalid regex pattern: ");
                s.append(pattern.as_str());
                s
            },
        }
    }
}

} // verus!
