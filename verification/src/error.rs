//! The closed set of errors the library reports. Each variant carries
//! the offending value rather than pre-formatted prose, so callers can
//! pattern-match on the kind.

use vstd::prelude::*;

verus! {

/// What can go wrong when parsing lines or mutating a collection.
#[derive(Debug, Clone, PartialEq, Eq)]
pub enum TodoError {
    /// A line could not be interpreted as a task at all: the input was
    /// empty or whitespace-only, or the task was structurally empty
    /// after token extraction. Carries the offending line.
    ParseError(String),
    /// A string handed to the date parser did not match the
    /// `YYYY-MM-DD` grammar or was not a calendar-valid date. Carries
    /// the offending string.
    InvalidDateFormat(String),
    /// A string handed to the priority parser was not shaped `(X)`
    /// with `X` an uppercase ASCII letter. Carries the offending
    /// string.
    InvalidPriority(String),
    /// An indexed removal was asked for an index at or past the end of
    /// the collection. Carries the offending index.
    IndexOutOfBounds(usize),
}

} // verus!
