//! The streaming result protocol shared by every matcher: a matcher either
//! consumes a prefix of its input (`Done`), fails at the current position
//! (`Error`), or cannot decide with the bytes available (`Incomplete`).

use vstd::prelude::*;

verus! {

/// Why a match attempt failed.
///
/// `NoMatch` is an ordinary, recoverable outcome that a host parser uses for
/// backtracking; it carries no partial progress. `InvalidCandidateSet` is a
/// configuration error raised only while building a candidate set, never
/// during matching.
#[derive(Clone, Copy, Debug, PartialEq, Eq, Structural)]
pub enum MatchError {
    NoMatch,
    InvalidCandidateSet,
}

/// Tri-state result of a matcher on a byte buffer.
///
/// `Done` reports how many input bytes the match consumed (the unconsumed
/// remainder is the suffix starting at `consumed`) together with a
/// matcher-specific value. `Incomplete` is not a failure: it asks the caller
/// to supply more input and retry from the same starting position; `needed`
/// is a hint of how many further bytes are required, when known.
#[derive(Debug, PartialEq, Eq)]
pub enum MatchOutcome<T> {
    Done { consumed: usize, value: T },
    Error { kind: MatchError },
    Incomplete { needed: Option<usize> },
}

impl<T> MatchOutcome<T> {
    /// True only for a successful match.
    pub fn is_done(&self) -> (r: bool)
        ensures
            r == (self is Done),
    {
        match self {
            MatchOutcome::Done { .. } => true,
            _ => false,
        }
    }
}

} // verus!
