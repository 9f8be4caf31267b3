//! The kinds of failure that the repository and the sync engine report.
//!
//! Failures of the file system and of the database are not among them: the
//! library touches neither.

use vstd::prelude::*;

verus! {

/// What went wrong, as the caller is told.
#[derive(Debug, Clone, Copy, PartialEq, Eq, Structural)]
pub enum FaiError {
    /// A blob, commit, peer or file is absent.
    NotFound,
    /// A commit was asked for with nothing staged.
    Empty,
    /// A digest is malformed, a manifest cannot be read, or a hash or a
    /// message is empty.
    Invalid,
    /// A short digest fits more than one commit.
    Conflict,
    /// A peer could not be dialled, or the protocol or the stream failed.
    Network,
    /// A request was not answered within its time.
    Timeout,
    /// The peer answered, but does not have what was asked for.
    Unavailable,
}

/// The short message for each kind of failure.
pub open spec fn message_of(e: FaiError) -> Seq<char> {
    match e {
        FaiError::NotFound => "not found"@,
        FaiError::Empty => "nothing to commit"@,
        FaiError::Invalid => "invalid input"@,
        FaiError::Conflict => "ambiguous commit prefix"@,
        FaiError::Network => "network failure"@,
        FaiError::Timeout => "request timed out"@,
        FaiError::Unavailable => "peer does not have the object"@,
    }
}

impl FaiError {
    /// A short message for the user.
    pub fn message(&self) -> (text: &'static str)
        ensures
            text@ == message_of(*self),
    {
        match self {
            FaiError::NotFound => "not found",
            FaiError::Empty => "nothing to commit",
            FaiError::Invalid => "invalid input",
            FaiError::Conflict => "ambiguous commit prefix",
            FaiError::Network => "network failure",
            FaiError::Timeout => "request timed out",
            FaiError::Unavailable => "peer does not have the object",
        }
    }
}

} // verus!
