//! Domain outcome of a command or asynchronous operation.

use vstd::prelude::*;

verus! {

/// Result of a command or asynchronous operation (domain-meaningful,
/// not HTTP-style).
#[derive(Clone, Debug, PartialEq, Eq, Hash)]
#[non_exhaustive]
pub enum Outcome {
    /// The operation completed successfully.
    Success,
    /// The operation failed with the given human-readable message.
    Failure {
        /// Short human-readable description of the failure.
        message: String,
    },
    /// The operation was cancelled before it completed.
    Cancelled,
    /// The operation did not complete within its deadline.
    TimedOut,
}

impl Outcome {
    /// True iff the operation succeeded.
    pub fn is_success(&self) -> (r: bool)
        ensures
            r == (*self is Success),
    {
        matches!(self, Outcome::Success)
    }

    /// True iff the operation reached a non-success terminal state.
    pub fn is_failure(&self) -> (r: bool)
        ensures
            r == !(*self is Success),
    {
        match self {
            Outcome::Success => false,
            Outcome::Failure { .. } => true,
            Outcome::Cancelled => true,
            Outcome::TimedOut => true,
        }
    }
}

} // verus!
