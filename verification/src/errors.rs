//! The library's error type.

use vstd::prelude::*;

verus! {

/// The error type of the `polars` data-frame library, carried through unchanged.
#[verifier::external_type_specification]
#[verifier::external_body]
pub struct ExPolarsError(polars::error::PolarsError);

/// The error of a `tokio` task that could not be joined, carried through unchanged.
#[verifier::external_type_specification]
#[verifier::external_body]
pub struct ExJoinError(tokio::task::JoinError);

/// Errors raised while building or processing the borrowings.
#[derive(Debug)]
pub enum BorrowingError {
    /// A data-frame operation failed.
    PolarsError(polars::error::PolarsError),
    /// A failure described by a message.
    Generic(String),
    /// A background task could not be joined.
    JoinError(tokio::task::JoinError),
}

impl BorrowingError {
    /// Builds the message-carrying variant from a string slice.
    pub fn generic(message: &str) -> (err: BorrowingError)
        ensures
            err matches BorrowingError::Generic(m) && m@ == message@,
    {
        BorrowingError::Generic(message.to_owned())
    }
}

} // verus!
