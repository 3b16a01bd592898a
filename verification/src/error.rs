//! What a request fails with.

use vstd::prelude::*;

verus! {

/// The error of a request.
#[derive(Debug)]
pub enum ApiError {
    /// The server could not do its work; the text says which step failed.
    Internal(String),
}

impl ApiError {
    /// The text of the error.
    pub open spec fn text(self) -> Seq<char> {
        match self {
            ApiError::Internal(message) => message@,
        }
    }

    /// An internal error with this text.
    pub fn internal(message: String) -> (r: ApiError)
        ensures
            r == ApiError::Internal(message),
            r.text() == message@,
    {
        ApiError::Internal(message)
    }

    /// An internal error that names a step and gives the cause of its failure.
    pub fn failed(step: &str, cause: &str) -> (r: ApiError)
        ensures
            r is Internal,
            r.text() == step@ + cause@,
    {
        ApiError::internal(String::from_str(step).concat(cause))
    }

    /// The text of the error.
    pub fn message(&self) -> (r: &str)
        ensures
            r@ == self.text(),
    {
        match self {
            ApiError::Internal(message) => message.as_str(),
        }
    }
}

} // verus!
