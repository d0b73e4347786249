//! The errors that set operations report.

use vstd::prelude::*;

verus! {

/// Errors that may occur when handling Golomb-coded sets.
#[derive(Debug, Clone, Copy, PartialEq, Eq)]
pub enum GcsError {
    /// An insertion was attempted on a set that already holds as many
    /// elements as it was created for.
    LimitReached,
    /// A bit stream is not a Golomb-Rice encoding of a set with the given
    /// parameters.
    DecodeError,
}

impl GcsError {
    /// A short description of the error.
    pub fn description(&self) -> (text: &'static str)
        ensures
            text@ == match *self {
                GcsError::LimitReached => "Limit for the number of elements has been reached"@,
                GcsError::DecodeError => "Decoding failed due to invalid Golomb-Rice bit sequence"@,
            },
    {
        match self {
            GcsError::LimitReached => "Limit for the number of elements has been reached",
            GcsError::DecodeError => "Decoding failed due to invalid Golomb-Rice bit sequence",
        }
    }
}

} // verus!
