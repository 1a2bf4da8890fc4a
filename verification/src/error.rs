//! The library's error type.

use vstd::prelude::*;

verus! {

/// What went wrong, with a message for the user.
#[derive(Debug, Clone)]
pub enum ErrorKind {
    /// The request or its input was rejected.
    InputError(String),
    /// An operation failed for another reason.
    OtherError(String),
    /// The file system was not in the expected state.
    FSError(String),
}

/// An input error carrying `message`.
pub fn input_error(message: &str) -> (e: ErrorKind)
    ensures
        e matches ErrorKind::InputError(m) && m@ == message@,
{
    ErrorKind::InputError(message.to_string())
}

} // verus!
