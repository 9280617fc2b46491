//! The guest's error type.

use vstd::prelude::*;

verus! {

/// A decoding error. Guests stay small, so an error is a fixed message and nothing else.
#[derive(Clone, Copy, Debug)]
pub struct GuestError {
    /// What went wrong.
    pub message: &'static str,
}

/// The result of a guest operation.
pub type GuestResult<T> = Result<T, GuestError>;

impl GuestError {
    /// The error with the given message, as a value of contracts.
    pub open spec fn of(message: &'static str) -> GuestError {
        GuestError { message }
    }

    /// Create an error with a fixed message.
    pub fn new(message: &'static str) -> (error: Self)
        ensures
            error == Self::of(message),
    {
        GuestError { message }
    }

    /// The message.
    pub fn message(&self) -> (message: &'static str)
        ensures
            message == self.message,
    {
        self.message
    }
}

} // verus!
