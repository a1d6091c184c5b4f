//! Errors of the library.

use vstd::prelude::*;

verus! {

/// The part of the program that an error comes from.
#[derive(Debug, Clone, Copy, PartialEq, Eq, Structural)]
pub enum ErrorCode {
    Database,
    Imap,
    Io,
}

/// An error with what it says to the user.
#[derive(Debug, PartialEq, Eq)]
pub struct CriewError {
    pub code: ErrorCode,
    pub message: String,
}

impl CriewError {
    /// An error with a message.
    pub fn new(code: ErrorCode, message: String) -> (r: CriewError)
        ensures
            r.code == code,
            r.message == message,
    {
        CriewError { code, message }
    }
}

} // verus!
