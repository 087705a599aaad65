//! Errors reported by the library: a kind and a message.
use vstd::prelude::*;

verus! {

/// What went wrong, in the categories the command-line tool reports.
#[derive(Debug, Clone, Copy, PartialEq, Eq, Structural)]
pub enum ErrorKind {
    InvalidInput,
    NotFound,
    WouldBlock,
    AlreadyExists,
    InvalidData,
    Other,
}

/// An error with its kind and the message shown to the user.
#[derive(Debug)]
pub struct HitchError {
    pub kind: ErrorKind,
    pub message: String,
}

impl HitchError {
    pub fn new(kind: ErrorKind, message: &str) -> (r: Self)
        ensures
            r.kind == kind,
            r.message@ == message@,
    {
        HitchError { kind, message: message.to_owned() }
    }

    /// An error whose message is already built.
    pub fn with_message(kind: ErrorKind, message: String) -> (r: Self)
        ensures
            r.kind == kind,
            r.message == message,
    {
        HitchError { kind, message }
    }

    pub fn kind(&self) -> (r: ErrorKind)
        ensures
            r == self.kind,
    {
        self.kind
    }

    /// The message, as the error's `Display` would print it.
    pub fn to_string(&self) -> (r: String)
        ensures
            r@ == self.message@,
    {
        self.message.clone()
    }
}

} // verus!
