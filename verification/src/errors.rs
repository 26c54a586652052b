//! The error values returned by the fallible heap operations.

use vstd::prelude::*;

verus! {

/// The kinds of failure a heap operation can report.
#[derive(Debug, Copy, Clone)]
pub enum ErrorKind {
    /// A supplied position was at or beyond the end of the heap.
    InvalidIndex,
    /// The operation needed at least one element, but the heap held none.
    EmptyHeap,
}

/// The error type used by a heap: a kind together with a short
/// human-readable message.
#[derive(Debug, Copy, Clone)]
pub struct Error {
    kind: ErrorKind,
    message: &'static str,
}

impl Error {
    /// The kind of failure this error reports.
    pub closed spec fn spec_kind(&self) -> ErrorKind {
        self.kind
    }

    /// The message carried by this error.
    pub closed spec fn spec_message(&self) -> &'static str {
        self.message
    }

    /// Creates and returns a new `Error` holding the given kind and message.
    pub fn new(kind: ErrorKind, message: &'static str) -> (r: Self)
        ensures
            r.spec_kind() == kind,
            r.spec_message() == message,
    {
        Error { kind, message }
    }

    /// Returns the kind of failure this error reports.
    pub fn kind(&self) -> (k: ErrorKind)
        ensures
            k == self.spec_kind(),
    {
        self.kind
    }

    /// Returns the message carried by this error.
    pub fn message(&self) -> (m: &'static str)
        ensures
            m == self.spec_message(),
    {
        self.message
    }
}

} // verus!
