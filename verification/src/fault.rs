//! The errors that end a connection or an exchange.
use vstd::prelude::*;

verus! {

/// The kind of an error that ends a connection.
#[derive(Clone, Copy, Debug, PartialEq, Eq, Structural)]
pub enum ErrorKind {
    InvalidData,
    PermissionDenied,
    TimedOut,
    UnexpectedEof,
    WouldBlock,
    InvalidInput,
    Other,
}

/// An error that ends a connection or an exchange.
#[derive(Clone, Copy, Debug, PartialEq, Eq)]
pub struct ConnectionError {
    pub kind: ErrorKind,
    pub text: &'static str,
}

impl ConnectionError {
    /// Whether this is the error of the given kind and text.
    pub open spec fn says(self, kind: ErrorKind, text: Seq<char>) -> bool {
        self.kind == kind && self.text@ == text
    }
}

/// An error of the given kind and text.
pub fn failure(kind: ErrorKind, text: &'static str) -> (error: ConnectionError)
    ensures
        error.says(kind, text@),
{
    ConnectionError { kind, text }
}

/// An error says one thing only: its kind and its text are those it was made of.
pub proof fn law_error_says_one_thing(
    error: ConnectionError,
    kind: ErrorKind,
    text: Seq<char>,
    other_kind: ErrorKind,
    other_text: Seq<char>,
)
    requires
        error.says(kind, text),
        error.says(other_kind, other_text),
    ensures
        kind == other_kind,
        text == other_text,
        error.kind == kind,
        error.text@ == text,
{
}

} // verus!
