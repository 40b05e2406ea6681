//! Error model of the library.
//!
//! Every fallible operation returns a `LinderaError` carrying the kind of the
//! failure and a human-readable message.  Errors arise only from construction
//! and loading: tokenization of well-formed input on a loaded dictionary never
//! fails.

use vstd::prelude::*;

verus! {

/// The kind of a failure.
#[derive(Clone, Copy, Debug, PartialEq, Eq, Structural)]
pub enum LinderaErrorKind {
    /// An invalid construction argument, such as a malformed regular expression.
    Args,
    /// A corrupt or version-incompatible binary blob or configuration document.
    Deserialize,
    /// A value that could not be rendered.
    Serialize,
    /// A failure reported by the surrounding process while reading input.
    Io,
}

/// A failure: its kind together with a message.
#[derive(Clone, Debug)]
pub struct LinderaError {
    pub kind: LinderaErrorKind,
    pub message: String,
}

impl LinderaErrorKind {
    /// Wraps a message into an error of this kind.
    pub fn with_error(self, message: String) -> (r: LinderaError)
        ensures
            r.kind == self,
            r.message == message,
    {
        LinderaError { kind: self, message }
    }
}

impl LinderaError {
    /// The kind of the failure.
    pub fn kind(&self) -> (r: LinderaErrorKind)
        ensures
            r == self.kind,
    {
        self.kind
    }
}

} // verus!
