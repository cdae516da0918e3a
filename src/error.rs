use vstd::prelude::*;

verus! {

/// What went wrong during an encode or a decode.
///
/// Errors carry no position or path: only the kind of failure.
#[derive(Clone, Copy, Debug, PartialEq, Eq, Structural)]
pub enum ErrorKind {
    /// A value of one kind was found where another was expected.
    TypeMismatch,
    /// A sequence had too few or too many elements for its target.
    Arity,
    /// A required field was absent from a map.
    MissingField,
    /// A variant tag named no known variant.
    UnknownVariant,
    /// The input bytes are truncated or do not follow the format.
    Malformed,
    /// Containers are nested deeper than the decoder accepts.
    DepthExceeded,
    /// Bytes remain after a complete top-level value.
    TrailingData,
    /// The value cannot be represented in the output format.
    Unrepresentable,
}

/// The error of every fallible operation of this library.
#[derive(Clone, Copy, Debug, PartialEq, Eq, Structural)]
pub struct Error {
    pub kind: ErrorKind,
}

impl Error {
    pub fn new(kind: ErrorKind) -> (r: Error)
        ensures
            r.kind == kind,
    {
        Error { kind }
    }

    /// A short description of the error.
    pub fn message(&self) -> (r: &'static str) {
        match self.kind {
            ErrorKind::TypeMismatch => "unexpected kind of value",
            ErrorKind::Arity => "wrong number of elements",
            ErrorKind::MissingField => "missing field",
            ErrorKind::UnknownVariant => "unknown variant",
            ErrorKind::Malformed => "malformed input",
            ErrorKind::DepthExceeded => "nesting too deep",
            ErrorKind::TrailingData => "trailing data after value",
            ErrorKind::Unrepresentable => "value cannot be represented",
        }
    }
}

} // verus!
