use vstd::prelude::*;

verus! {

/// The kinds of failure the memo store reports.
#[derive(Debug, Clone, Copy, PartialEq, Eq, Structural)]
pub enum MemoError {
    /// A malformed file name, a missing path component, or mismatched roots.
    InvalidValue,
    /// A file could not be opened or read.
    IOError,
    /// A condition that should not occur in normal operation.
    Unexpected,
}

impl MemoError {
    /// The human-readable message for this error kind.
    pub fn message(&self) -> (r: &'static str)
        ensures
            *self == MemoError::InvalidValue ==> r@ == "Invalid value"@,
            *self == MemoError::IOError ==> r@ == "IO error"@,
            *self == MemoError::Unexpected ==> r@ == "Unexpected error"@,
    {
        match self {
            MemoError::InvalidValue => "Invalid value",
            MemoError::IOError => "IO error",
            MemoError::Unexpected => "Unexpected error",
        }
    }
}

} // verus!
