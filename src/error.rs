//! The library's error.

use vstd::prelude::*;

verus! {

/// Errors of this library.
#[derive(Debug)]
pub enum PurifyError {
    /// A file, when processed, is invalid according to a reason: the path or context first,
    /// then the reason.
    InvalidFile(String, String),
}

impl PurifyError {
    /// The path or context that the error names.
    pub open spec fn path_spec(&self) -> Seq<char> {
        match self {
            PurifyError::InvalidFile(path, _) => path@,
        }
    }

    /// The path or context that the error names.
    pub fn path(&self) -> (r: &String)
        ensures
            r@ == self.path_spec(),
    {
        match self {
            PurifyError::InvalidFile(path, _) => path,
        }
    }

    /// Why the file cannot be used.
    pub open spec fn reason_spec(&self) -> Seq<char> {
        match self {
            PurifyError::InvalidFile(_, reason) => reason@,
        }
    }

    /// Why the file cannot be used.
    pub fn reason(&self) -> (r: &String)
        ensures
            r@ == self.reason_spec(),
    {
        match self {
            PurifyError::InvalidFile(_, reason) => reason,
        }
    }
}

/// An `InvalidFile` error for `context` with the given reason.
pub fn invalid_file(context: &str, reason: &str) -> (r: PurifyError)
    ensures
        r.path_spec() == context@,
        r.reason_spec() == reason@,
{
    PurifyError::InvalidFile(context.to_owned(), reason.to_owned())
}

} // verus!
