//! What can go wrong.

use vstd::prelude::*;

verus! {

/// The ways in which building a router or routing a request fails.
#[derive(Clone, Copy, Debug, PartialEq, Eq, Structural)]
pub enum Error {
    /// The router was finished without a handler for what no route matches.
    MissingNotFound,
    /// The target of the request is neither a path nor an absolute URI.
    UnexpectedUri,
}

impl Error {
    /// The message of the error.
    pub open spec fn text(self) -> Seq<char> {
        match self {
            Error::MissingNotFound => "Must include not found"@,
            Error::UnexpectedUri => "Unexpected request URI"@,
        }
    }

    /// The message of the error.
    pub fn message(&self) -> (text: &'static str)
        ensures
            text@ == self.text(),
    {
        match self {
            Error::MissingNotFound => "Must include not found",
            Error::UnexpectedUri => "Unexpected request URI",
        }
    }
}

} // verus!
