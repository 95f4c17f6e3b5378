//! Why an operation on a stored tree fails.

use vstd::prelude::*;

verus! {

/// Why an operation on a stored tree failed.
#[derive(Debug, Clone, Copy, PartialEq, Eq, Structural)]
pub enum Error {
    /// The byte channel under the storage failed.
    Io,
    /// A node could not be written as bytes, or bytes read back were no
    /// node of the tree.
    Serde,
    /// No identifier could be had for a new node.
    Allocator,
    /// The storage failed otherwise.
    Storage,
}

impl Error {
    /// What the error says of itself.
    pub fn message(&self) -> (text: &'static str)
        ensures
            text@ == match *self {
                Error::Io => "input or output error"@,
                Error::Serde => "encoding error"@,
                Error::Allocator => "allocator error"@,
                Error::Storage => "storage error"@,
            },
    {
        match self {
            Error::Io => "input or output error",
            Error::Serde => "encoding error",
            Error::Allocator => "allocator error",
            Error::Storage => "storage error",
        }
    }
}

} // verus!
