//! What can go wrong.

use vstd::prelude::*;

verus! {

/// The kind of an error.
#[derive(Clone, Copy, Debug, PartialEq, Eq, Structural)]
pub enum ErrorKind {
    /// There is no such entity.
    NotFound,
    /// The entity is there already.
    AlreadyExists,
    /// A path component that has to be a directory is none.
    NotADirectory,
    /// A directory that has to be empty is not.
    DirectoryNotEmpty,
    /// The entity is in use.
    ResourceBusy,
    /// An argument does not make sense.
    InvalidInput,
    /// Stored data does not make sense.
    InvalidData,
    /// The data ended early.
    UnexpectedEof,
    /// A write took nothing.
    WriteZero,
    /// The operation is not supported.
    Unsupported,
    /// Anything else.
    Other,
}

} // verus!
