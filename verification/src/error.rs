//! What can go wrong when an object is read or looked up.

use crate::kind::ObjectKind;
use vstd::prelude::*;

verus! {

/// Why the body of a tree could not be read.
#[derive(Clone, Copy, Debug, PartialEq, Eq)]
pub enum BodyFault {
    /// An entry's mode is not followed by a space.
    UnterminatedMode,
    /// An entry's name is not followed by a NUL.
    UnterminatedName,
    /// Fewer bytes than a raw identifier follow an entry's name.
    TruncatedId,
    /// An entry's name sorts before the name of the entry in front of it.
    UnsortedEntries,
}

/// Why an envelope is not the envelope of an object.
#[derive(Clone, Copy, Debug, PartialEq, Eq)]
pub enum DecodeError {
    /// No NUL ends the header within the scan window, or no space splits it.
    MalformedHeader,
    /// The header's first word is none of the four kind names.
    UnknownKind,
    /// The header's second word is empty or holds a byte that is no decimal digit.
    InvalidLength,
    /// The number that the header's second word denotes is not the length of the body.
    SizeMismatch,
    /// The body is not laid out as its kind demands.
    BodyParseError { kind: ObjectKind, detail: BodyFault },
}

/// Why the store could not hand out or take in an object.
#[derive(Clone, Copy, Debug, PartialEq, Eq)]
pub enum StoreError {
    /// The identifier is not forty lowercase hexadecimal digits.
    InvalidId,
    /// The repository has no `objects` directory.
    RepoNotInitialized,
    /// No file is stored under the identifier.
    NotFound,
    /// The file could not be read or is not a zlib stream, or the compressor gave up on
    /// an envelope.
    Io,
    /// The file's contents are not the envelope of an object.
    Corrupt(DecodeError),
    /// The file holds an envelope with another digest than the identifier.
    IdMismatch,
}

} // verus!
