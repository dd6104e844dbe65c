//! The failures that the store's operations report.

use vstd::prelude::*;

verus! {

/// The ways in which stored bytes can fail to decode.
#[derive(Debug, Clone, Copy, PartialEq, Eq, Structural)]
pub enum CorruptKind {
    /// No null byte ends the header.
    MissingDelimiter,
    /// A header or an entry line does not have the tokens it must have.
    MalformedHeader,
    /// The kind word names no object kind that may stand there.
    UnknownKind,
    /// The payload is not as long as the header declares.
    SizeMismatch,
    /// Text is not UTF-8, or a length is not a decimal number that fits.
    InvalidEncoding,
}

/// A failure of a store operation.
#[derive(Debug, Clone, Copy, PartialEq, Eq, Structural)]
pub enum StoreError {
    /// No object is stored under the identifier.
    NotFound,
    /// The stored bytes do not decode.
    Corrupt(CorruptKind),
    /// An ancestor on a history chain could not be read or decoded.
    IncompleteChain,
    /// The file system failed for another reason than absence.
    IOFailure,
}

impl StoreError {
    /// The words that `message` gives for each failure.
    pub open spec fn message_text(self) -> Seq<char> {
        match self {
            StoreError::NotFound => "object not found"@,
            StoreError::Corrupt(CorruptKind::MissingDelimiter) => "missing null byte"@,
            StoreError::Corrupt(CorruptKind::MalformedHeader) => "malformed header"@,
            StoreError::Corrupt(CorruptKind::UnknownKind) => "unknown object kind"@,
            StoreError::Corrupt(CorruptKind::SizeMismatch) => "size mismatch"@,
            StoreError::Corrupt(CorruptKind::InvalidEncoding) => "invalid encoding"@,
            StoreError::IncompleteChain => "incomplete commit chain"@,
            StoreError::IOFailure => "file system failure"@,
        }
    }

    /// A short description of the failure, for display.
    pub fn message(&self) -> (text: String)
        ensures
            text@ == self.message_text(),
    {
        let words: &str = match self {
            StoreError::NotFound => "object not found",
            StoreError::Corrupt(CorruptKind::MissingDelimiter) => "missing null byte",
            StoreError::Corrupt(CorruptKind::MalformedHeader) => "malformed header",
            StoreError::Corrupt(CorruptKind::UnknownKind) => "unknown object kind",
            StoreError::Corrupt(CorruptKind::SizeMismatch) => "size mismatch",
            StoreError::Corrupt(CorruptKind::InvalidEncoding) => "invalid encoding",
            StoreError::IncompleteChain => "incomplete commit chain",
            StoreError::IOFailure => "file system failure",
        };
        words.to_owned()
    }
}

} // verus!
