//! Errors raised by normal operation of the archive.

use vstd::prelude::*;

verus! {

/// Errors which can be caused by normal archive operation.
///
/// Index values are decoded strictly: a corrupt index value surfaces as
/// `MalformedIndex` rather than being silently skipped.  Author, book and tag
/// text containing the delimiter character `';'` is rejected up front with
/// `DelimiterInInput`, and adding a quote whose identifier is already present
/// is a fatal `DuplicateIdentifier`.  Failures of the underlying key-value
/// store are passed along as `StoreError`.
#[derive(Debug, Clone, PartialEq, Eq)]
pub enum QuothError {
    /// Trying to access an unrecorded author.
    AuthorNotFound { author: String },
    /// Trying to access a nonexistent quote index.
    QuoteNotFound { index: u64 },
    /// Trying to access an unrecorded book.
    BookNotFound { book: String },
    /// Trying to access an unrecorded tag.
    TagNotFound { tag: String },
    /// An index or record value failed to decode.
    MalformedIndex,
    /// Adding a quote whose identifier is already recorded.
    DuplicateIdentifier { index: u64 },
    /// Author, book or tag text contains the reserved delimiter character.
    DelimiterInInput,
    /// No text was returned from an external editor.
    EditorError,
    /// An argument was given empty input.
    NoInputError,
    /// Catch-all for conditions that should never happen.
    OutOfCheeseError { message: String },
    /// An explicit confirmation was not received for a destructive action.
    DoingNothing { message: String },
    /// The home directory is not set.
    Homeless,
    /// A badly formatted input file was given for parsing.
    FileParseError { filename: String },
    /// The underlying key-value store reported a failure.
    StoreError { message: String },
}

} // verus!
