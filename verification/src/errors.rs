use vstd::prelude::*;

verus! {

/// The error taxonomy shared by every codec of this crate.
///
/// Codec-level failures carry the cumulative byte offset at which they were
/// detected wherever the variant allows it; callers that track offsets with a
/// `Cursor` can read the exact position of any other failure from it.
#[derive(Clone, Copy, Debug, PartialEq, Eq, Structural)]
pub enum CodecError {
    /// The magic, version or another declaration of a file header is wrong.
    MalformedHeader,
    /// A record's offset field points outside the valid data region, or at
    /// bytes that do not delimit a stored string.
    MalformedRecord { index: usize, offset: usize },
    /// Fewer bytes remain than a header declared.
    TruncatedFile,
    /// A read ran past the end of the input.
    UnexpectedEof,
    /// A value of the wrong kind was handed in.
    InvalidInput,
    /// A destination already holds an entry of this name.
    AlreadyExists,
    /// The table names a row that the structural reference does not define.
    UnknownRow,
    /// The tabular file cannot be parsed back into a dialogue table.
    MalformedTable,
}

} // verus!
