use vstd::prelude::*;

verus! {

/// The construct that a failed parse was unable to recognize.
#[derive(Clone, Copy, Debug, PartialEq, Eq)]
pub enum ParseErrorKind {
    /// The `KMD` header literal is absent at the expected position.
    MalformedTag,
    /// A hexadecimal field is empty, holds a character that is not a
    /// digit, or exceeds the 32-bit range.
    InvalidHex,
    /// The decoded byte count of an instruction word is not exactly four.
    MalformedWord,
    /// A body line fails at the comment delimiter or at the line terminator.
    MalformedLine,
    /// A label line fails to match the fixed column sequence.
    MalformedLabel,
    /// The symbol-table section header is absent where expected.
    MissingSection,
}

/// A fatal parse failure: the whole parse stops at `position` (a character
/// index into the input) because `kind` could not be recognized there.
#[derive(Clone, Copy, Debug, PartialEq, Eq)]
pub struct ParseError {
    pub kind: ParseErrorKind,
    pub position: usize,
}

} // verus!
