use vstd::prelude::*;

verus! {

/// Everything that can go wrong while decoding or aggregating a log.
#[derive(Clone, Copy, Debug, PartialEq, Eq, Structural)]
pub enum DecodeError {
    /// Fewer bytes remain than a fixed-width or length-prefixed field needs.
    TruncatedInput,
    /// The format signature is missing or wrong.
    BadMagic,
    /// The WPILOG version is not 1.0.
    UnsupportedVersion,
    /// An MCAP record carries an opcode outside the known table.
    UnknownRecordTag,
    /// A WPILOG control payload starts with a tag other than 0, 1 or 2.
    UnknownControlTag,
    /// Bytes are left over after a parse that must consume everything.
    TrailingData,
    /// Two `Start` records announce the same entry id.
    DuplicateEntryId,
    /// A text field is not well-formed UTF-8.
    InvalidUtf8,
    /// An array payload's length is not a multiple of its element width.
    ArrayLengthMismatch,
    /// A field of an MCAP record reaches past the end of that record.
    TruncatedRecord,
}

/// A decode error together with the place in the input where decoding
/// stopped.
#[derive(Clone, Copy, Debug, PartialEq, Eq, Structural)]
pub struct DecodeFailure {
    pub error: DecodeError,
    /// Offset into the input of the field or record that did not decode.
    pub offset: usize,
}

} // verus!
