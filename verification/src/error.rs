//! Error taxonomy for record decoding, record creation and image updates.
//!
//! A parse-time failure carries the 1-based index of the offending line;
//! creation-time and update-time failures do not.

use vstd::prelude::*;

verus! {

use crate::record::RecordType;

/// What went wrong, independent of when it happened.
#[derive(Copy, Clone, Debug, PartialEq, Eq, Structural)]
pub enum IntelHexErrorKind {
    /// Record does not begin with a ':'
    MissingStartCode,
    /// Record contains non-hexadecimal characters
    ContainsInvalidCharacters,
    /// Record is shorter than the smallest valid record
    RecordTooShort,
    /// Record is longer than the largest valid record
    RecordTooLong,
    /// Record's payload length does not match the record type (type, expected, actual)
    RecordLengthInvalidForType(RecordType, usize, usize),
    /// Record's address does not match the record type (type, expected, actual)
    RecordAddressInvalidForType(RecordType, usize, usize),
    /// Record type cannot be generated
    RecordNotSupported,
    /// Record has an odd number of hex digits
    RecordNotEvenLength,
    /// Record checksum mismatch (expected, actual)
    RecordChecksumMismatch(u8, u8),
    /// Payload size differs from the record's declared length
    RecordInvalidPayloadLength,
    /// Encountered an address that already contains data
    RecordAddressOverlap(usize),
    /// Provided record type does not exist
    InvalidRecordType,
    /// Provided address holds no data
    InvalidAddress(usize),
    /// Encountered a second start address record
    DuplicateStartAddress,
    /// The image holds no data
    IntelHexInstanceEmpty,
    /// Address relocation failed due to overflow (largest allowed start address)
    RelocateAddressOverflow(usize),
}

/// When the error happened: while decoding a line of a hex file (with the
/// 1-based line index), while encoding a record, or while updating an image.
#[derive(Copy, Clone, Debug, PartialEq, Eq, Structural)]
pub enum IntelHexError {
    ParseRecordError(IntelHexErrorKind, usize),
    CreateRecordError(IntelHexErrorKind),
    UpdateError(IntelHexErrorKind),
}

} // verus!
