use vstd::prelude::*;

verus! {

/// Why a buffer could not be read as the expected structure.
#[derive(Debug, Clone, Copy, PartialEq, Eq)]
pub enum FormatError {
    /// A read went past the end of the buffer (or no string terminator was found).
    UnexpectedEof,
    /// A string field does not hold valid UTF-8.
    InvalidUtf8,
    /// An offset or size computation overflowed its integer type.
    Overflow,
    /// The first word of a PAC archive is neither of the two known header words.
    InvalidPacHeader(u32),
    /// A UTF column carries a data type code that is not defined.
    UnknownDataType(u8),
    /// A UTF column carries a storage code that is not defined.
    UnknownDataStorage(u8),
    /// A table row misses a field, or holds it with another type.
    MissingField,
    /// A tree key that is not a decimal number.
    InvalidKey,
    /// A vertex or index stride of zero.
    ZeroStride,
    /// A back-reference of compressed data points before the start of the output.
    InvalidBackReference,
    /// The image encoder refused the pixel data.
    ImageEncoding,
}

} // verus!
