//! The ways in which the codec can fail.
use vstd::prelude::*;

verus! {

/// Why a compression or decompression stopped.
#[derive(Clone, Copy, Debug, PartialEq, Eq, Structural)]
pub enum HuffError {
    /// There is no symbol to build a tree from.
    EmptyInput,
    /// The container is too short for its fixed fields or for the header
    /// length it states, or its padding count is not one of 0 to 7.
    CorruptHeader,
    /// The header bytes are not a frequency table in its canonical encoding.
    DeserializationError,
    /// A symbol to encode has no code in the table.
    MissingCode,
    /// The bit stream ends in the middle of a code.
    TruncatedStream,
}

} // verus!
