//! What can be wrong with a DEX image.
use vstd::prelude::*;

verus! {

/// What is wrong with the bytes of a string.
#[derive(Clone, Copy, Debug, PartialEq, Eq, Structural)]
pub enum Mutf8Error {
    MissingTerminator,
    BadLead,
    BadContinuation,
}

/// Why a DEX image could not be decoded.
#[derive(Clone, Copy, Debug, PartialEq, Eq, Structural)]
pub enum DexError {
    /// The image ends inside what was being read.
    UnexpectedEnd,
    /// The endianness tag is neither of the two there are.
    InvalidEndianness,
    /// A variable-length number that is too large.
    InvalidUleb128,
    /// The bytes of a string are malformed.
    InvalidMutf8(Mutf8Error),
    /// A string of another length than the one it declares.
    InvalidStringLength { expected: u32, actual: usize },
    /// An index past the end of the string table.
    InvalidStringIdx,
    /// An index past the end of the type or prototype table.
    InvalidTypeIdx,
    /// An index past the end of the field table.
    InvalidFieldIdx,
    /// An index past the end of the method table.
    InvalidMethodIdx,
    /// An index past the end of the class table.
    InvalidClassIdx,
    /// A value of an annotation that is of no known type, or of another than it has to be.
    InvalidEncodedValue,
    /// There is no image left to decode from.
    NoDataLeftError,
    /// Images keep file-local indices, so they cannot be merged.
    MergeUnsupported,
}

} // verus!
