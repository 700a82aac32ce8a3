//! Error types of the codec.
use vstd::prelude::*;

verus! {

/// Why a byte buffer could not be decoded.
#[derive(Debug, Clone, Copy, PartialEq, Eq)]
pub enum DecodeError {
    /// The buffer ends before the value being read is complete.
    TruncatedInput,
    /// The buffer does not start with the magic bytes of the format.
    MalformedTag,
    /// The header has fewer than four entries, or one of the first four is negative.
    InvalidHeader,
    /// A variable-length integer does not fit in 64 bits.
    IntegerOverflow,
}

/// Why a value could not be written into a caller-owned buffer.
#[derive(Debug, Clone, Copy, PartialEq, Eq)]
pub enum GenError {
    /// The buffer is too small; the argument is the length it must at least have.
    BufferTooSmall(usize),
    /// The end of the written range cannot be expressed as an offset.
    InvalidOffset,
}

/// A value could not be encoded at all; retrying does not help.
#[derive(Debug, Clone, Copy, PartialEq, Eq)]
pub struct EncodeError;

} // verus!
