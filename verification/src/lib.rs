//! Binary codec for rank-1 constraint systems and their variable assignments.
//!
//! Every function carries a contract over a mathematical model of the byte
//! format: serialisers are specified by `Seq<u8>`-valued spec functions and
//! parsers by spec functions that return the parsed value together with the
//! unread remainder of the input.
use vstd::prelude::*;

pub mod error;
pub mod r1cs;
pub mod varint;

use crate::error::{DecodeError, EncodeError};

verus! {

/// A structure with a byte format of its own.
pub trait ConstraintSystem: Sized {
    /// Whether the value can be written in the format.
    spec fn encodable(&self) -> bool;

    /// The bytes that stand for the value in the format.
    spec fn encoding(&self) -> Seq<u8>;

    /// Reads a value from the front of `buf`. What is read can be written
    /// again.
    fn decode(buf: &[u8]) -> (res: Result<Self, DecodeError>)
        ensures
            res matches Ok(x) ==> x.encodable(),
    ;

    /// Writes the value into a buffer of exactly the length that it takes.
    fn encode(&self) -> (res: Result<Vec<u8>, EncodeError>)
        requires
            self.encodable(),
        ensures
            res matches Ok(bytes) ==> bytes@ == self.encoding(),
    ;
}

} // verus!
