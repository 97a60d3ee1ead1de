use vstd::prelude::*;

verus! {

/// Why a byte sequence could not be decoded.
#[derive(Debug, PartialEq, Eq)]
pub enum Error {
    /// The reader ran out of bytes.
    NotEnoughBytes,
    /// The bytes do not form a value of the requested type.
    InvalidFormat(&'static str),
}

} // verus!
