use vstd::prelude::*;

verus! {

/// Why a value could not be read back from a byte stream.
#[derive(Debug, Clone, Copy, PartialEq, Eq, Structural)]
pub enum DecodeError {
    /// The stream ended before the current step had all the bytes it needs.
    UnexpectedEof,
    /// The bytes are there but do not form a value of the expected shape:
    /// malformed UTF-8 text or an enum tag that names no declared variant.
    InvalidData,
}

} // verus!
