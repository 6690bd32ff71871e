use vstd::prelude::*;
use crate::error::DecodeError;

verus! {

/// A value that can be written to a byte stream.
///
/// `encoding` is the exact byte sequence that `encode` appends; it depends on
/// the value alone, so encoding one value twice gives identical bytes.
pub trait Encoded {
    /// The bytes that stand for this value on the wire.
    spec fn encoding(&self) -> Seq<u8>;

    /// Appends the encoding of `self` to `output`.
    fn encode(&self, output: &mut Vec<u8>)
        ensures
            final(output)@ == old(output)@ + self.encoding(),
    ;
}

/// A value that can be read back from a byte stream.
///
/// `parse` says what reading from the front of a byte sequence yields: the
/// abstract value read and the number of bytes it took, or why it fails.
pub trait Decoded: Sized + DeepView {
    /// What decoding reads from the front of `bytes`.
    spec fn parse(bytes: Seq<u8>) -> Result<(Self::V, nat), DecodeError>;

    /// Reads one value from `input`, starting at `*pos`, and moves `*pos` past it.
    fn decode(input: &[u8], pos: &mut usize) -> (r: Result<Self, DecodeError>)
        requires
            *old(pos) <= input@.len(),
        ensures
            match Self::parse(input@.subrange(*old(pos) as int, input@.len() as int)) {
                Ok((v, n)) => {
                    &&& r is Ok
                    &&& r->Ok_0.deep_view() == v
                    &&& *final(pos) == *old(pos) + n
                    &&& *final(pos) <= input@.len()
                },
                Err(e) => r == Err::<Self, DecodeError>(e),
            },
    ;
}

/// A type whose decoder reads back exactly what its encoder wrote.
pub trait RoundTrip: Encoded + Decoded {
    /// Parsing the encoding of `v`, followed by any further bytes, yields `v`
    /// and consumes exactly its encoding (an encoding too long to be held in
    /// memory is never produced).
    proof fn lemma_round_trip(v: Self, rest: Seq<u8>)
        requires
            v.encoding().len() <= usize::MAX,
        ensures
            Self::parse(v.encoding() + rest) == Ok::<(Self::V, nat), DecodeError>(
                (v.deep_view(), v.encoding().len()),
            ),
    ;
}

/// Marks the element types that sequences encode one element at a time.
///
/// Sequences of scalars (fixed-width integers and booleans) have codecs of
/// their own, on the bulk path; every other element type
/// (nested sequences, text, structs, enums) carries this mark.
pub trait SlowType {}

} // verus!
