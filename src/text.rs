use vstd::prelude::*;
use crate::error::DecodeError;
use crate::encoding::{Decoded, Encoded, RoundTrip, SlowType};
use crate::bulk::{read_byte_block, write_byte_block};

verus! {

broadcast use vstd::utf8::group_utf8_lib;

/// Reading text: a block of bytes (count, then bytes) that must be
/// well-formed UTF-8; `InvalidData` when it is not.
pub open spec fn parse_text(bytes: Seq<u8>) -> Result<(Seq<char>, nat), DecodeError> {
    match crate::bulk::parse_byte_block(bytes) {
        Ok((b, n)) => if vstd::utf8::valid_utf8(b) {
            Ok((vstd::utf8::decode_utf8(b), n))
        } else {
            Err(DecodeError::InvalidData)
        },
        Err(e) => Err(e),
    }
}

/// Relies on String::from_utf8: it succeeds exactly when the bytes are
/// well-formed UTF-8, and the text then holds the characters they encode.
#[verifier::external_body]
fn string_from_utf8(bytes: Vec<u8>) -> (r: Option<String>)
    ensures
        r is Some <==> vstd::utf8::valid_utf8(bytes@),
        r is Some ==> r->Some_0@ == vstd::utf8::decode_utf8(bytes@),
{
    String::from_utf8(bytes).ok()
}

impl Encoded for String {
    /// The UTF-8 bytes of the text as a block: byte count, then the bytes.
    open spec fn encoding(&self) -> Seq<u8> {
        crate::sequence::count_prefix(vstd::utf8::encode_utf8(self@).len())
            + vstd::utf8::encode_utf8(self@)
    }

    fn encode(&self, output: &mut Vec<u8>) {
        write_byte_block(self.as_str().as_bytes(), output);
    }
}

impl Decoded for String {
    open spec fn parse(bytes: Seq<u8>) -> Result<(Seq<char>, nat), DecodeError> {
        parse_text(bytes)
    }

    fn decode(input: &[u8], pos: &mut usize) -> (r: Result<String, DecodeError>) {
        let block = match read_byte_block(input, pos) {
            Ok(b) => b,
            Err(e) => return Err(e),
        };
        match string_from_utf8(block) {
            Some(text) => Ok(text),
            None => Err(DecodeError::InvalidData),
        }
    }
}

impl RoundTrip for String {
    proof fn lemma_round_trip(v: String, rest: Seq<u8>) {
        let bytes = vstd::utf8::encode_utf8(v@);
        crate::bulk::lemma_byte_block_round_trip(bytes, rest);
        crate::scalar::lemma_le_bytes_len(bytes.len(), 8);
    }
}

impl SlowType for String {}

impl<'a> Encoded for &'a str {
    /// The same bytes as the owned text with these characters.
    open spec fn encoding(&self) -> Seq<u8> {
        crate::sequence::count_prefix(vstd::utf8::encode_utf8(self@).len())
            + vstd::utf8::encode_utf8(self@)
    }

    fn encode(&self, output: &mut Vec<u8>) {
        write_byte_block(self.as_bytes(), output);
    }
}

impl<'a> SlowType for &'a str {}

} // verus!
