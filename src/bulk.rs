use vstd::prelude::*;
use crate::error::DecodeError;
use crate::encoding::{Decoded, Encoded, RoundTrip};
use crate::scalar::{read_le, write_le};
use crate::sequence::{decode_seq, encode_seq};

verus! {

/// Reading a block of raw bytes: the 8-byte count, then that many bytes.
pub open spec fn parse_byte_block(bytes: Seq<u8>) -> Result<(Seq<u8>, nat), DecodeError> {
    match crate::scalar::parse_le(bytes, 8) {
        Ok((count, _)) => if bytes.len() < 8 + count {
            Err(DecodeError::UnexpectedEof)
        } else {
            Ok((bytes.subrange(8, 8 + count as int), 8 + count))
        },
        Err(e) => Err(e),
    }
}

/// The bytes of a slice of `i8`, each the same bits read as unsigned.
pub open spec fn i8_bits(items: Seq<i8>) -> Seq<u8> {
    items.map_values(|x: i8| x as u8)
}

/// Bytes read as `i8` values with the same bits.
pub open spec fn i8_values(bytes: Seq<u8>) -> Seq<i8> {
    bytes.map_values(|x: u8| x as i8)
}

/// Relies on bytemuck::cast_slice from `i8` to `u8`: both types have size
/// and alignment 1, so the cast always succeeds, keeps the length and keeps
/// each element's bits.
#[verifier::external_body]
fn bytes_of_i8(items: &[i8]) -> (r: &[u8])
    ensures
        r@ == i8_bits(items@),
{
    bytemuck::cast_slice::<i8, u8>(items)
}

/// Relies on bytemuck::cast_slice from `u8` to `i8`: both types have size
/// and alignment 1, so the cast always succeeds, keeps the length and keeps
/// each element's bits.
#[verifier::external_body]
fn i8_of_bytes(bytes: &[u8]) -> (r: &[i8])
    ensures
        r@ == i8_values(bytes@),
{
    bytemuck::cast_slice::<u8, i8>(bytes)
}

/// Writes a block of raw bytes: the count, then the bytes in one piece.
pub fn write_byte_block(bytes: &[u8], output: &mut Vec<u8>)
    ensures
        final(output)@ == old(output)@ + crate::sequence::count_prefix(bytes@.len()) + bytes@,
{
    proof {
        crate::scalar::lemma_byte_power_values();
    }
    write_le(output, bytes.len() as u64, 8);
    let ghost mid = output@;
    output.extend_from_slice(bytes);
    assert(output@ =~= mid + bytes@);
}

/// Reads a block of raw bytes: the count, then that many bytes in one piece.
pub fn read_byte_block(input: &[u8], pos: &mut usize) -> (r: Result<Vec<u8>, DecodeError>)
    requires
        *old(pos) <= input@.len(),
    ensures
        match parse_byte_block(input@.subrange(*old(pos) as int, input@.len() as int)) {
            Ok((b, n)) => {
                &&& r is Ok
                &&& r->Ok_0@ == b
                &&& *final(pos) == *old(pos) + n
                &&& *final(pos) <= input@.len()
            },
            Err(e) => r == Err::<Vec<u8>, DecodeError>(e),
        },
{
    proof {
        crate::scalar::lemma_byte_power_values();
    }
    let count = match read_le(input, pos, 8) {
        Ok(c) => c,
        Err(e) => return Err(e),
    };
    let start = *pos;
    if ((input.len() - start) as u64) < count {
        return Err(DecodeError::UnexpectedEof);
    }
    let end = start + count as usize;
    let block = vstd::slice::slice_to_vec(vstd::slice::slice_subrange(input, start, end));
    *pos = end;
    assert(block@ =~= input@.subrange(*old(pos) as int, input@.len() as int).subrange(8, 8 + count as int));
    Ok(block)
}

impl Encoded for Vec<u8> {
    /// The count, then the bytes themselves.
    open spec fn encoding(&self) -> Seq<u8> {
        crate::sequence::count_prefix(self@.len()) + self@
    }

    fn encode(&self, output: &mut Vec<u8>) {
        write_byte_block(self.as_slice(), output);
    }
}

impl Decoded for Vec<u8> {
    open spec fn parse(bytes: Seq<u8>) -> Result<(Seq<u8>, nat), DecodeError> {
        parse_byte_block(bytes)
    }

    fn decode(input: &[u8], pos: &mut usize) -> (r: Result<Vec<u8>, DecodeError>) {
        let r = read_byte_block(input, pos);
        proof {
            if r is Ok {
                assert(r->Ok_0.deep_view() =~= r->Ok_0@);
            }
        }
        r
    }
}

/// A block of raw bytes parses back from its encoding, whatever follows it.
pub proof fn lemma_byte_block_round_trip(bytes: Seq<u8>, rest: Seq<u8>)
    requires
        bytes.len() <= u64::MAX,
    ensures
        parse_byte_block(crate::sequence::count_prefix(bytes.len()) + bytes + rest) == Ok::<
            (Seq<u8>, nat),
            DecodeError,
        >((bytes, 8 + bytes.len())),
{
    crate::scalar::lemma_byte_power_values();
    crate::scalar::lemma_le_bytes_len(bytes.len(), 8);
    let all = crate::sequence::count_prefix(bytes.len()) + bytes + rest;
    assert(all =~= crate::sequence::count_prefix(bytes.len()) + (bytes + rest));
    crate::scalar::lemma_parse_le_round_trip(bytes.len(), 8, bytes + rest);
    assert(all.subrange(8, 8 + bytes.len() as int) =~= bytes);
}

impl RoundTrip for Vec<u8> {
    proof fn lemma_round_trip(v: Vec<u8>, rest: Seq<u8>) {
        assert(v.len() == v@.len());
        lemma_byte_block_round_trip(v@, rest);
        assert(v.deep_view() =~= v@);
        crate::scalar::lemma_le_bytes_len(v@.len(), 8);
    }
}

impl<'a> Encoded for &'a [u8] {
    /// The count, then the bytes themselves.
    open spec fn encoding(&self) -> Seq<u8> {
        crate::sequence::count_prefix(self@.len()) + self@
    }

    fn encode(&self, output: &mut Vec<u8>) {
        write_byte_block(self, output);
    }
}

impl<'a> Encoded for &'a [i8] {
    /// The count, then each value's bits as one byte.
    open spec fn encoding(&self) -> Seq<u8> {
        crate::sequence::count_prefix(self@.len()) + i8_bits(self@)
    }

    fn encode(&self, output: &mut Vec<u8>) {
        write_byte_block(bytes_of_i8(self), output);
    }
}

impl Encoded for Vec<i8> {
    /// The count, then each value's bits as one byte.
    open spec fn encoding(&self) -> Seq<u8> {
        crate::sequence::count_prefix(self@.len()) + i8_bits(self@)
    }

    fn encode(&self, output: &mut Vec<u8>) {
        write_byte_block(bytes_of_i8(self.as_slice()), output);
    }
}

impl Decoded for Vec<i8> {
    open spec fn parse(bytes: Seq<u8>) -> Result<(Seq<i8>, nat), DecodeError> {
        match parse_byte_block(bytes) {
            Ok((b, n)) => Ok((i8_values(b), n)),
            Err(e) => Err(e),
        }
    }

    fn decode(input: &[u8], pos: &mut usize) -> (r: Result<Vec<i8>, DecodeError>) {
        match read_byte_block(input, pos) {
            Ok(block) => {
                let items = vstd::slice::slice_to_vec(i8_of_bytes(block.as_slice()));
                assert(items.deep_view() =~= items@);
                Ok(items)
            },
            Err(e) => Err(e),
        }
    }
}

impl RoundTrip for Vec<i8> {
    proof fn lemma_round_trip(v: Vec<i8>, rest: Seq<u8>) {
        assert(v.len() == v@.len());
        lemma_byte_block_round_trip(i8_bits(v@), rest);
        assert forall|i: int| 0 <= i < v@.len() implies ((v@[i] as u8) as i8) == v@[i] by {
            let x = v@[i];
            assert(((x as u8) as i8) == x) by (bit_vector);
        }
        assert(i8_values(i8_bits(v@)) =~= v.deep_view());
        crate::scalar::lemma_le_bytes_len(v@.len(), 8);
    }
}

// Booleans and integers wider than a byte are laid out value by value: the
// wire is little-endian on every machine, which reinterpreting memory would
// not give, and not every byte is a valid `bool`.

impl<'a> Encoded for &'a [bool] {
    /// The count, then each value as one byte, `1` for true.
    open spec fn encoding(&self) -> Seq<u8> {
        crate::sequence::seq_encoding(self@)
    }

    fn encode(&self, output: &mut Vec<u8>) {
        encode_seq(self, output);
    }
}

impl Encoded for Vec<bool> {
    /// The count, then each value as one byte, `1` for true.
    open spec fn encoding(&self) -> Seq<u8> {
        crate::sequence::seq_encoding(self@)
    }

    fn encode(&self, output: &mut Vec<u8>) {
        encode_seq(self.as_slice(), output);
    }
}

impl Decoded for Vec<bool> {
    open spec fn parse(bytes: Seq<u8>) -> Result<(Seq<bool>, nat), DecodeError> {
        crate::sequence::parse_seq::<bool>(bytes)
    }

    fn decode(input: &[u8], pos: &mut usize) -> (r: Result<Vec<bool>, DecodeError>) {
        decode_seq(input, pos)
    }
}

impl RoundTrip for Vec<bool> {
    proof fn lemma_round_trip(v: Vec<bool>, rest: Seq<u8>) {
        assert(v.len() == v@.len());
        crate::sequence::lemma_seq_round_trip::<bool>(v@, rest);
        assert(crate::sequence::deep_items(v@) =~= v.deep_view());
    }
}

impl<'a> Encoded for &'a [u16] {
    /// The count, then each value's little-endian bytes in order.
    open spec fn encoding(&self) -> Seq<u8> {
        crate::sequence::seq_encoding(self@)
    }

    fn encode(&self, output: &mut Vec<u8>) {
        encode_seq(self, output);
    }
}

impl Encoded for Vec<u16> {
    /// The count, then each value's little-endian bytes in order.
    open spec fn encoding(&self) -> Seq<u8> {
        crate::sequence::seq_encoding(self@)
    }

    fn encode(&self, output: &mut Vec<u8>) {
        encode_seq(self.as_slice(), output);
    }
}

impl Decoded for Vec<u16> {
    open spec fn parse(bytes: Seq<u8>) -> Result<(Seq<u16>, nat), DecodeError> {
        crate::sequence::parse_seq::<u16>(bytes)
    }

    fn decode(input: &[u8], pos: &mut usize) -> (r: Result<Vec<u16>, DecodeError>) {
        decode_seq(input, pos)
    }
}

impl RoundTrip for Vec<u16> {
    proof fn lemma_round_trip(v: Vec<u16>, rest: Seq<u8>) {
        assert(v.len() == v@.len());
        crate::sequence::lemma_seq_round_trip::<u16>(v@, rest);
        assert(crate::sequence::deep_items(v@) =~= v.deep_view());
    }
}

impl<'a> Encoded for &'a [u32] {
    /// The count, then each value's little-endian bytes in order.
    open spec fn encoding(&self) -> Seq<u8> {
        crate::sequence::seq_encoding(self@)
    }

    fn encode(&self, output: &mut Vec<u8>) {
        encode_seq(self, output);
    }
}

impl Encoded for Vec<u32> {
    /// The count, then each value's little-endian bytes in order.
    open spec fn encoding(&self) -> Seq<u8> {
        crate::sequence::seq_encoding(self@)
    }

    fn encode(&self, output: &mut Vec<u8>) {
        encode_seq(self.as_slice(), output);
    }
}

impl Decoded for Vec<u32> {
    open spec fn parse(bytes: Seq<u8>) -> Result<(Seq<u32>, nat), DecodeError> {
        crate::sequence::parse_seq::<u32>(bytes)
    }

    fn decode(input: &[u8], pos: &mut usize) -> (r: Result<Vec<u32>, DecodeError>) {
        decode_seq(input, pos)
    }
}

impl RoundTrip for Vec<u32> {
    proof fn lemma_round_trip(v: Vec<u32>, rest: Seq<u8>) {
        assert(v.len() == v@.len());
        crate::sequence::lemma_seq_round_trip::<u32>(v@, rest);
        assert(crate::sequence::deep_items(v@) =~= v.deep_view());
    }
}

impl<'a> Encoded for &'a [u64] {
    /// The count, then each value's little-endian bytes in order.
    open spec fn encoding(&self) -> Seq<u8> {
        crate::sequence::seq_encoding(self@)
    }

    fn encode(&self, output: &mut Vec<u8>) {
        encode_seq(self, output);
    }
}

impl Encoded for Vec<u64> {
    /// The count, then each value's little-endian bytes in order.
    open spec fn encoding(&self) -> Seq<u8> {
        crate::sequence::seq_encoding(self@)
    }

    fn encode(&self, output: &mut Vec<u8>) {
        encode_seq(self.as_slice(), output);
    }
}

impl Decoded for Vec<u64> {
    open spec fn parse(bytes: Seq<u8>) -> Result<(Seq<u64>, nat), DecodeError> {
        crate::sequence::parse_seq::<u64>(bytes)
    }

    fn decode(input: &[u8], pos: &mut usize) -> (r: Result<Vec<u64>, DecodeError>) {
        decode_seq(input, pos)
    }
}

impl RoundTrip for Vec<u64> {
    proof fn lemma_round_trip(v: Vec<u64>, rest: Seq<u8>) {
        assert(v.len() == v@.len());
        crate::sequence::lemma_seq_round_trip::<u64>(v@, rest);
        assert(crate::sequence::deep_items(v@) =~= v.deep_view());
    }
}

impl<'a> Encoded for &'a [i16] {
    /// The count, then each value's little-endian bytes in order.
    open spec fn encoding(&self) -> Seq<u8> {
        crate::sequence::seq_encoding(self@)
    }

    fn encode(&self, output: &mut Vec<u8>) {
        encode_seq(self, output);
    }
}

impl Encoded for Vec<i16> {
    /// The count, then each value's little-endian bytes in order.
    open spec fn encoding(&self) -> Seq<u8> {
        crate::sequence::seq_encoding(self@)
    }

    fn encode(&self, output: &mut Vec<u8>) {
        encode_seq(self.as_slice(), output);
    }
}

impl Decoded for Vec<i16> {
    open spec fn parse(bytes: Seq<u8>) -> Result<(Seq<i16>, nat), DecodeError> {
        crate::sequence::parse_seq::<i16>(bytes)
    }

    fn decode(input: &[u8], pos: &mut usize) -> (r: Result<Vec<i16>, DecodeError>) {
        decode_seq(input, pos)
    }
}

impl RoundTrip for Vec<i16> {
    proof fn lemma_round_trip(v: Vec<i16>, rest: Seq<u8>) {
        assert(v.len() == v@.len());
        crate::sequence::lemma_seq_round_trip::<i16>(v@, rest);
        assert(crate::sequence::deep_items(v@) =~= v.deep_view());
    }
}

impl<'a> Encoded for &'a [i32] {
    /// The count, then each value's little-endian bytes in order.
    open spec fn encoding(&self) -> Seq<u8> {
        crate::sequence::seq_encoding(self@)
    }

    fn encode(&self, output: &mut Vec<u8>) {
        encode_seq(self, output);
    }
}

impl Encoded for Vec<i32> {
    /// The count, then each value's little-endian bytes in order.
    open spec fn encoding(&self) -> Seq<u8> {
        crate::sequence::seq_encoding(self@)
    }

    fn encode(&self, output: &mut Vec<u8>) {
        encode_seq(self.as_slice(), output);
    }
}

impl Decoded for Vec<i32> {
    open spec fn parse(bytes: Seq<u8>) -> Result<(Seq<i32>, nat), DecodeError> {
        crate::sequence::parse_seq::<i32>(bytes)
    }

    fn decode(input: &[u8], pos: &mut usize) -> (r: Result<Vec<i32>, DecodeError>) {
        decode_seq(input, pos)
    }
}

impl RoundTrip for Vec<i32> {
    proof fn lemma_round_trip(v: Vec<i32>, rest: Seq<u8>) {
        assert(v.len() == v@.len());
        crate::sequence::lemma_seq_round_trip::<i32>(v@, rest);
        assert(crate::sequence::deep_items(v@) =~= v.deep_view());
    }
}

impl<'a> Encoded for &'a [i64] {
    /// The count, then each value's little-endian bytes in order.
    open spec fn encoding(&self) -> Seq<u8> {
        crate::sequence::seq_encoding(self@)
    }

    fn encode(&self, output: &mut Vec<u8>) {
        encode_seq(self, output);
    }
}

impl Encoded for Vec<i64> {
    /// The count, then each value's little-endian bytes in order.
    open spec fn encoding(&self) -> Seq<u8> {
        crate::sequence::seq_encoding(self@)
    }

    fn encode(&self, output: &mut Vec<u8>) {
        encode_seq(self.as_slice(), output);
    }
}

impl Decoded for Vec<i64> {
    open spec fn parse(bytes: Seq<u8>) -> Result<(Seq<i64>, nat), DecodeError> {
        crate::sequence::parse_seq::<i64>(bytes)
    }

    fn decode(input: &[u8], pos: &mut usize) -> (r: Result<Vec<i64>, DecodeError>) {
        decode_seq(input, pos)
    }
}

impl RoundTrip for Vec<i64> {
    proof fn lemma_round_trip(v: Vec<i64>, rest: Seq<u8>) {
        assert(v.len() == v@.len());
        crate::sequence::lemma_seq_round_trip::<i64>(v@, rest);
        assert(crate::sequence::deep_items(v@) =~= v.deep_view());
    }
}

} // verus!
