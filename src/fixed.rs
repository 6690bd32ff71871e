use vstd::prelude::*;
use crate::error::DecodeError;
use crate::encoding::{Decoded, Encoded, RoundTrip, SlowType};
use crate::sequence::{decode_items, encode_items};

verus! {

broadcast use vstd::array::group_array_axioms;

/// Relies on std's `TryFrom<Vec<T>>` for `[T; N]`: it succeeds exactly when
/// the vector holds `N` elements, and the array then holds them in order.
#[verifier::external_body]
fn array_from_vec<T, const N: usize>(items: Vec<T>) -> (r: Option<[T; N]>)
    ensures
        r is Some <==> items@.len() == N,
        r is Some ==> r->Some_0@ == items@,
{
    <[T; N]>::try_from(items).ok()
}

/// Reading a fixed sequence of `N` elements: `N` element encodings back to
/// back, with no count in front.
pub open spec fn parse_array<T: Decoded>(bytes: Seq<u8>, n: nat) -> Result<(Seq<T::V>, nat), DecodeError> {
    crate::sequence::parse_items::<T>(bytes, n)
}

/// Writes the `N` elements of `items` one after another, with no count.
pub fn encode_array<T: Encoded, const N: usize>(items: &[T; N], output: &mut Vec<u8>)
    ensures
        final(output)@ == old(output)@ + crate::sequence::encode_all(items@),
{
    encode_items(vstd::array::array_as_slice(items), output);
}

/// Reads `N` elements one after another into an array.
pub fn decode_array<T: Decoded, const N: usize>(input: &[u8], pos: &mut usize) -> (r: Result<
    [T; N],
    DecodeError,
>)
    requires
        *old(pos) <= input@.len(),
    ensures
        match parse_array::<T>(input@.subrange(*old(pos) as int, input@.len() as int), N as nat) {
            Ok((vs, n)) => {
                &&& r is Ok
                &&& r->Ok_0.deep_view() == vs
                &&& *final(pos) == *old(pos) + n
                &&& *final(pos) <= input@.len()
            },
            Err(e) => r == Err::<[T; N], DecodeError>(e),
        },
{
    let items = match decode_items::<T>(input, pos, N as u64) {
        Ok(items) => items,
        Err(e) => return Err(e),
    };
    let ghost seen = items.deep_view();
    proof {
        crate::sequence::lemma_parse_items_len::<T>(
            input@.subrange(*old(pos) as int, input@.len() as int),
            N as nat,
        );
    }
    assert(items@.len() == seen.len());
    match array_from_vec::<T, N>(items) {
        Some(array) => {
            assert(array.deep_view() =~= seen);
            Ok(array)
        },
        None => Err(DecodeError::InvalidData),
    }
}

/// A fixed sequence parses back from its encoding, whatever follows it.
pub proof fn lemma_array_round_trip<T: RoundTrip, const N: usize>(v: [T; N], rest: Seq<u8>)
    requires
        crate::sequence::encode_all(v@).len() <= usize::MAX,
    ensures
        parse_array::<T>(crate::sequence::encode_all(v@) + rest, N as nat) == Ok::<
            (Seq<T::V>, nat),
            DecodeError,
        >((v.deep_view(), crate::sequence::encode_all(v@).len())),
{
    crate::sequence::lemma_parse_items_round_trip::<T>(v@, rest);
    assert(crate::sequence::deep_items(v@) =~= v.deep_view());
}

impl<T: Encoded + SlowType, const N: usize> Encoded for [T; N] {
    /// The elements' encodings in order, with no count.
    open spec fn encoding(&self) -> Seq<u8> {
        crate::sequence::encode_all(self@)
    }

    fn encode(&self, output: &mut Vec<u8>) {
        encode_array(self, output);
    }
}

impl<T: Decoded + SlowType, const N: usize> Decoded for [T; N] {
    open spec fn parse(bytes: Seq<u8>) -> Result<(Seq<T::V>, nat), DecodeError> {
        parse_array::<T>(bytes, N as nat)
    }

    fn decode(input: &[u8], pos: &mut usize) -> (r: Result<[T; N], DecodeError>) {
        decode_array(input, pos)
    }
}

impl<T: RoundTrip + SlowType, const N: usize> RoundTrip for [T; N] {
    proof fn lemma_round_trip(v: [T; N], rest: Seq<u8>) {
        lemma_array_round_trip::<T, N>(v, rest);
    }
}

impl<T, const N: usize> SlowType for [T; N] {}

/// Reading a fixed block of `n` raw bytes.
pub open spec fn parse_byte_array(bytes: Seq<u8>, n: nat) -> Result<(Seq<u8>, nat), DecodeError> {
    if bytes.len() < n {
        Err(DecodeError::UnexpectedEof)
    } else {
        Ok((bytes.take(n as int), n))
    }
}

impl<const N: usize> Encoded for [u8; N] {
    /// The bytes themselves, with no count.
    open spec fn encoding(&self) -> Seq<u8> {
        self@
    }

    fn encode(&self, output: &mut Vec<u8>) {
        output.extend_from_slice(vstd::array::array_as_slice(self));
        assert(output@ =~= old(output)@ + self@);
    }
}

impl<const N: usize> Decoded for [u8; N] {
    open spec fn parse(bytes: Seq<u8>) -> Result<(Seq<u8>, nat), DecodeError> {
        parse_byte_array(bytes, N as nat)
    }

    fn decode(input: &[u8], pos: &mut usize) -> (r: Result<[u8; N], DecodeError>) {
        let start = *pos;
        if input.len() - start < N {
            return Err(DecodeError::UnexpectedEof);
        }
        let block = vstd::slice::slice_to_vec(vstd::slice::slice_subrange(input, start, start + N));
        let ghost seen = block@;
        assert(seen =~= input@.subrange(start as int, input@.len() as int).take(N as int));
        *pos = start + N;
        match array_from_vec::<u8, N>(block) {
            Some(array) => {
                assert(array.deep_view() =~= seen);
                Ok(array)
            },
            None => Err(DecodeError::InvalidData),
        }
    }
}

impl<const N: usize> RoundTrip for [u8; N] {
    proof fn lemma_round_trip(v: [u8; N], rest: Seq<u8>) {
        assert((v@ + rest).take(N as int) =~= v@);
        assert(v.deep_view() =~= v@);
    }
}

impl<const N: usize> Encoded for [bool; N] {
    /// Each value as one byte, `1` for true, with no count.
    open spec fn encoding(&self) -> Seq<u8> {
        crate::sequence::encode_all(self@)
    }

    fn encode(&self, output: &mut Vec<u8>) {
        encode_array(self, output);
    }
}

impl<const N: usize> Decoded for [bool; N] {
    open spec fn parse(bytes: Seq<u8>) -> Result<(Seq<bool>, nat), DecodeError> {
        parse_array::<bool>(bytes, N as nat)
    }

    fn decode(input: &[u8], pos: &mut usize) -> (r: Result<[bool; N], DecodeError>) {
        decode_array(input, pos)
    }
}

impl<const N: usize> RoundTrip for [bool; N] {
    proof fn lemma_round_trip(v: [bool; N], rest: Seq<u8>) {
        lemma_array_round_trip::<bool, N>(v, rest);
    }
}

impl<const N: usize> Encoded for [u16; N] {
    /// Each value's little-endian bytes in order, with no count.
    open spec fn encoding(&self) -> Seq<u8> {
        crate::sequence::encode_all(self@)
    }

    fn encode(&self, output: &mut Vec<u8>) {
        encode_array(self, output);
    }
}

impl<const N: usize> Decoded for [u16; N] {
    open spec fn parse(bytes: Seq<u8>) -> Result<(Seq<u16>, nat), DecodeError> {
        parse_array::<u16>(bytes, N as nat)
    }

    fn decode(input: &[u8], pos: &mut usize) -> (r: Result<[u16; N], DecodeError>) {
        decode_array(input, pos)
    }
}

impl<const N: usize> RoundTrip for [u16; N] {
    proof fn lemma_round_trip(v: [u16; N], rest: Seq<u8>) {
        lemma_array_round_trip::<u16, N>(v, rest);
    }
}

impl<const N: usize> Encoded for [u32; N] {
    /// Each value's little-endian bytes in order, with no count.
    open spec fn encoding(&self) -> Seq<u8> {
        crate::sequence::encode_all(self@)
    }

    fn encode(&self, output: &mut Vec<u8>) {
        encode_array(self, output);
    }
}

impl<const N: usize> Decoded for [u32; N] {
    open spec fn parse(bytes: Seq<u8>) -> Result<(Seq<u32>, nat), DecodeError> {
        parse_array::<u32>(bytes, N as nat)
    }

    fn decode(input: &[u8], pos: &mut usize) -> (r: Result<[u32; N], DecodeError>) {
        decode_array(input, pos)
    }
}

impl<const N: usize> RoundTrip for [u32; N] {
    proof fn lemma_round_trip(v: [u32; N], rest: Seq<u8>) {
        lemma_array_round_trip::<u32, N>(v, rest);
    }
}

impl<const N: usize> Encoded for [u64; N] {
    /// Each value's little-endian bytes in order, with no count.
    open spec fn encoding(&self) -> Seq<u8> {
        crate::sequence::encode_all(self@)
    }

    fn encode(&self, output: &mut Vec<u8>) {
        encode_array(self, output);
    }
}

impl<const N: usize> Decoded for [u64; N] {
    open spec fn parse(bytes: Seq<u8>) -> Result<(Seq<u64>, nat), DecodeError> {
        parse_array::<u64>(bytes, N as nat)
    }

    fn decode(input: &[u8], pos: &mut usize) -> (r: Result<[u64; N], DecodeError>) {
        decode_array(input, pos)
    }
}

impl<const N: usize> RoundTrip for [u64; N] {
    proof fn lemma_round_trip(v: [u64; N], rest: Seq<u8>) {
        lemma_array_round_trip::<u64, N>(v, rest);
    }
}

impl<const N: usize> Encoded for [i8; N] {
    /// Each value's little-endian bytes in order, with no count.
    open spec fn encoding(&self) -> Seq<u8> {
        crate::sequence::encode_all(self@)
    }

    fn encode(&self, output: &mut Vec<u8>) {
        encode_array(self, output);
    }
}

impl<const N: usize> Decoded for [i8; N] {
    open spec fn parse(bytes: Seq<u8>) -> Result<(Seq<i8>, nat), DecodeError> {
        parse_array::<i8>(bytes, N as nat)
    }

    fn decode(input: &[u8], pos: &mut usize) -> (r: Result<[i8; N], DecodeError>) {
        decode_array(input, pos)
    }
}

impl<const N: usize> RoundTrip for [i8; N] {
    proof fn lemma_round_trip(v: [i8; N], rest: Seq<u8>) {
        lemma_array_round_trip::<i8, N>(v, rest);
    }
}

impl<const N: usize> Encoded for [i16; N] {
    /// Each value's little-endian bytes in order, with no count.
    open spec fn encoding(&self) -> Seq<u8> {
        crate::sequence::encode_all(self@)
    }

    fn encode(&self, output: &mut Vec<u8>) {
        encode_array(self, output);
    }
}

impl<const N: usize> Decoded for [i16; N] {
    open spec fn parse(bytes: Seq<u8>) -> Result<(Seq<i16>, nat), DecodeError> {
        parse_array::<i16>(bytes, N as nat)
    }

    fn decode(input: &[u8], pos: &mut usize) -> (r: Result<[i16; N], DecodeError>) {
        decode_array(input, pos)
    }
}

impl<const N: usize> RoundTrip for [i16; N] {
    proof fn lemma_round_trip(v: [i16; N], rest: Seq<u8>) {
        lemma_array_round_trip::<i16, N>(v, rest);
    }
}

impl<const N: usize> Encoded for [i32; N] {
    /// Each value's little-endian bytes in order, with no count.
    open spec fn encoding(&self) -> Seq<u8> {
        crate::sequence::encode_all(self@)
    }

    fn encode(&self, output: &mut Vec<u8>) {
        encode_array(self, output);
    }
}

impl<const N: usize> Decoded for [i32; N] {
    open spec fn parse(bytes: Seq<u8>) -> Result<(Seq<i32>, nat), DecodeError> {
        parse_array::<i32>(bytes, N as nat)
    }

    fn decode(input: &[u8], pos: &mut usize) -> (r: Result<[i32; N], DecodeError>) {
        decode_array(input, pos)
    }
}

impl<const N: usize> RoundTrip for [i32; N] {
    proof fn lemma_round_trip(v: [i32; N], rest: Seq<u8>) {
        lemma_array_round_trip::<i32, N>(v, rest);
    }
}

impl<const N: usize> Encoded for [i64; N] {
    /// Each value's little-endian bytes in order, with no count.
    open spec fn encoding(&self) -> Seq<u8> {
        crate::sequence::encode_all(self@)
    }

    fn encode(&self, output: &mut Vec<u8>) {
        encode_array(self, output);
    }
}

impl<const N: usize> Decoded for [i64; N] {
    open spec fn parse(bytes: Seq<u8>) -> Result<(Seq<i64>, nat), DecodeError> {
        parse_array::<i64>(bytes, N as nat)
    }

    fn decode(input: &[u8], pos: &mut usize) -> (r: Result<[i64; N], DecodeError>) {
        decode_array(input, pos)
    }
}

impl<const N: usize> RoundTrip for [i64; N] {
    proof fn lemma_round_trip(v: [i64; N], rest: Seq<u8>) {
        lemma_array_round_trip::<i64, N>(v, rest);
    }
}

} // verus!
