use vstd::prelude::*;
use crate::error::DecodeError;
use crate::encoding::{Decoded, Encoded, RoundTrip, SlowType};
use crate::scalar::{read_le, write_le};

verus! {

/// The encodings of `items`, one after another, with nothing between them.
pub open spec fn encode_all<T: Encoded>(items: Seq<T>) -> Seq<u8>
    decreases items.len(),
{
    if items.len() == 0 {
        Seq::empty()
    } else {
        encode_all(items.drop_last()) + items.last().encoding()
    }
}

/// The 8-byte little-endian element count that opens a growable sequence.
pub open spec fn count_prefix(count: nat) -> Seq<u8> {
    crate::scalar::le_bytes(count, 8)
}

/// A growable sequence on the wire: its count, then each element in order.
pub open spec fn seq_encoding<T: Encoded>(items: Seq<T>) -> Seq<u8> {
    count_prefix(items.len()) + encode_all(items)
}

/// Reading `count` values of `T` back to back from the front of `bytes`:
/// their abstract values and the bytes they took, or the first failure.
pub open spec fn parse_items<T: Decoded>(bytes: Seq<u8>, count: nat) -> Result<
    (Seq<T::V>, nat),
    DecodeError,
>
    decreases count,
{
    if count == 0 {
        Ok((Seq::empty(), 0))
    } else {
        match parse_items::<T>(bytes, (count - 1) as nat) {
            Ok((vs, n)) => match T::parse(bytes.skip(n as int)) {
                Ok((v, m)) => Ok((vs.push(v), n + m)),
                Err(e) => Err(e),
            },
            Err(e) => Err(e),
        }
    }
}

/// Reading a growable sequence: the 8-byte count, then that many elements.
pub open spec fn parse_seq<T: Decoded>(bytes: Seq<u8>) -> Result<(Seq<T::V>, nat), DecodeError> {
    match crate::scalar::parse_le(bytes, 8) {
        Ok((count, _)) => match parse_items::<T>(bytes.skip(8), count) {
            Ok((vs, n)) => Ok((vs, 8 + n)),
            Err(e) => Err(e),
        },
        Err(e) => Err(e),
    }
}

/// The abstract values of a sequence of decodable elements.
pub open spec fn deep_items<T: DeepView>(items: Seq<T>) -> Seq<T::V> {
    Seq::new(items.len(), |i: int| items[i].deep_view())
}

/// Reading `count` elements yields exactly `count` values.
pub proof fn lemma_parse_items_len<T: Decoded>(bytes: Seq<u8>, count: nat)
    ensures
        parse_items::<T>(bytes, count) is Ok ==> parse_items::<T>(bytes, count)->Ok_0.0.len()
            == count,
    decreases count,
{
    if count > 0 {
        lemma_parse_items_len::<T>(bytes, (count - 1) as nat);
    }
}

/// Once reading the first elements fails, reading more fails the same way.
pub proof fn lemma_parse_items_error<T: Decoded>(bytes: Seq<u8>, count: nat, more: nat)
    requires
        count <= more,
        parse_items::<T>(bytes, count) is Err,
    ensures
        parse_items::<T>(bytes, more) == parse_items::<T>(bytes, count),
    decreases more,
{
    if count < more {
        lemma_parse_items_error::<T>(bytes, count, (more - 1) as nat);
    }
}

/// Elements encoded back to back, followed by anything, parse back as those elements.
pub proof fn lemma_parse_items_round_trip<T: RoundTrip>(items: Seq<T>, rest: Seq<u8>)
    requires
        encode_all(items).len() <= usize::MAX,
    ensures
        parse_items::<T>(encode_all(items) + rest, items.len()) == Ok::<
            (Seq<T::V>, nat),
            DecodeError,
        >((deep_items(items), encode_all(items).len())),
    decreases items.len(),
{
    if items.len() > 0 {
        let init = items.drop_last();
        let last = items.last();
        let tail = last.encoding() + rest;
        let bytes = encode_all(items) + rest;
        assert(encode_all(items) == encode_all(init) + last.encoding());
        lemma_parse_items_round_trip::<T>(init, tail);
        assert(encode_all(items) == encode_all(init) + last.encoding());
        assert(bytes =~= encode_all(init) + tail);
        assert(bytes.skip(encode_all(init).len() as int) =~= tail);
        T::lemma_round_trip(last, rest);
        assert(deep_items(init).push(last.deep_view()) =~= deep_items(items));
        assert(init.len() == (items.len() - 1) as nat);
    } else {
        assert(deep_items(items) =~= Seq::<T::V>::empty());
    }
}

/// A growable sequence parses back from its encoding, whatever follows it.
pub proof fn lemma_seq_round_trip<T: RoundTrip>(items: Seq<T>, rest: Seq<u8>)
    requires
        items.len() <= u64::MAX,
        seq_encoding(items).len() <= usize::MAX,
    ensures
        parse_seq::<T>(seq_encoding(items) + rest) == Ok::<(Seq<T::V>, nat), DecodeError>(
            (deep_items(items), seq_encoding(items).len()),
        ),
{
    let body = encode_all(items) + rest;
    crate::scalar::lemma_byte_power_values();
    crate::scalar::lemma_le_bytes_len(items.len(), 8);
    assert(seq_encoding(items) + rest =~= count_prefix(items.len()) + body);
    crate::scalar::lemma_parse_le_round_trip(items.len(), 8, body);
    assert((count_prefix(items.len()) + body).skip(8) =~= body);
    lemma_parse_items_round_trip::<T>(items, rest);
}

/// Appends the encoding of each item, in order, to `output`.
pub fn encode_items<T: Encoded>(items: &[T], output: &mut Vec<u8>)
    ensures
        final(output)@ == old(output)@ + encode_all(items@),
{
    let mut i: usize = 0;
    while i < items.len()
        invariant
            i <= items@.len(),
            output@ == old(output)@ + encode_all(items@.take(i as int)),
        decreases items@.len() - i,
    {
        items[i].encode(output);
        assert(items@.take(i + 1).drop_last() =~= items@.take(i as int));
        assert(output@ =~= old(output)@ + encode_all(items@.take(i + 1)));
        i = i + 1;
    }
    assert(items@.take(i as int) =~= items@);
}

/// Writes a growable sequence element by element: the count, then each encoding.
pub fn encode_seq<T: Encoded>(items: &[T], output: &mut Vec<u8>)
    ensures
        final(output)@ == old(output)@ + seq_encoding(items@),
{
    proof {
        crate::scalar::lemma_byte_power_values();
    }
    write_le(output, items.len() as u64, 8);
    encode_items(items, output);
    assert(output@ =~= old(output)@ + seq_encoding(items@));
}

/// Reads `count` elements one after another, starting at `*pos`.
pub fn decode_items<T: Decoded>(input: &[u8], pos: &mut usize, count: u64) -> (r: Result<
    Vec<T>,
    DecodeError,
>)
    requires
        *old(pos) <= input@.len(),
    ensures
        match parse_items::<T>(input@.subrange(*old(pos) as int, input@.len() as int), count as nat) {
            Ok((vs, n)) => {
                &&& r is Ok
                &&& r->Ok_0.deep_view() == vs
                &&& *final(pos) == *old(pos) + n
                &&& *final(pos) <= input@.len()
            },
            Err(e) => r == Err::<Vec<T>, DecodeError>(e),
        },
{
    let start = *pos;
    let ghost body = input@.subrange(start as int, input@.len() as int);
    let mut items: Vec<T> = Vec::new();
    assert(items.deep_view() =~= Seq::<T::V>::empty());
    let mut i: u64 = 0;
    while i < count
        invariant
            i <= count,
            start == *old(pos),
            start <= *pos <= input@.len(),
            body == input@.subrange(start as int, input@.len() as int),
            parse_items::<T>(body, i as nat) == Ok::<(Seq<T::V>, nat), DecodeError>(
                (items.deep_view(), (*pos - start) as nat),
            ),
        decreases count - i,
    {
        let ghost n = (*pos - start) as nat;
        assert(body.skip(n as int) =~= input@.subrange(*pos as int, input@.len() as int));
        match T::decode(input, pos) {
            Ok(item) => {
                let ghost old_items = items.deep_view();
                items.push(item);
                assert(items.deep_view() =~= old_items.push(item.deep_view()));
                assert(parse_items::<T>(body, (i + 1) as nat) == Ok::<(Seq<T::V>, nat), DecodeError>(
                    (items.deep_view(), (*pos - start) as nat),
                ));
            },
            Err(e) => {
                assert(parse_items::<T>(body, (i + 1) as nat) == Err::<(Seq<T::V>, nat), DecodeError>(e));
                proof {
                    lemma_parse_items_error::<T>(body, (i + 1) as nat, count as nat);
                }
                return Err(e);
            },
        }
        i = i + 1;
    }
    Ok(items)
}

/// Reads a growable sequence element by element: the count, then that many elements.
pub fn decode_seq<T: Decoded>(input: &[u8], pos: &mut usize) -> (r: Result<Vec<T>, DecodeError>)
    requires
        *old(pos) <= input@.len(),
    ensures
        match parse_seq::<T>(input@.subrange(*old(pos) as int, input@.len() as int)) {
            Ok((vs, n)) => {
                &&& r is Ok
                &&& r->Ok_0.deep_view() == vs
                &&& *final(pos) == *old(pos) + n
                &&& *final(pos) <= input@.len()
            },
            Err(e) => r == Err::<Vec<T>, DecodeError>(e),
        },
{
    let ghost bytes = input@.subrange(*old(pos) as int, input@.len() as int);
    proof {
        crate::scalar::lemma_byte_power_values();
    }
    let count = match read_le(input, pos, 8) {
        Ok(c) => c,
        Err(e) => return Err(e),
    };
    assert(bytes.skip(8) =~= input@.subrange(*pos as int, input@.len() as int));
    decode_items(input, pos, count)
}

impl<T: Encoded + SlowType> Encoded for Vec<T> {
    open spec fn encoding(&self) -> Seq<u8> {
        seq_encoding(self@)
    }

    fn encode(&self, output: &mut Vec<u8>) {
        encode_seq(self.as_slice(), output);
    }
}

impl<T: Decoded + SlowType> Decoded for Vec<T> {
    open spec fn parse(bytes: Seq<u8>) -> Result<(Seq<T::V>, nat), DecodeError> {
        parse_seq::<T>(bytes)
    }

    fn decode(input: &[u8], pos: &mut usize) -> (r: Result<Vec<T>, DecodeError>) {
        decode_seq(input, pos)
    }
}

impl<T: RoundTrip + SlowType> RoundTrip for Vec<T> {
    proof fn lemma_round_trip(v: Vec<T>, rest: Seq<u8>) {
        assert(v.len() == v@.len());
        lemma_seq_round_trip::<T>(v@, rest);
        assert(deep_items(v@) =~= v.deep_view());
    }
}

impl<T> SlowType for Vec<T> {}

impl<'a, T: Encoded + SlowType> Encoded for &'a [T] {
    /// The same bytes as a growable sequence with these elements.
    open spec fn encoding(&self) -> Seq<u8> {
        seq_encoding(self@)
    }

    fn encode(&self, output: &mut Vec<u8>) {
        encode_seq(self, output);
    }
}

impl<'a, T> SlowType for &'a [T] {}

} // verus!
