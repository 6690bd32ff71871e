use vstd::prelude::*;
use crate::error::DecodeError;
use crate::encoding::{Decoded, Encoded, RoundTrip};

verus! {

/// Decoding what was encoded gives the value back: for every value of a
/// supported type (scalars, text, fixed and growable sequences, products of
/// these, nested to any depth), reading its encoding consumes all of it and
/// yields a value with the same content.
pub proof fn lemma_decode_of_encode<T: RoundTrip>(v: T)
    requires
        v.encoding().len() <= usize::MAX,
    ensures
        T::parse(v.encoding()) == Ok::<(T::V, nat), DecodeError>(
            (v.deep_view(), v.encoding().len()),
        ),
{
    T::lemma_round_trip(v, Seq::empty());
    assert(v.encoding() + Seq::empty() =~= v.encoding());
}

/// An enum value reads back as the variant it was: the tag of the variant at
/// `ordinal` of `variant_count` variants, followed by the variant's fields,
/// parses back as that ordinal and then those fields.
pub proof fn lemma_variant_round_trip<P: RoundTrip>(
    ordinal: nat,
    variant_count: nat,
    fields: P,
    rest: Seq<u8>,
)
    requires
        ordinal < variant_count <= u64::MAX,
        fields.encoding().len() <= usize::MAX,
    ensures
        ({
            let bytes = crate::sum::tag_encoding(ordinal, variant_count) + fields.encoding() + rest;
            let width = crate::sum::tag_width_of(variant_count);
            &&& crate::sum::parse_tag(bytes, variant_count) == Ok::<(nat, nat), DecodeError>(
                (ordinal, width),
            )
            &&& P::parse(bytes.skip(width as int)) == Ok::<(P::V, nat), DecodeError>(
                (fields.deep_view(), fields.encoding().len()),
            )
        }),
{
    let tag = crate::sum::tag_encoding(ordinal, variant_count);
    let bytes = tag + fields.encoding() + rest;
    assert(bytes =~= tag + (fields.encoding() + rest));
    crate::sum::lemma_tag_round_trip(ordinal, variant_count, fields.encoding() + rest);
    assert(bytes.skip(tag.len() as int) =~= fields.encoding() + rest);
    P::lemma_round_trip(fields, rest);
}

/// The bulk path writes the same bytes as the element-by-element path: a
/// byte buffer copied as one block is the concatenation of each byte's own
/// encoding.
pub proof fn lemma_bulk_bytes_match_elementwise(items: Seq<u8>)
    ensures
        crate::sequence::encode_all(items) == items,
        crate::sequence::count_prefix(items.len()) + items == crate::sequence::seq_encoding(items),
    decreases items.len(),
{
    if items.len() > 0 {
        lemma_bulk_bytes_match_elementwise(items.drop_last());
        crate::scalar::lemma_le_one_byte(items.last() as nat);
        assert(items.drop_last() + seq![items.last()] =~= items);
    } else {
        assert(crate::sequence::encode_all(items) =~= items);
    }
}

/// The bulk path for `i8` buffers, which reinterprets each value's bits as a
/// byte, writes the same bytes as encoding each value in turn.
pub proof fn lemma_bulk_i8_match_elementwise(items: Seq<i8>)
    ensures
        crate::sequence::encode_all(items) == crate::bulk::i8_bits(items),
    decreases items.len(),
{
    if items.len() > 0 {
        let x = items.last();
        lemma_bulk_i8_match_elementwise(items.drop_last());
        crate::scalar::lemma_le_one_byte((x as u8) as nat);
        assert(crate::bulk::i8_bits(items.drop_last()) + seq![x as u8] =~= crate::bulk::i8_bits(
            items,
        ));
    } else {
        assert(crate::sequence::encode_all(items) =~= crate::bulk::i8_bits(items));
    }
}

/// Reading `count` single bytes one at a time takes the next `count` bytes,
/// or fails with `UnexpectedEof` when fewer remain.
proof fn lemma_bytes_one_at_a_time(bytes: Seq<u8>, count: nat)
    ensures
        crate::sequence::parse_items::<u8>(bytes, count) == if bytes.len() < count {
            Err::<(Seq<u8>, nat), DecodeError>(DecodeError::UnexpectedEof)
        } else {
            Ok((bytes.take(count as int), count))
        },
    decreases count,
{
    crate::scalar::lemma_byte_power_values();
    if count > 0 {
        let c1 = (count - 1) as nat;
        lemma_bytes_one_at_a_time(bytes, c1);
        if bytes.len() >= count {
            let b = bytes.skip(c1 as int);
            crate::scalar::lemma_le_value_one_byte(b.take(1));
            assert(bytes.take(c1 as int).push(b[0]) =~= bytes.take(count as int));
        } else if bytes.len() >= c1 {
            assert(bytes.skip(c1 as int).len() < 1);
        }
    } else {
        assert(bytes.take(0) =~= Seq::<u8>::empty());
    }
}

/// The bulk path reads what the element-by-element path reads: a byte
/// buffer taken as one block gives the same bytes, the same length and the
/// same failures as reading each byte in turn.
pub proof fn lemma_bulk_bytes_read_as_elementwise(bytes: Seq<u8>)
    ensures
        crate::bulk::parse_byte_block(bytes) == crate::sequence::parse_seq::<u8>(bytes),
{
    crate::scalar::lemma_byte_power_values();
    if bytes.len() >= 8 {
        let count = crate::scalar::le_value(bytes.take(8));
        lemma_bytes_one_at_a_time(bytes.skip(8), count);
        if bytes.len() >= 8 + count {
            assert(bytes.skip(8).take(count as int) =~= bytes.subrange(8, 8 + count as int));
        }
    }
}

/// Reading any fixed-width integer from fewer bytes than its width fails
/// with `UnexpectedEof`.
pub proof fn lemma_short_integer_fails(bytes: Seq<u8>)
    ensures
        bytes.len() < 1 ==> <u8 as Decoded>::parse(bytes) == Err::<(u8, nat), DecodeError>(
            DecodeError::UnexpectedEof,
        ),
        bytes.len() < 1 ==> <i8 as Decoded>::parse(bytes) == Err::<(i8, nat), DecodeError>(
            DecodeError::UnexpectedEof,
        ),
        bytes.len() < 2 ==> <u16 as Decoded>::parse(bytes) == Err::<(u16, nat), DecodeError>(
            DecodeError::UnexpectedEof,
        ),
        bytes.len() < 2 ==> <i16 as Decoded>::parse(bytes) == Err::<(i16, nat), DecodeError>(
            DecodeError::UnexpectedEof,
        ),
        bytes.len() < 4 ==> <u32 as Decoded>::parse(bytes) == Err::<(u32, nat), DecodeError>(
            DecodeError::UnexpectedEof,
        ),
        bytes.len() < 4 ==> <i32 as Decoded>::parse(bytes) == Err::<(i32, nat), DecodeError>(
            DecodeError::UnexpectedEof,
        ),
        bytes.len() < 8 ==> <u64 as Decoded>::parse(bytes) == Err::<(u64, nat), DecodeError>(
            DecodeError::UnexpectedEof,
        ),
        bytes.len() < 8 ==> <i64 as Decoded>::parse(bytes) == Err::<(i64, nat), DecodeError>(
            DecodeError::UnexpectedEof,
        ),
{
}

} // verus!
