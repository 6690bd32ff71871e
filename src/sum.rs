use vstd::prelude::*;
use crate::error::DecodeError;
use crate::scalar::{byte_power, read_le, write_le};

verus! {

/// Whether `width` is one of the tag widths in bytes: 1, 2, 4 or 8.
pub open spec fn is_tag_width(width: nat) -> bool {
    width == 1 || width == 2 || width == 4 || width == 8
}

/// Whether a tag of `width` bytes can hold every ordinal of `variant_count`
/// variants, that is, `variant_count - 1` fits unsigned in it.
pub open spec fn tag_fits(variant_count: nat, width: nat) -> bool {
    variant_count <= byte_power(width)
}

/// The tag width of an enum with `variant_count` variants: the smallest of
/// 1, 2, 4 and 8 bytes that holds every ordinal.
pub open spec fn tag_width_of(variant_count: nat) -> nat {
    if tag_fits(variant_count, 1) {
        1
    } else if tag_fits(variant_count, 2) {
        2
    } else if tag_fits(variant_count, 4) {
        4
    } else {
        8
    }
}

/// The tag that opens the encoding of the variant at `ordinal`.
pub open spec fn tag_encoding(ordinal: nat, variant_count: nat) -> Seq<u8> {
    crate::scalar::le_bytes(ordinal, tag_width_of(variant_count))
}

/// Reading the tag of an enum with `variant_count` variants: the ordinal and
/// the tag's width, `UnexpectedEof` when the tag is cut short, `InvalidData`
/// when it names no declared variant.
pub open spec fn parse_tag(bytes: Seq<u8>, variant_count: nat) -> Result<(nat, nat), DecodeError> {
    match crate::scalar::parse_le(bytes, tag_width_of(variant_count)) {
        Ok((ordinal, n)) => if ordinal < variant_count {
            Ok((ordinal, n))
        } else {
            Err(DecodeError::InvalidData)
        },
        Err(e) => Err(e),
    }
}

/// The tag width, in bytes, of an enum with `variant_count` declared
/// variants: 1 up to 256 variants, 2 up to 65536, 4 up to 2^32, else 8.
pub fn tag_width(variant_count: u64) -> (width: usize)
    ensures
        width == tag_width_of(variant_count as nat),
        is_tag_width(width as nat),
        tag_fits(variant_count as nat, width as nat),
        forall|w: nat| is_tag_width(w) && tag_fits(variant_count as nat, w) ==> width <= w,
{
    proof {
        crate::scalar::lemma_byte_power_values();
    }
    if variant_count <= 0x100 {
        1
    } else if variant_count <= 0x1_0000 {
        2
    } else if variant_count <= 0x1_0000_0000 {
        4
    } else {
        8
    }
}

/// Writes the tag of the variant at `ordinal` of an enum with
/// `variant_count` variants: the ordinal, little-endian, in the enum's tag width.
pub fn encode_tag(ordinal: u64, variant_count: u64, output: &mut Vec<u8>)
    requires
        ordinal < variant_count,
    ensures
        final(output)@ == old(output)@ + tag_encoding(ordinal as nat, variant_count as nat),
{
    let width = tag_width(variant_count);
    write_le(output, ordinal, width);
}

/// Reads the tag of an enum with `variant_count` variants at `*pos` and
/// returns the ordinal of the variant it names.
pub fn decode_tag(input: &[u8], pos: &mut usize, variant_count: u64) -> (r: Result<u64, DecodeError>)
    requires
        *old(pos) <= input@.len(),
    ensures
        match parse_tag(input@.subrange(*old(pos) as int, input@.len() as int), variant_count as nat) {
            Ok((ordinal, n)) => {
                &&& r == Ok::<u64, DecodeError>(ordinal as u64)
                &&& *final(pos) == *old(pos) + n
                &&& *final(pos) <= input@.len()
            },
            Err(e) => r == Err::<u64, DecodeError>(e),
        },
{
    proof {
        crate::scalar::lemma_byte_power_values();
    }
    let width = tag_width(variant_count);
    match read_le(input, pos, width) {
        Ok(ordinal) => if ordinal < variant_count {
            Ok(ordinal)
        } else {
            Err(DecodeError::InvalidData)
        },
        Err(e) => Err(e),
    }
}

/// A variant's tag parses back as its ordinal, whatever follows it.
pub proof fn lemma_tag_round_trip(ordinal: nat, variant_count: nat, rest: Seq<u8>)
    requires
        ordinal < variant_count <= u64::MAX,
    ensures
        parse_tag(tag_encoding(ordinal, variant_count) + rest, variant_count) == Ok::<
            (nat, nat),
            DecodeError,
        >((ordinal, tag_width_of(variant_count))),
        tag_encoding(ordinal, variant_count).len() == tag_width_of(variant_count),
{
    let w = tag_width_of(variant_count);
    crate::scalar::lemma_byte_power_values();
    crate::scalar::lemma_le_bytes_len(ordinal, w);
    if variant_count > byte_power(4) {
        crate::scalar::lemma_byte_power_monotone(4, 8);
    }
    assert(ordinal < byte_power(w));
    crate::scalar::lemma_parse_le_round_trip(ordinal, w, rest);
}

} // verus!
