use xbinser::encoding::{Decoded, Encoded};
use xbinser::error::DecodeError;
use xbinser::sum::{decode_tag, encode_tag, tag_width};

#[test]
fn struct_of_two_texts() {
    let value = (String::from("hi"), String::from("bye"));
    let mut out = Vec::new();
    value.encode(&mut out);
    assert_eq!(
        out,
        vec![
            0x02, 0x00, 0x00, 0x00, 0x00, 0x00, 0x00, 0x00, 0x68, 0x69, 0x03, 0x00, 0x00, 0x00,
            0x00, 0x00, 0x00, 0x00, 0x62, 0x79, 0x65
        ]
    );
    let mut pos = 0;
    assert_eq!(<(String, String)>::decode(&out, &mut pos), Ok(value));
    assert_eq!(pos, out.len());
}

#[test]
fn nested_products_round_trip() {
    let value = ((true, -3i32), (vec![1u16, 2], [String::from("z")]));
    let mut out = Vec::new();
    value.encode(&mut out);
    let mut pos = 0;
    assert_eq!(
        <((bool, i32), (Vec<u16>, [String; 1]))>::decode(&out, &mut pos),
        Ok(value)
    );
    assert_eq!(pos, out.len());
}

#[test]
fn product_fails_when_a_field_fails() {
    let bytes = [0x01, 0x02];
    let mut pos = 0;
    assert_eq!(<(u8, u16)>::decode(&bytes, &mut pos), Err(DecodeError::UnexpectedEof));
}

#[derive(Debug, PartialEq)]
enum Example {
    A { flag: bool, n: u8 },
    B,
}

const EXAMPLE_VARIANTS: u64 = 2;

fn encode_example(value: &Example, output: &mut Vec<u8>) {
    match value {
        Example::A { flag, n } => {
            encode_tag(0, EXAMPLE_VARIANTS, output);
            flag.encode(output);
            n.encode(output);
        }
        Example::B => encode_tag(1, EXAMPLE_VARIANTS, output),
    }
}

fn decode_example(input: &[u8], pos: &mut usize) -> Result<Example, DecodeError> {
    match decode_tag(input, pos, EXAMPLE_VARIANTS)? {
        0 => {
            let flag = bool::decode(input, pos)?;
            let n = u8::decode(input, pos)?;
            Ok(Example::A { flag, n })
        }
        _ => Ok(Example::B),
    }
}

#[test]
fn enum_variant_with_fields() {
    let mut out = Vec::new();
    encode_example(&Example::A { flag: true, n: 50 }, &mut out);
    assert_eq!(out, vec![0x00, 0x01, 0x32]);
    let mut pos = 0;
    assert_eq!(decode_example(&out, &mut pos), Ok(Example::A { flag: true, n: 50 }));
    assert_eq!(pos, 3);
}

#[test]
fn enum_variant_without_fields() {
    let mut out = Vec::new();
    encode_example(&Example::B, &mut out);
    assert_eq!(out, vec![0x01]);
    let mut pos = 0;
    assert_eq!(decode_example(&out, &mut pos), Ok(Example::B));
}

#[test]
fn unknown_tag_is_invalid_data() {
    let mut pos = 0;
    assert_eq!(decode_example(&[0xFF], &mut pos), Err(DecodeError::InvalidData));
    let mut pos = 0;
    assert_eq!(decode_tag(&[0x02], &mut pos, 2), Err(DecodeError::InvalidData));
}

#[test]
fn missing_tag_is_unexpected_eof() {
    let mut pos = 0;
    assert_eq!(decode_tag(&[], &mut pos, 2), Err(DecodeError::UnexpectedEof));
    let mut pos = 0;
    assert_eq!(decode_tag(&[0x01], &mut pos, 300), Err(DecodeError::UnexpectedEof));
}

#[test]
fn three_hundred_variants_use_two_byte_tags() {
    assert_eq!(tag_width(300), 2);
    let mut out = Vec::new();
    encode_tag(299, 300, &mut out);
    assert_eq!(out, vec![0x2B, 0x01]);
    let mut pos = 0;
    assert_eq!(decode_tag(&out, &mut pos, 300), Ok(299));
    assert_eq!(pos, 2);
}

#[test]
fn tag_width_boundaries() {
    assert_eq!(tag_width(0), 1);
    assert_eq!(tag_width(1), 1);
    assert_eq!(tag_width(256), 1);
    assert_eq!(tag_width(257), 2);
    assert_eq!(tag_width(65536), 2);
    assert_eq!(tag_width(65537), 4);
    assert_eq!(tag_width(1 << 32), 4);
    assert_eq!(tag_width((1 << 32) + 1), 8);
    assert_eq!(tag_width(u64::MAX), 8);
}

#[test]
fn wide_tags_are_little_endian() {
    let mut out = Vec::new();
    encode_tag(255, 256, &mut out);
    assert_eq!(out, vec![0xFF]);
    let mut out = Vec::new();
    encode_tag(0x0102_0304, 1 << 32, &mut out);
    assert_eq!(out, vec![0x04, 0x03, 0x02, 0x01]);
    let mut pos = 0;
    assert_eq!(decode_tag(&out, &mut pos, 1 << 32), Ok(0x0102_0304));
    let mut out = Vec::new();
    encode_tag(5, u64::MAX, &mut out);
    assert_eq!(out, vec![5, 0, 0, 0, 0, 0, 0, 0]);
}
