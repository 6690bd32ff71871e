use xbinser::encoding::{Decoded, Encoded};
use xbinser::error::DecodeError;

fn encoded<T: Encoded>(value: &T) -> Vec<u8> {
    let mut out = Vec::new();
    value.encode(&mut out);
    out
}

fn decoded<T: Decoded>(bytes: &[u8]) -> (Result<T, DecodeError>, usize) {
    let mut pos = 0;
    let r = T::decode(bytes, &mut pos);
    (r, pos)
}

#[test]
fn u8_fifty_is_one_byte() {
    assert_eq!(encoded(&50u8), vec![0x32]);
    assert_eq!(decoded::<u8>(&[0x32]), (Ok(50u8), 1));
}

#[test]
fn bool_is_one_byte() {
    assert_eq!(encoded(&true), vec![0x01]);
    assert_eq!(encoded(&false), vec![0x00]);
    assert_eq!(decoded::<bool>(&[0x00]), (Ok(false), 1));
    assert_eq!(decoded::<bool>(&[0x01]), (Ok(true), 1));
}

#[test]
fn bool_accepts_any_nonzero_byte_as_true() {
    assert_eq!(decoded::<bool>(&[0x02]).0, Ok(true));
    assert_eq!(decoded::<bool>(&[0xFF]).0, Ok(true));
}

#[test]
fn bool_from_empty_stream_fails() {
    assert_eq!(decoded::<bool>(&[]).0, Err(DecodeError::UnexpectedEof));
}

#[test]
fn integers_are_little_endian() {
    assert_eq!(encoded(&0x1234u16), vec![0x34, 0x12]);
    assert_eq!(encoded(&0x1234_5678u32), vec![0x78, 0x56, 0x34, 0x12]);
    assert_eq!(
        encoded(&0x0102_0304_0506_0708u64),
        vec![0x08, 0x07, 0x06, 0x05, 0x04, 0x03, 0x02, 0x01]
    );
    assert_eq!(encoded(&-1i8), vec![0xFF]);
    assert_eq!(encoded(&-2i16), vec![0xFE, 0xFF]);
    assert_eq!(encoded(&-2i32), vec![0xFE, 0xFF, 0xFF, 0xFF]);
    assert_eq!(encoded(&i64::MIN), vec![0, 0, 0, 0, 0, 0, 0, 0x80]);
}

#[test]
fn integers_read_back() {
    assert_eq!(decoded::<u16>(&[0x34, 0x12]), (Ok(0x1234u16), 2));
    assert_eq!(decoded::<i16>(&[0xFE, 0xFF]), (Ok(-2i16), 2));
    assert_eq!(decoded::<u64>(&encoded(&u64::MAX)), (Ok(u64::MAX), 8));
    assert_eq!(decoded::<i32>(&encoded(&i32::MIN)), (Ok(i32::MIN), 4));
    assert_eq!(decoded::<i64>(&encoded(&-123456789i64)), (Ok(-123456789i64), 8));
    assert_eq!(decoded::<i8>(&[0x80]), (Ok(-128i8), 1));
}

#[test]
fn decoding_leaves_following_bytes() {
    let bytes = [0x01, 0x02, 0x03];
    let mut pos = 0;
    assert_eq!(u16::decode(&bytes, &mut pos), Ok(0x0201));
    assert_eq!(pos, 2);
    assert_eq!(u8::decode(&bytes, &mut pos), Ok(0x03));
    assert_eq!(pos, 3);
    assert_eq!(u8::decode(&bytes, &mut pos), Err(DecodeError::UnexpectedEof));
}

#[test]
fn short_integers_fail_with_unexpected_eof() {
    let eof = DecodeError::UnexpectedEof;
    assert_eq!(decoded::<u8>(&[]).0.unwrap_err(), eof);
    assert_eq!(decoded::<i8>(&[]).0.unwrap_err(), eof);
    assert_eq!(decoded::<u16>(&[0x01]).0.unwrap_err(), eof);
    assert_eq!(decoded::<i16>(&[0x01]).0.unwrap_err(), eof);
    assert_eq!(decoded::<u32>(&[0x01, 0x02, 0x03]).0.unwrap_err(), eof);
    assert_eq!(decoded::<i32>(&[]).0.unwrap_err(), eof);
    assert_eq!(decoded::<u64>(&[0x01; 7]).0.unwrap_err(), eof);
    assert_eq!(decoded::<i64>(&[0x01; 4]).0.unwrap_err(), eof);
}

#[test]
fn encoding_twice_gives_identical_bytes() {
    let value = 0xBEEFu16;
    assert_eq!(encoded(&value), encoded(&value));
    let mut out = Vec::new();
    value.encode(&mut out);
    value.encode(&mut out);
    assert_eq!(out, vec![0xEF, 0xBE, 0xEF, 0xBE]);
}
