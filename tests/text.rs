use xbinser::encoding::{Decoded, Encoded};
use xbinser::error::DecodeError;

fn encoded<T: Encoded>(value: &T) -> Vec<u8> {
    let mut out = Vec::new();
    value.encode(&mut out);
    out
}

fn decoded<T: Decoded>(bytes: &[u8]) -> (Result<T, DecodeError>, usize) {
    let mut pos = 0;
    let r = T::decode(bytes, &mut pos);
    (r, pos)
}

#[test]
fn text_is_byte_length_then_utf8() {
    assert_eq!(encoded(&String::from("hi")), vec![2, 0, 0, 0, 0, 0, 0, 0, 0x68, 0x69]);
    assert_eq!(encoded(&String::new()), vec![0; 8]);
}

#[test]
fn multibyte_text_counts_bytes_not_characters() {
    let text = String::from("h\u{e9}\u{20ac}");
    let bytes = encoded(&text);
    assert_eq!(bytes, vec![6, 0, 0, 0, 0, 0, 0, 0, 0x68, 0xC3, 0xA9, 0xE2, 0x82, 0xAC]);
    assert_eq!(decoded::<String>(&bytes), (Ok(text), 14));
}

#[test]
fn borrowed_text_encodes_like_owned() {
    let s: &str = "bye";
    assert_eq!(encoded(&s), encoded(&String::from("bye")));
}

#[test]
fn malformed_utf8_is_invalid_data() {
    let bytes = vec![2, 0, 0, 0, 0, 0, 0, 0, 0xC3, 0x28];
    assert_eq!(decoded::<String>(&bytes).0, Err(DecodeError::InvalidData));
    let surrogate = vec![3, 0, 0, 0, 0, 0, 0, 0, 0xED, 0xA0, 0x80];
    assert_eq!(decoded::<String>(&surrogate).0, Err(DecodeError::InvalidData));
}

#[test]
fn truncated_text_is_unexpected_eof() {
    let bytes = vec![5, 0, 0, 0, 0, 0, 0, 0, 0x68, 0x69];
    assert_eq!(decoded::<String>(&bytes).0, Err(DecodeError::UnexpectedEof));
    assert_eq!(decoded::<String>(&[5, 0, 0]).0, Err(DecodeError::UnexpectedEof));
}

#[test]
fn text_lists_round_trip() {
    let value = vec![String::from("alpha"), String::new(), String::from("\u{1F600}")];
    let bytes = encoded(&value);
    assert_eq!(decoded::<Vec<String>>(&bytes), (Ok(value), bytes.len()));
}
