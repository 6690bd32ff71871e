use xbinser::encoding::{Decoded, Encoded};
use xbinser::error::DecodeError;

fn encoded<T: Encoded>(value: &T) -> Vec<u8> {
    let mut out = Vec::new();
    value.encode(&mut out);
    out
}

fn decoded<T: Decoded>(bytes: &[u8]) -> (Result<T, DecodeError>, usize) {
    let mut pos = 0;
    let r = T::decode(bytes, &mut pos);
    (r, pos)
}

fn count(n: u64) -> Vec<u8> {
    n.to_le_bytes().to_vec()
}

#[test]
fn byte_list_is_count_then_bytes() {
    let mut expected = count(3);
    expected.extend_from_slice(&[1, 2, 3]);
    assert_eq!(encoded(&vec![1u8, 2, 3]), expected);
    assert_eq!(decoded::<Vec<u8>>(&expected), (Ok(vec![1u8, 2, 3]), 11));
}

#[test]
fn empty_list_is_a_zero_count() {
    assert_eq!(encoded(&Vec::<u8>::new()), count(0));
    assert_eq!(encoded(&Vec::<String>::new()), count(0));
    assert_eq!(decoded::<Vec<u32>>(&count(0)), (Ok(Vec::new()), 8));
}

#[test]
fn signed_byte_list_keeps_the_bits() {
    let mut expected = count(3);
    expected.extend_from_slice(&[0xFF, 0x02, 0x80]);
    assert_eq!(encoded(&vec![-1i8, 2, -128]), expected);
    assert_eq!(decoded::<Vec<i8>>(&expected).0, Ok(vec![-1i8, 2, -128]));
}

#[test]
fn wide_integer_list_matches_element_by_element() {
    let items = vec![0x0102u16, 0xFFFE, 7];
    let mut expected = count(3);
    for item in &items {
        item.encode(&mut expected);
    }
    assert_eq!(encoded(&items), expected);
    assert_eq!(expected[8..].to_vec(), vec![0x02, 0x01, 0xFE, 0xFF, 0x07, 0x00]);
    assert_eq!(decoded::<Vec<u16>>(&expected), (Ok(items), 14));
}

#[test]
fn byte_list_matches_element_by_element() {
    let items = vec![9u8, 8, 7, 6];
    let mut by_element = count(4);
    for item in &items {
        item.encode(&mut by_element);
    }
    assert_eq!(encoded(&items), by_element);
}

#[test]
fn signed_integer_lists_round_trip() {
    let a = vec![-5i16, 300, i16::MIN];
    let b = vec![-1i32, 0, i32::MAX];
    let c = vec![i64::MIN, 42];
    let d = vec![u32::MAX, 1];
    let e = vec![u64::MAX];
    assert_eq!(decoded::<Vec<i16>>(&encoded(&a)).0, Ok(a));
    assert_eq!(decoded::<Vec<i32>>(&encoded(&b)).0, Ok(b));
    assert_eq!(decoded::<Vec<i64>>(&encoded(&c)).0, Ok(c));
    assert_eq!(decoded::<Vec<u32>>(&encoded(&d)).0, Ok(d));
    assert_eq!(decoded::<Vec<u64>>(&encoded(&e)).0, Ok(e));
}

#[test]
fn nested_lists_round_trip() {
    let value = vec![vec![1u8, 2], vec![], vec![3]];
    let bytes = encoded(&value);
    let mut expected = count(3);
    expected.extend(count(2));
    expected.extend_from_slice(&[1, 2]);
    expected.extend(count(0));
    expected.extend(count(1));
    expected.push(3);
    assert_eq!(bytes, expected);
    assert_eq!(decoded::<Vec<Vec<u8>>>(&bytes), (Ok(value), expected.len()));
    let deeper = vec![vec![vec![1u16]], vec![vec![2, 3], vec![]]];
    assert_eq!(decoded::<Vec<Vec<Vec<u16>>>>(&encoded(&deeper)).0, Ok(deeper));
}

#[test]
fn truncated_byte_list_fails() {
    let mut bytes = count(5);
    bytes.extend_from_slice(&[1, 2]);
    assert_eq!(decoded::<Vec<u8>>(&bytes).0, Err(DecodeError::UnexpectedEof));
    assert_eq!(decoded::<Vec<u8>>(&[0x01, 0x00]).0, Err(DecodeError::UnexpectedEof));
}

#[test]
fn truncated_wide_list_fails() {
    let mut bytes = count(2);
    bytes.extend_from_slice(&[1, 0, 2]);
    assert_eq!(decoded::<Vec<u16>>(&bytes).0, Err(DecodeError::UnexpectedEof));
}

#[test]
fn huge_count_with_few_bytes_fails_without_allocating() {
    let bytes = count(u64::MAX);
    assert_eq!(decoded::<Vec<u8>>(&bytes).0, Err(DecodeError::UnexpectedEof));
    assert_eq!(decoded::<Vec<u64>>(&bytes).0, Err(DecodeError::UnexpectedEof));
    assert_eq!(decoded::<Vec<String>>(&bytes).0, Err(DecodeError::UnexpectedEof));
}

#[test]
fn failing_element_fails_the_whole_list() {
    let mut bytes = count(2);
    bytes.extend(count(1));
    bytes.push(b'a');
    bytes.extend(count(1));
    bytes.push(0xFF);
    assert_eq!(decoded::<Vec<String>>(&bytes).0, Err(DecodeError::InvalidData));
}

#[test]
fn slices_encode_as_lists() {
    let owned = vec![String::from("a"), String::from("bc")];
    let borrowed: &[String] = &owned;
    assert_eq!(encoded(&borrowed), encoded(&owned));
    let bytes: &[u8] = &[4, 5];
    assert_eq!(encoded(&bytes), encoded(&vec![4u8, 5]));
    let signed: &[i8] = &[-4, 5];
    assert_eq!(encoded(&signed), encoded(&vec![-4i8, 5]));
    let wide: &[u32] = &[1, 2];
    assert_eq!(encoded(&wide), encoded(&vec![1u32, 2]));
}

#[test]
fn fixed_byte_array_has_no_count() {
    assert_eq!(encoded(&[1u8, 7]), vec![1, 7]);
    assert_eq!(decoded::<[u8; 2]>(&[1, 7, 9]), (Ok([1u8, 7]), 2));
    assert_eq!(decoded::<[u8; 3]>(&[1, 7]).0, Err(DecodeError::UnexpectedEof));
}

#[test]
fn fixed_integer_arrays_round_trip() {
    assert_eq!(encoded(&[0x0102u16, 3]), vec![0x02, 0x01, 0x03, 0x00]);
    assert_eq!(decoded::<[u16; 2]>(&[0x02, 0x01, 0x03, 0x00]), (Ok([0x0102u16, 3]), 4));
    assert_eq!(encoded(&[-1i8, 1]), vec![0xFF, 0x01]);
    assert_eq!(decoded::<[i8; 2]>(&[0xFF, 0x01]).0, Ok([-1i8, 1]));
    let a = [-7i32, 8, 9];
    assert_eq!(decoded::<[i32; 3]>(&encoded(&a)).0, Ok(a));
    let b = [u64::MAX, 0];
    assert_eq!(decoded::<[u64; 2]>(&encoded(&b)).0, Ok(b));
    let c = [i64::MIN];
    assert_eq!(decoded::<[i64; 1]>(&encoded(&c)).0, Ok(c));
    let d = [1u32, 2];
    assert_eq!(decoded::<[u32; 2]>(&encoded(&d)).0, Ok(d));
    let e = [-300i16];
    assert_eq!(decoded::<[i16; 1]>(&encoded(&e)).0, Ok(e));
    assert_eq!(decoded::<[u32; 2]>(&[0; 7]).0, Err(DecodeError::UnexpectedEof));
}

#[test]
fn fixed_array_of_structured_elements() {
    let value = [vec![1u8], vec![2u8, 3]];
    let mut expected = count(1);
    expected.push(1);
    expected.extend(count(2));
    expected.extend_from_slice(&[2, 3]);
    assert_eq!(encoded(&value), expected);
    assert_eq!(decoded::<[Vec<u8>; 2]>(&expected), (Ok(value), expected.len()));
    let texts = [String::from("x"), String::new()];
    assert_eq!(decoded::<[String; 2]>(&encoded(&texts)).0, Ok(texts));
}

#[test]
fn boolean_lists_and_arrays() {
    let mut expected = count(3);
    expected.extend_from_slice(&[1, 0, 1]);
    assert_eq!(encoded(&vec![true, false, true]), expected);
    assert_eq!(decoded::<Vec<bool>>(&expected), (Ok(vec![true, false, true]), 11));
    let flags: &[bool] = &[false];
    assert_eq!(encoded(&flags), encoded(&vec![false]));
    assert_eq!(encoded(&[true, true]), vec![1, 1]);
    assert_eq!(decoded::<[bool; 2]>(&[0, 7]), (Ok([false, true]), 2));
}
