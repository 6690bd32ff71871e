use xbinser::error::DecodeError;
use xbinser::schema::{decode_value, encode_value, Shape, Value};

fn encoded(shape: &Shape, value: &Value) -> Vec<u8> {
    let mut out = Vec::new();
    encode_value(shape, value, &mut out);
    out
}

fn decoded(shape: &Shape, bytes: &[u8]) -> (Result<Value, DecodeError>, usize) {
    let mut pos = 0;
    let r = decode_value(shape, bytes, &mut pos);
    (r, pos)
}

fn example_enum() -> Shape {
    Shape::Enum(vec![
        Shape::Struct(vec![Shape::Bool, Shape::Int(1)]),
        Shape::Struct(vec![]),
    ])
}

#[test]
fn text_struct_by_shape() {
    let shape = Shape::Struct(vec![Shape::Text, Shape::Text]);
    let value = Value::Struct(vec![
        Value::Text(String::from("hi")),
        Value::Text(String::from("bye")),
    ]);
    let bytes = encoded(&shape, &value);
    assert_eq!(
        bytes,
        vec![
            0x02, 0x00, 0x00, 0x00, 0x00, 0x00, 0x00, 0x00, 0x68, 0x69, 0x03, 0x00, 0x00, 0x00,
            0x00, 0x00, 0x00, 0x00, 0x62, 0x79, 0x65
        ]
    );
    assert_eq!(decoded(&shape, &bytes), (Ok(value), 21));
}

#[test]
fn enum_by_shape() {
    let shape = example_enum();
    let a = Value::Variant(0, Box::new(Value::Struct(vec![Value::Bool(true), Value::Int(50)])));
    let b = Value::Variant(1, Box::new(Value::Struct(vec![])));
    assert_eq!(encoded(&shape, &a), vec![0x00, 0x01, 0x32]);
    assert_eq!(encoded(&shape, &b), vec![0x01]);
    assert_eq!(decoded(&shape, &[0x00, 0x01, 0x32]), (Ok(a), 3));
    assert_eq!(decoded(&shape, &[0x01]), (Ok(b), 1));
}

#[test]
fn enum_unknown_tag_by_shape() {
    assert_eq!(decoded(&example_enum(), &[0xFF]).0, Err(DecodeError::InvalidData));
    assert_eq!(decoded(&example_enum(), &[0x02, 0x00]).0, Err(DecodeError::InvalidData));
}

#[test]
fn enum_truncated_fields_by_shape() {
    assert_eq!(decoded(&example_enum(), &[0x00, 0x01]).0, Err(DecodeError::UnexpectedEof));
    assert_eq!(decoded(&example_enum(), &[]).0, Err(DecodeError::UnexpectedEof));
}

#[test]
fn three_hundred_variant_enum_by_shape() {
    let mut variants = Vec::new();
    for _ in 0..300 {
        variants.push(Shape::Struct(vec![]));
    }
    let shape = Shape::Enum(variants);
    let last = Value::Variant(299, Box::new(Value::Struct(vec![])));
    assert_eq!(encoded(&shape, &last), vec![0x2B, 0x01]);
    assert_eq!(decoded(&shape, &[0x2B, 0x01]), (Ok(last), 2));
    assert_eq!(decoded(&shape, &[0x2C, 0x01]).0, Err(DecodeError::InvalidData));
}

#[test]
fn integers_by_shape() {
    assert_eq!(encoded(&Shape::Int(1), &Value::Int(50)), vec![0x32]);
    assert_eq!(encoded(&Shape::Int(2), &Value::Int(0x1234)), vec![0x34, 0x12]);
    assert_eq!(encoded(&Shape::Int(8), &Value::Int(u64::MAX)), vec![0xFF; 8]);
    assert_eq!(decoded(&Shape::Int(4), &[1, 0, 0, 0]), (Ok(Value::Int(1)), 4));
    assert_eq!(decoded(&Shape::Int(4), &[1, 0, 0]).0, Err(DecodeError::UnexpectedEof));
    assert_eq!(decoded(&Shape::Int(3), &[1, 0, 0]).0, Err(DecodeError::InvalidData));
}

#[test]
fn nested_shapes_round_trip() {
    let shape = Shape::Struct(vec![
        Shape::List(Box::new(Shape::Struct(vec![Shape::Text, Shape::Int(2)]))),
        example_enum(),
        Shape::List(Box::new(Shape::List(Box::new(Shape::Bool)))),
    ]);
    let value = Value::Struct(vec![
        Value::List(vec![
            Value::Struct(vec![Value::Text(String::from("x")), Value::Int(7)]),
            Value::Struct(vec![Value::Text(String::new()), Value::Int(65535)]),
        ]),
        Value::Variant(0, Box::new(Value::Struct(vec![Value::Bool(false), Value::Int(255)]))),
        Value::List(vec![Value::List(vec![Value::Bool(true)]), Value::List(vec![])]),
    ]);
    let bytes = encoded(&shape, &value);
    assert_eq!(decoded(&shape, &bytes), (Ok(value), bytes.len()));
}

#[test]
fn list_by_shape_matches_typed_list() {
    let shape = Shape::List(Box::new(Shape::Int(2)));
    let value = Value::List(vec![Value::Int(1), Value::Int(0x0203)]);
    let mut typed = Vec::new();
    xbinser::encoding::Encoded::encode(&vec![1u16, 0x0203], &mut typed);
    assert_eq!(encoded(&shape, &value), typed);
}

#[test]
fn failing_field_fails_the_struct_by_shape() {
    let shape = Shape::Struct(vec![Shape::Int(1), Shape::Text]);
    let bytes = [0x05, 0x01, 0, 0, 0, 0, 0, 0, 0, 0xFF];
    assert_eq!(decoded(&shape, &bytes).0, Err(DecodeError::InvalidData));
}
