use orbyte::schema::Alternative;
use orbyte::schema::Field;
use orbyte::schema::FieldName;
use orbyte::schema::Shape;
use orbyte::engine::Value;
use orbyte::engine::decode_value;
use orbyte::engine::encode_value;
use orbyte::OrbyteError;

fn point_shape() -> Shape {
    Shape::Product(vec![
        Field { name: FieldName::Named("x".to_string()), shape: Shape::U16 },
        Field { name: FieldName::Named("label".to_string()), shape: Shape::Text },
    ])
}

#[test]
fn test_engine_product_round_trip() {
    let value = Value::Product(vec![Value::U16(0x0102), Value::Text("ab".to_string())]);
    let bytes = encode_value(&value);
    assert_eq!(bytes, vec![0x02, 0x01, 2, b'a', b'b']);
    let decoded = decode_value(&point_shape(), &bytes).unwrap();
    assert_eq!(decoded, value);
}

#[test]
fn test_engine_unit_product() {
    // A product of zero fields encodes to zero bytes.
    let value = Value::Product(vec![]);
    assert_eq!(encode_value(&value), Vec::<u8>::new());
    let decoded = decode_value(&Shape::Product(vec![]), &[]).unwrap();
    assert_eq!(decoded, value);
}

#[test]
fn test_engine_sum_round_trip() {
    let shape = Shape::Sum(vec![
        Alternative { name: "Quit".to_string(), fields: vec![] },
        Alternative {
            name: "Move".to_string(),
            fields: vec![
                Field { name: FieldName::Positional, shape: Shape::I32 },
                Field { name: FieldName::Positional, shape: Shape::I32 },
            ],
        },
    ]);
    let value = Value::Sum(1, vec![Value::I32(-1), Value::I32(7)]);
    let bytes = encode_value(&value);
    assert_eq!(bytes[0], 1);
    assert_eq!(bytes.len(), 9);
    assert_eq!(decode_value(&shape, &bytes).unwrap(), value);

    let unit = Value::Sum(0, vec![]);
    assert_eq!(encode_value(&unit), vec![0]);
    assert_eq!(decode_value(&shape, &[0]).unwrap(), unit);
}

#[test]
fn test_engine_sum_unrecognized_tag() {
    let shape = Shape::Sum(vec![Alternative { name: "Only".to_string(), fields: vec![] }]);
    assert_eq!(decode_value(&shape, &[1]), Err(OrbyteError::UnrecognizedTag));
    assert_eq!(decode_value(&shape, &[]), Err(OrbyteError::InvalidLength));
}

#[test]
fn test_engine_sum_256_alternatives() {
    // The design limit: 256 alternatives carry discriminants 0 to 255, each
    // equal to its declaration index, without collision.
    let alts: Vec<Alternative> =
        (0..256).map(|i| Alternative { name: format!("alt{}", i), fields: vec![] }).collect();
    let shape = Shape::Sum(alts);
    for tag in [0_u8, 1, 127, 255] {
        let value = Value::Sum(tag, vec![]);
        let bytes = encode_value(&value);
        assert_eq!(bytes, vec![tag]);
        assert_eq!(decode_value(&shape, &bytes).unwrap(), value);
    }
}

#[test]
fn test_engine_sequence_round_trip() {
    let shape = Shape::Sequence(Box::new(Shape::Text));
    let value = Value::Sequence(vec![
        Value::Text("a".to_string()),
        Value::Text("bc".to_string()),
    ]);
    let bytes = encode_value(&value);
    assert_eq!(bytes, vec![2, 0, 0, 0, 1, b'a', 2, b'b', b'c']);
    assert_eq!(decode_value(&shape, &bytes).unwrap(), value);
}

#[test]
fn test_engine_optional_of_sequence_empty_buffer() {
    // The documented policy, pinned: an empty buffer is the absent optional.
    let shape = Shape::Optional(Box::new(Shape::Sequence(Box::new(Shape::U8))));
    assert_eq!(decode_value(&shape, &[]).unwrap(), Value::Optional(None));
    // The present empty sequence still has its count on the wire.
    let present = Value::Optional(Some(Box::new(Value::Sequence(vec![]))));
    assert_eq!(encode_value(&present), vec![0, 0, 0, 0]);
    assert_eq!(decode_value(&shape, &[0, 0, 0, 0]).unwrap(), present);
}

#[test]
fn test_engine_nested_optional_value() {
    let shape = Shape::Optional(Box::new(Shape::U16));
    let present = Value::Optional(Some(Box::new(Value::U16(513))));
    let bytes = encode_value(&present);
    assert_eq!(bytes, vec![1, 2]);
    assert_eq!(decode_value(&shape, &bytes).unwrap(), present);
}

#[test]
fn test_engine_float_bits() {
    // Floating point values travel as their IEEE754 bit patterns: the wire
    // bytes are exactly the float's little-endian representation.
    let x: f32 = 1.5;
    let value = Value::F32Bits(x.to_bits());
    assert_eq!(encode_value(&value), x.to_le_bytes().to_vec());
    let decoded = decode_value(&Shape::F32, &encode_value(&value)).unwrap();
    assert_eq!(decoded, value);
    if let Value::F32Bits(bits) = decoded {
        assert_eq!(f32::from_bits(bits), 1.5_f32);
    }

    let y: f64 = -0.25;
    let value64 = Value::F64Bits(y.to_bits());
    assert_eq!(encode_value(&value64), y.to_le_bytes().to_vec());
    assert_eq!(decode_value(&Shape::F64, &encode_value(&value64)).unwrap(), value64);
}

#[test]
fn test_engine_signed_leaves() {
    let value = Value::Product(vec![Value::I8(-1), Value::I16(-2)]);
    let shape = Shape::Product(vec![
        Field { name: FieldName::Positional, shape: Shape::I8 },
        Field { name: FieldName::Positional, shape: Shape::I16 },
    ]);
    let bytes = encode_value(&value);
    assert_eq!(bytes, vec![0xFF, 0xFE, 0xFF]);
    assert_eq!(decode_value(&shape, &bytes).unwrap(), value);
}

#[test]
fn test_engine_leaf_errors() {
    assert_eq!(decode_value(&Shape::Bool, &[2]), Err(OrbyteError::InvalidBool));
    assert_eq!(decode_value(&Shape::U64, &[0, 0]), Err(OrbyteError::InvalidLength));
    assert_eq!(decode_value(&Shape::Text, &[2, 0xFF, 0xFE]), Err(OrbyteError::InvalidUtf8));
    assert_eq!(decode_value(&Shape::Char, &[0x00, 0xD8, 0, 0]), Err(OrbyteError::InvalidChar));
}

#[test]
fn test_engine_first_failure_wins() {
    // Second field of the product is broken; the decode reports that
    // failure and nothing else.
    let bytes = [0x02, 0x01, 9, b'a'];
    assert_eq!(decode_value(&point_shape(), &bytes), Err(OrbyteError::InvalidLength));
}
