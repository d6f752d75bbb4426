use orbyte::Serialize;
use orbyte::Deserialize;
use orbyte::OrbyteError;

#[test]
fn test_vec_u32() {
    let vec = vec![1_u32, 2, 3];
    let bytes = vec.serialize();
    assert_eq!(bytes, vec![3, 0, 0, 0, 1, 0, 0, 0, 2, 0, 0, 0, 3, 0, 0, 0]); // Length (3) + three u32s
    let deserialized = Vec::<u32>::deserialize(&bytes).unwrap();
    assert_eq!(deserialized, vec);
}

#[test]
fn test_vec_string() {
    let vec = vec!["a".to_string(), "bc".to_string()];
    let bytes = vec.serialize();
    assert_eq!(bytes, vec![2, 0, 0, 0, 1, b'a', 2, b'b', b'c']); // Length (2) + two strings
    let deserialized = Vec::<String>::deserialize(&bytes).unwrap();
    assert_eq!(deserialized, vec);
}

#[test]
fn test_invalid_bool() {
    let bytes = [2];
    let result = bool::deserialize(&bytes);
    assert_eq!(result, Err(OrbyteError::InvalidBool));
}

#[test]
fn test_invalid_length() {
    let bytes = [0];
    let result = u16::deserialize(&bytes);
    assert_eq!(result, Err(OrbyteError::InvalidLength));
}

#[test]
fn test_invalid_utf8() {
    let bytes = [3, 0xFF, 0xFF, 0xFF]; // Invalid UTF-8 sequence
    let result = String::deserialize(&bytes);
    assert!(matches!(result, Err(OrbyteError::InvalidUtf8)));
}

#[test]
fn test_scalar_round_trips() {
    assert_eq!(u8::deserialize(&0xAB_u8.serialize()), Ok(0xAB));
    assert_eq!(u16::deserialize(&0x1234_u16.serialize()), Ok(0x1234));
    assert_eq!(u32::deserialize(&0xDEADBEEF_u32.serialize()), Ok(0xDEADBEEF));
    assert_eq!(u64::deserialize(&u64::MAX.serialize()), Ok(u64::MAX));
    assert_eq!(i8::deserialize(&(-5_i8).serialize()), Ok(-5));
    assert_eq!(i16::deserialize(&(-300_i16).serialize()), Ok(-300));
    assert_eq!(i32::deserialize(&(-12345_i32).serialize()), Ok(-12345));
    assert_eq!(i64::deserialize(&i64::MIN.serialize()), Ok(i64::MIN));
    assert_eq!(bool::deserialize(&true.serialize()), Ok(true));
    assert_eq!(bool::deserialize(&false.serialize()), Ok(false));
}

#[test]
fn test_scalar_wire_format() {
    assert_eq!(0x1234_u16.serialize(), vec![0x34, 0x12]);
    assert_eq!(1_u32.serialize(), vec![1, 0, 0, 0]);
    assert_eq!((-1_i32).serialize(), vec![0xFF, 0xFF, 0xFF, 0xFF]);
    assert_eq!((-2_i8).serialize(), vec![0xFE]);
    assert_eq!((-2_i16).serialize(), vec![0xFE, 0xFF]);
    assert_eq!(true.serialize(), vec![1]);
    assert_eq!(false.serialize(), vec![0]);
}

#[test]
fn test_char_round_trip() {
    assert_eq!('A'.serialize(), vec![65, 0, 0, 0]);
    assert_eq!(char::deserialize(&'A'.serialize()), Ok('A'));
    assert_eq!(char::deserialize(&'\u{1F600}'.serialize()), Ok('\u{1F600}'));
}

#[test]
fn test_invalid_char() {
    // 0xD800 is a surrogate code point, not a character.
    let bytes = [0x00, 0xD8, 0x00, 0x00];
    assert_eq!(char::deserialize(&bytes), Err(OrbyteError::InvalidChar));
}

#[test]
fn test_string_round_trip() {
    let s = "hi".to_string();
    let bytes = s.serialize();
    assert_eq!(bytes, vec![2, b'h', b'i']);
    assert_eq!(String::deserialize(&bytes), Ok(s));

    let multibyte = "h\u{00E9}llo".to_string();
    assert_eq!(String::deserialize(&multibyte.serialize()), Ok(multibyte));
}

#[test]
fn test_string_length_boundary() {
    // A text of exactly 255 UTF-8 bytes fills the one-byte length and
    // round-trips; the length byte is not truncated.
    let s = "a".repeat(255);
    let bytes = s.serialize();
    assert_eq!(bytes.len(), 256);
    assert_eq!(bytes[0], 255);
    assert_eq!(String::deserialize(&bytes), Ok(s));
}

#[test]
fn test_empty_string() {
    let s = String::new();
    assert_eq!(s.serialize(), vec![0]);
    assert_eq!(String::deserialize(&[0]), Ok(s));
}

#[test]
fn test_string_truncated_body() {
    // Length byte promises three bytes but only two follow.
    assert_eq!(String::deserialize(&[3, b'a', b'b']), Err(OrbyteError::InvalidLength));
}

#[test]
fn test_option_round_trip() {
    let present: Option<u16> = Some(7);
    assert_eq!(present.serialize(), vec![7, 0]);
    assert_eq!(Option::<u16>::deserialize(&present.serialize()), Ok(present));

    let absent: Option<u16> = None;
    assert_eq!(absent.serialize(), Vec::<u8>::new());
    assert_eq!(Option::<u16>::deserialize(&[]), Ok(None));
}

#[test]
fn test_optional_of_sequence_empty_buffer() {
    // The documented policy: an empty buffer decodes to the absent optional.
    assert_eq!(Option::<Vec<u32>>::deserialize(&[]), Ok(None));
    // A present empty sequence is no collision here: it still carries its
    // four-byte count, and decodes back to the present empty sequence.
    let present: Option<Vec<u32>> = Some(vec![]);
    assert_eq!(present.serialize(), vec![0, 0, 0, 0]);
    assert_eq!(Option::<Vec<u32>>::deserialize(&[0, 0, 0, 0]), Ok(Some(vec![])));
}

#[test]
fn test_option_of_option_absent_collision() {
    // Some(None) encodes to nothing, so it decodes back as None: the one
    // genuinely ambiguous nesting of the markerless optional encoding.
    let v: Option<Option<u8>> = Some(None);
    assert_eq!(v.serialize(), Vec::<u8>::new());
    assert_eq!(Option::<Option<u8>>::deserialize(&[]), Ok(None));
}

#[test]
fn test_vec_truncated_element() {
    // Count promises two u16s but only one and a half follow.
    let bytes = [2, 0, 0, 0, 1, 0, 2];
    assert_eq!(Vec::<u16>::deserialize(&bytes), Err(OrbyteError::InvalidLength));
}

#[test]
fn test_empty_vec_round_trip() {
    let v: Vec<u8> = vec![];
    assert_eq!(v.serialize(), vec![0, 0, 0, 0]);
    assert_eq!(Vec::<u8>::deserialize(&[0, 0, 0, 0]), Ok(v));
}
