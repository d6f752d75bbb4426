use orbyte::Serialize;
use orbyte::Deserialize;
use orbyte::OrbyteError;
use orbyte::ChatMessage;
use orbyte::Content;
use orbyte::Content3;
use orbyte::FileData;

#[test]
fn test_chat_message_round_trip() {
    let signal = ChatMessage {
        sender: "ali".to_string(),
        content: Some(Content::Signal(0)),
        timestamp: Some(100000000),
    };
    let bytes = signal.serialize();
    // sender: len 3 + "ali"; content: tag 2 + signal byte; timestamp: i32.
    assert_eq!(bytes.len(), 4 + 2 + 4);
    let decoded = ChatMessage::deserialize(&bytes).unwrap();
    assert_eq!(decoded, signal);
}

#[test]
fn test_chat_message_text_content() {
    let msg = ChatMessage {
        sender: "bo".to_string(),
        content: Some(Content::Text("hey".to_string())),
        timestamp: Some(-5),
    };
    let decoded = ChatMessage::deserialize(&msg.serialize()).unwrap();
    assert_eq!(decoded, msg);
}

#[test]
fn test_chat_message_absent_fields() {
    // Both optionals absent: only the sender is on the wire.
    let msg = ChatMessage { sender: "ali".to_string(), content: None, timestamp: None };
    let bytes = msg.serialize();
    assert_eq!(bytes, vec![3, b'a', b'l', b'i']);
    let decoded = ChatMessage::deserialize(&bytes).unwrap();
    assert_eq!(decoded, msg);
}

#[test]
fn test_content_round_trip() {
    let file = Content::File(FileData { data: vec![1, 2, 3], name: "f.bin".to_string() });
    assert_eq!(Content::deserialize(&file.serialize()).unwrap(), file);

    let text = Content::Text("hello".to_string());
    let bytes = text.serialize();
    assert_eq!(bytes[0], 0); // declaration index of Text
    assert_eq!(Content::deserialize(&bytes).unwrap(), text);

    let signal = Content::Signal(9);
    assert_eq!(signal.serialize(), vec![2, 9]);
    assert_eq!(Content::deserialize(&[2, 9]).unwrap(), signal);
}

#[test]
fn test_content3_unit_variants() {
    assert_eq!(Content3::Text.serialize(), vec![0]);
    assert_eq!(Content3::File.serialize(), vec![1]);
    assert_eq!(Content3::Signal.serialize(), vec![2]);
    assert_eq!(Content3::deserialize(&[1]), Ok(Content3::File));
}

#[test]
fn test_unrecognized_tag() {
    assert_eq!(Content3::deserialize(&[7]), Err(OrbyteError::UnrecognizedTag));
    assert!(matches!(Content::deserialize(&[3, 0]), Err(OrbyteError::UnrecognizedTag)));
}

#[test]
fn test_sum_decode_empty_buffer() {
    assert_eq!(Content3::deserialize(&[]), Err(OrbyteError::InvalidLength));
}

#[test]
fn test_file_data_round_trip() {
    let fd = FileData { data: vec![0xDE, 0xAD], name: "x".to_string() };
    let bytes = fd.serialize();
    assert_eq!(bytes, vec![2, 0, 0, 0, 0xDE, 0xAD, 1, b'x']);
    assert_eq!(FileData::deserialize(&bytes).unwrap(), fd);
}

#[test]
fn test_error_propagates_from_field() {
    // The sender decodes, then the content's tag byte is valid but its text
    // is cut short: the first failure aborts the whole decode unchanged.
    let msg =
        ChatMessage { sender: "a".to_string(), content: Some(Content::Text("hi".to_string())), timestamp: None };
    let mut bytes = msg.serialize();
    bytes.pop();
    assert_eq!(ChatMessage::deserialize(&bytes), Err(OrbyteError::InvalidLength));
}
