use presence_service::codec::{BinaryCodec, BinaryMessage, ProtocolError, MSG_CURSOR_UPDATE, MSG_HEARTBEAT};

#[test]
fn test_codec_roundtrip() {
    let codec = BinaryCodec::new();

    let original = BinaryMessage::CursorUpdate {
        board_id: 42,
        x: (0.3f32 * 65535.0) as u16,
        y: (0.7f32 * 65535.0) as u16,
    };

    let encoded = codec.encode(&original).unwrap();
    let decoded = codec.decode(&encoded).unwrap();

    assert_eq!(original, decoded);
}

#[test]
fn test_codec_heartbeat() {
    let codec = BinaryCodec::new();

    let original = BinaryMessage::Heartbeat;
    let encoded = codec.encode(&original).unwrap();

    assert_eq!(encoded.len(), 1);

    let decoded = codec.decode(&encoded).unwrap();
    assert_eq!(original, decoded);
}

#[test]
fn test_codec_join_message() {
    let codec = BinaryCodec::new();

    let original = BinaryMessage::Join {
        board_id: 100,
        username: "Alice".to_string(),
    };

    let encoded = codec.encode(&original).unwrap();
    let decoded = codec.decode(&encoded).unwrap();

    assert_eq!(original, decoded);
}

#[test]
fn test_codec_user_joined_message() {
    let codec = BinaryCodec::new();

    let original = BinaryMessage::UserJoined {
        board_id: 200,
        user_id: 5,
        username: "Bob".to_string(),
        color: [255, 128, 64],
    };

    let encoded = codec.encode(&original).unwrap();
    let decoded = codec.decode(&encoded).unwrap();

    assert_eq!(original, decoded);
}

#[test]
fn test_cursor_update_encoding() {
    let msg = BinaryMessage::CursorUpdate {
        board_id: 1234,
        x: (0.5f32 * 65535.0) as u16,
        y: (0.75f32 * 65535.0) as u16,
    };
    let encoded = msg.encode();
    assert_eq!(encoded.len(), 7);
    assert_eq!(encoded[0], MSG_CURSOR_UPDATE);
}

#[test]
fn test_heartbeat_encoding() {
    let msg = BinaryMessage::Heartbeat;
    let encoded = msg.encode();
    assert_eq!(encoded.len(), 1);
    assert_eq!(encoded[0], MSG_HEARTBEAT);
}

#[test]
fn test_decode_unknown_type() {
    let data = vec![0xFF];
    let result = BinaryMessage::decode(&data);
    assert!(matches!(
        result,
        Err(ProtocolError::UnknownMessageType(0xFF))
    ));
}

#[test]
fn test_decode_buffer_underflow() {
    let data = vec![MSG_CURSOR_UPDATE, 0x00]; // Too short
    let result = BinaryMessage::decode(&data);
    assert!(matches!(result, Err(ProtocolError::InvalidLength { .. })));
}

#[test]
fn test_decode_empty_buffer() {
    let data: Vec<u8> = vec![];
    let result = BinaryMessage::decode(&data);
    assert!(matches!(result, Err(ProtocolError::BufferUnderflow)));
}

#[test]
fn test_decode_join_bytes() {
    // Join board=42 username="Alice"
    let data = vec![0x03, 0x00, 0x2A, 0x05, 0x41, 0x6C, 0x69, 0x63, 0x65];
    let msg = BinaryMessage::decode(&data).unwrap();
    assert_eq!(
        msg,
        BinaryMessage::Join {
            board_id: 42,
            username: "Alice".to_string()
        }
    );
}

#[test]
fn test_decode_cursor_update_bytes() {
    // CursorUpdate board=42 x=0x7FFF y=0xBFFF
    let data = vec![0x01, 0x00, 0x2A, 0x7F, 0xFF, 0xBF, 0xFF];
    let msg = BinaryMessage::decode(&data).unwrap();
    assert_eq!(
        msg,
        BinaryMessage::CursorUpdate {
            board_id: 42,
            x: 0x7FFF,
            y: 0xBFFF
        }
    );
}

#[test]
fn test_decode_rejects_bad_utf8() {
    // Join with one username byte that is not valid UTF-8.
    let data = vec![0x03, 0x00, 0x2A, 0x01, 0xFF];
    let result = BinaryMessage::decode(&data);
    assert!(matches!(result, Err(ProtocolError::InvalidUtf8)));
}

#[test]
fn test_decode_rejects_long_username() {
    let mut data = vec![0x03, 0x00, 0x2A, 33];
    data.extend(std::iter::repeat(b'a').take(33));
    let result = BinaryMessage::decode(&data);
    assert!(matches!(result, Err(ProtocolError::UsernameTooLong(33))));
}

#[test]
fn test_encode_refuses_oversize_username() {
    let codec = BinaryCodec::new();
    let msg = BinaryMessage::Join {
        board_id: 1,
        username: "a".repeat(33),
    };
    assert!(codec.encode(&msg).is_none());
    assert!(!msg.is_wire_valid());
}

#[test]
fn test_user_left_roundtrip() {
    let codec = BinaryCodec::new();
    let original = BinaryMessage::UserLeft {
        board_id: 7,
        user_id: 3,
    };
    let encoded = codec.encode(&original).unwrap();
    assert_eq!(encoded, vec![0x06, 0x00, 0x07, 0x03]);
    assert_eq!(codec.decode(&encoded).unwrap(), original);
}

#[test]
fn test_presence_update_roundtrip() {
    let codec = BinaryCodec::new();
    let original = BinaryMessage::PresenceUpdate {
        board_id: 513,
        count: 9,
    };
    let encoded = codec.encode(&original).unwrap();
    assert_eq!(encoded, vec![0x07, 0x02, 0x01, 0x09]);
    assert_eq!(codec.decode(&encoded).unwrap(), original);
}
