use presence_service::bus::{board_channel, global_channel, RedisMessage};
use presence_service::codec::BinaryMessage;

#[test]
fn test_redis_message_encoding() {
    let msg = BinaryMessage::Heartbeat;
    let redis_msg = RedisMessage::new("test-instance".to_string(), &msg);

    let encoded = redis_msg.encode().unwrap();
    let decoded = RedisMessage::decode(&encoded).unwrap();

    assert_eq!(redis_msg.instance_id, decoded.instance_id);
    assert_eq!(redis_msg.payload, decoded.payload);
}

#[test]
fn test_redis_message_binary_decode() {
    let msg = BinaryMessage::Heartbeat;
    let redis_msg = RedisMessage::new("test-instance".to_string(), &msg);

    let binary_msg = redis_msg.get_binary_message().unwrap();
    assert_eq!(binary_msg, msg);
}

#[test]
fn test_channel_names() {
    assert_eq!(board_channel(123), "presence:board:123");
    assert_eq!(global_channel(), "presence:global");
}

#[test]
fn test_channel_name_digits() {
    assert_eq!(board_channel(0), "presence:board:0");
    assert_eq!(board_channel(7), "presence:board:7");
    assert_eq!(board_channel(65535), "presence:board:65535");
    assert_eq!(board_channel(1000), "presence:board:1000");
}

#[test]
fn test_envelope_carries_frame_bytes() {
    let msg = BinaryMessage::UserLeft {
        board_id: 9,
        user_id: 4,
    };
    let redis_msg = RedisMessage::new("inst".to_string(), &msg);
    assert_eq!(redis_msg.payload, vec![0x06, 0x00, 0x09, 0x04]);

    let encoded = redis_msg.encode().unwrap();
    // Two length bytes, then the identity, then the frame untouched.
    assert_eq!(&encoded[..2], &[0x00, 0x04]);
    assert_eq!(&encoded[2..6], b"inst");
    assert_eq!(&encoded[6..], &[0x06, 0x00, 0x09, 0x04]);
}

#[test]
fn test_envelope_rejects_truncation() {
    let msg = BinaryMessage::Heartbeat;
    let redis_msg = RedisMessage::new("abcdef".to_string(), &msg);
    let encoded = redis_msg.encode().unwrap();
    assert!(RedisMessage::decode(&encoded[..3]).is_err());
    assert!(RedisMessage::decode(&[]).is_err());
}
