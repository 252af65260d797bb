use presence_service::bus::RedisMessage;
use presence_service::codec::BinaryMessage;
use presence_service::manager::{ConnectionManager, Effect};

const ALICE: u64 = 1;
const BOB: u64 = 2;

fn decode(bytes: &[u8]) -> BinaryMessage {
    BinaryMessage::decode(bytes).unwrap()
}

#[test]
fn test_color_generation() {
    // Colors are vibrant: one channel high, the others restrained.
    for _ in 0..100 {
        let color = ConnectionManager::generate_color();
        let max_channel = color.iter().max().unwrap();
        assert!(
            *max_channel >= 180,
            "Color should have at least one vibrant channel"
        );
        let low = color.iter().filter(|c| **c <= 150).count();
        assert_eq!(low, 2, "The two other channels stay at 150 or below");
    }
}

#[test]
fn test_instance_identity_shape() {
    let mgr = ConnectionManager::new();
    assert_eq!(mgr.instance_id().len(), 36);
}

#[test]
fn single_instance_cursor_fanout() {
    let mut mgr = ConnectionManager::new();
    mgr.connect(ALICE);
    mgr.connect(BOB);

    // Alice joins board 42 as "Alice".
    let effects = mgr.handle_message(
        ALICE,
        decode(&[0x03, 0x00, 0x2A, 0x05, 0x41, 0x6C, 0x69, 0x63, 0x65]),
    );
    assert_eq!(effects.len(), 3);
    assert!(matches!(
        &effects[0],
        Effect::Publish {
            board_id: 42,
            message: BinaryMessage::UserJoined { board_id: 42, user_id: 0, username, .. }
        } if username == "Alice"
    ));
    assert!(matches!(
        &effects[1],
        Effect::Publish {
            board_id: 42,
            message: BinaryMessage::PresenceUpdate { board_id: 42, count: 1 }
        }
    ));
    assert!(matches!(
        &effects[2],
        Effect::Send {
            to: ALICE,
            message: BinaryMessage::PresenceUpdate { board_id: 42, count: 1 }
        }
    ));

    // Bob joins board 42 as "Bob".
    let effects = mgr.handle_message(BOB, decode(&[0x03, 0x00, 0x2A, 0x03, 0x42, 0x6F, 0x62]));
    assert_eq!(effects.len(), 5);
    assert!(matches!(
        &effects[0],
        Effect::Publish {
            board_id: 42,
            message: BinaryMessage::UserJoined { board_id: 42, user_id: 1, username, .. }
        } if username == "Bob"
    ));
    assert!(matches!(
        &effects[1],
        Effect::Send {
            to: ALICE,
            message: BinaryMessage::UserJoined { board_id: 42, user_id: 1, username, .. }
        } if username == "Bob"
    ));
    assert!(matches!(
        &effects[2],
        Effect::Publish {
            board_id: 42,
            message: BinaryMessage::PresenceUpdate { board_id: 42, count: 2 }
        }
    ));
    assert!(matches!(
        &effects[3],
        Effect::Send {
            to: ALICE,
            message: BinaryMessage::PresenceUpdate { board_id: 42, count: 2 }
        }
    ));
    assert!(matches!(
        &effects[4],
        Effect::Send {
            to: BOB,
            message: BinaryMessage::PresenceUpdate { board_id: 42, count: 2 }
        }
    ));

    // Alice moves her cursor; only Bob hears of it locally.
    let effects = mgr.handle_message(ALICE, decode(&[0x01, 0x00, 0x2A, 0x7F, 0xFF, 0xBF, 0xFF]));
    assert_eq!(effects.len(), 2);
    assert!(matches!(
        &effects[0],
        Effect::Publish {
            board_id: 42,
            message: BinaryMessage::CursorBroadcast {
                board_id: 42,
                user_id: 0,
                x: 0x7FFF,
                y: 0xBFFF
            }
        }
    ));
    assert!(matches!(
        &effects[1],
        Effect::Send {
            to: BOB,
            message: BinaryMessage::CursorBroadcast {
                board_id: 42,
                user_id: 0,
                x: 0x7FFF,
                y: 0xBFFF
            }
        }
    ));
    for e in &effects {
        if let Effect::Send { to, .. } = e {
            assert_ne!(*to, ALICE, "the sender receives no echo of its cursor");
        }
    }
}

#[test]
fn user_id_recycling_across_disconnect() {
    let mut mgr = ConnectionManager::new();
    for conn in 1u64..=3 {
        mgr.connect(conn);
        let effects =
            mgr.handle_message(conn, decode(&[0x03, 0x00, 0x07, 0x01, 0x61])); // board 7, "a"
        let uid = effects
            .iter()
            .find_map(|e| match e {
                Effect::Publish {
                    message: BinaryMessage::UserJoined { user_id, .. },
                    ..
                } => Some(*user_id),
                _ => None,
            })
            .unwrap();
        assert_eq!(uid as u64, conn - 1);
    }

    // Client 2 (which held user id 1) disconnects.
    let effects = mgr.disconnect(2);
    assert!(effects.iter().any(|e| matches!(
        e,
        Effect::Publish {
            board_id: 7,
            message: BinaryMessage::UserLeft { board_id: 7, user_id: 1 }
        }
    )));

    // A fourth client joins and receives the recycled id 1.
    mgr.connect(4);
    let effects = mgr.handle_message(4, decode(&[0x03, 0x00, 0x07, 0x01, 0x64]));
    let uid = effects
        .iter()
        .find_map(|e| match e {
            Effect::Publish {
                message: BinaryMessage::UserJoined { user_id, .. },
                ..
            } => Some(*user_id),
            _ => None,
        })
        .unwrap();
    assert_eq!(uid, 1);
}

#[test]
fn empty_room_reclamation() {
    let mut mgr = ConnectionManager::new();
    mgr.connect(ALICE);
    mgr.handle_message(ALICE, decode(&[0x03, 0x00, 0x09, 0x01, 0x61]));
    assert_eq!(mgr.get_room_count(), 1);
    assert_eq!(mgr.get_room_user_count(9), 1);

    let effects = mgr.handle_message(ALICE, decode(&[0x04, 0x00, 0x09]));
    assert!(effects.iter().any(|e| matches!(
        e,
        Effect::Publish {
            board_id: 9,
            message: BinaryMessage::UserLeft { board_id: 9, user_id: 0 }
        }
    )));
    assert_eq!(mgr.get_room_count(), 0);
    assert_eq!(mgr.get_room_user_count(9), 0);

    // A later join recreates the room and starts the ids over.
    mgr.connect(BOB);
    let effects = mgr.handle_message(BOB, decode(&[0x03, 0x00, 0x09, 0x01, 0x62]));
    assert!(effects.iter().any(|e| matches!(
        e,
        Effect::Publish {
            board_id: 9,
            message: BinaryMessage::UserJoined { board_id: 9, user_id: 0, .. }
        }
    )));
}

#[test]
fn duplicate_join_is_ignored() {
    let mut mgr = ConnectionManager::new();
    mgr.connect(ALICE);
    mgr.connect(BOB);
    let first = mgr.handle_message(ALICE, decode(&[0x03, 0x00, 0x2A, 0x01, 0x61]));
    let announced = first
        .iter()
        .filter(|e| {
            matches!(
                e,
                Effect::Publish {
                    message: BinaryMessage::UserJoined { .. },
                    ..
                }
            )
        })
        .count();
    assert_eq!(announced, 1);

    // The same connection joins the same board again: nothing happens.
    let second = mgr.handle_message(ALICE, decode(&[0x03, 0x00, 0x2A, 0x01, 0x61]));
    assert!(second.is_empty());
    assert_eq!(mgr.get_room_user_count(42), 1);
}

#[test]
fn heartbeat_is_echoed() {
    let mut mgr = ConnectionManager::new();
    mgr.connect(ALICE);
    let effects = mgr.handle_message(ALICE, decode(&[0x08]));
    assert_eq!(effects.len(), 1);
    assert!(matches!(
        &effects[0],
        Effect::Send {
            to: ALICE,
            message: BinaryMessage::Heartbeat
        }
    ));
}

#[test]
fn cursor_update_without_join_is_dropped() {
    let mut mgr = ConnectionManager::new();
    mgr.connect(ALICE);
    let effects = mgr.handle_message(ALICE, decode(&[0x01, 0x00, 0x2A, 0x00, 0x01, 0x00, 0x02]));
    assert!(effects.is_empty());
}

#[test]
fn leaver_receives_no_further_room_frames() {
    let mut mgr = ConnectionManager::new();
    mgr.connect(ALICE);
    mgr.connect(BOB);
    mgr.handle_message(ALICE, decode(&[0x03, 0x00, 0x2A, 0x01, 0x61]));
    mgr.handle_message(BOB, decode(&[0x03, 0x00, 0x2A, 0x01, 0x62]));

    // Alice leaves board 42.
    mgr.handle_message(ALICE, decode(&[0x04, 0x00, 0x2A]));

    // Bob's later cursor traffic reaches nobody else, in particular not Alice.
    let effects = mgr.handle_message(BOB, decode(&[0x01, 0x00, 0x2A, 0x10, 0x00, 0x20, 0x00]));
    for e in &effects {
        if let Effect::Send { to, .. } = e {
            assert_ne!(*to, ALICE);
        }
    }
}

#[test]
fn disconnect_tells_remaining_peers() {
    let mut mgr = ConnectionManager::new();
    mgr.connect(ALICE);
    mgr.connect(BOB);
    mgr.handle_message(ALICE, decode(&[0x03, 0x00, 0x01, 0x01, 0x61])); // board 1
    mgr.handle_message(BOB, decode(&[0x03, 0x00, 0x01, 0x01, 0x62]));

    // Alice goes quiet and is torn down; Bob hears UserLeft, then the count.
    let effects = mgr.disconnect(ALICE);
    assert!(effects.iter().any(|e| matches!(
        e,
        Effect::Send {
            to: BOB,
            message: BinaryMessage::UserLeft { board_id: 1, user_id: 0 }
        }
    )));
    assert!(effects.iter().any(|e| matches!(
        e,
        Effect::Send {
            to: BOB,
            message: BinaryMessage::PresenceUpdate { board_id: 1, count: 1 }
        }
    )));
    for e in &effects {
        if let Effect::Send { to, .. } = e {
            assert_ne!(*to, ALICE);
        }
    }
    assert_eq!(mgr.get_room_user_count(1), 1);
}

#[test]
fn own_bus_envelopes_are_not_echoed() {
    let mut mgr = ConnectionManager::new();
    mgr.connect(ALICE);
    mgr.handle_message(ALICE, decode(&[0x03, 0x00, 0x64, 0x01, 0x61])); // board 100

    let frame = BinaryMessage::CursorBroadcast {
        board_id: 100,
        user_id: 7,
        x: 11,
        y: 13,
    };

    // An envelope tagged with this instance's own identity is dropped.
    let own = RedisMessage::new(mgr.instance_id().clone(), &frame);
    assert!(mgr.handle_redis_message(&own).is_empty());

    // The same envelope from a sibling instance is fanned out locally.
    let foreign = RedisMessage::new("sibling-instance".to_string(), &frame);
    let effects = mgr.handle_redis_message(&foreign);
    assert_eq!(effects.len(), 1);
    assert!(matches!(
        &effects[0],
        Effect::Send {
            to: ALICE,
            message: BinaryMessage::CursorBroadcast {
                board_id: 100,
                user_id: 7,
                x: 11,
                y: 13
            }
        }
    ));
}

#[test]
fn cross_instance_delivery() {
    // Instance A hosts Alice in board 100; instance B hosts Bob.
    let mut a = ConnectionManager::new();
    let mut b = ConnectionManager::new();
    a.connect(ALICE);
    b.connect(BOB);
    a.handle_message(
        ALICE,
        decode(&[0x03, 0x00, 0x64, 0x05, 0x41, 0x6C, 0x69, 0x63, 0x65]),
    );
    b.handle_message(BOB, decode(&[0x03, 0x00, 0x64, 0x03, 0x42, 0x6F, 0x62]));

    // Alice moves her cursor on A; A publishes a CursorBroadcast.
    let effects = a.handle_message(ALICE, decode(&[0x01, 0x00, 0x64, 0x7F, 0xFF, 0xBF, 0xFF]));
    let published = effects
        .iter()
        .find_map(|e| match e {
            Effect::Publish {
                board_id: 100,
                message,
            } => Some(message.clone()),
            _ => None,
        })
        .unwrap();

    // The envelope travels the bus; its identity differs from B's.
    let envelope = RedisMessage::new(a.instance_id().clone(), &published);
    let bytes = envelope.encode().unwrap();
    let received = RedisMessage::decode(&bytes).unwrap();
    assert_ne!(&received.instance_id, b.instance_id());

    // B fans the inner frame out to Bob.
    let effects = b.handle_redis_message(&received);
    assert_eq!(effects.len(), 1);
    assert!(matches!(
        &effects[0],
        Effect::Send {
            to: BOB,
            message: BinaryMessage::CursorBroadcast {
                board_id: 100,
                user_id: 0,
                x: 0x7FFF,
                y: 0xBFFF
            }
        }
    ));

    // A drops the echo of its own publish.
    let echoed = RedisMessage::decode(&bytes).unwrap();
    assert!(a.handle_redis_message(&echoed).is_empty());
}

#[test]
fn bus_ignores_client_to_server_frames() {
    let mut mgr = ConnectionManager::new();
    mgr.connect(ALICE);
    mgr.handle_message(ALICE, decode(&[0x03, 0x00, 0x64, 0x01, 0x61]));

    // A Join frame arriving over the bus is not fanned out.
    let frame = BinaryMessage::Join {
        board_id: 100,
        username: "Mallory".to_string(),
    };
    let foreign = RedisMessage::new("sibling-instance".to_string(), &frame);
    assert!(mgr.handle_redis_message(&foreign).is_empty());
}
