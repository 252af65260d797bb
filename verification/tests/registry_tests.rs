use presence_service::room::Room;
use presence_service::session::Session;

#[test]
fn test_room_creation() {
    let room = Room::new(1);
    assert_eq!(room.board_id(), 1);
    assert_eq!(room.user_count(), 0);
    assert!(room.is_empty());
    assert_eq!(room.available_id_count(), 256);
}

#[test]
fn test_user_id_assignment() {
    let mut room = Room::new(1);

    // Assign IDs - should get 0, 1, 2, etc.
    let id1 = room.assign_user_id().unwrap();
    let id2 = room.assign_user_id().unwrap();
    let id3 = room.assign_user_id().unwrap();

    assert_eq!(id1, 0);
    assert_eq!(id2, 1);
    assert_eq!(id3, 2);

    assert_eq!(room.available_id_count(), 253);
}

#[test]
fn test_user_id_recycling() {
    let mut room = Room::new(1);

    // Assign an ID
    let id1 = room.assign_user_id().unwrap();
    assert_eq!(id1, 0);

    // Removing the member releases it
    room.add_user(9, id1, "Alice".to_string(), [255, 0, 0]);
    room.remove_user(9);

    // Assign again - should get the same ID
    let id2 = room.assign_user_id().unwrap();
    assert_eq!(id2, 0);
}

#[test]
fn test_add_remove_user() {
    let mut room = Room::new(1);
    let addr: u64 = 8080;

    // Add user
    let user_id = room.assign_user_id().unwrap();
    room.add_user(addr, user_id, "Alice".to_string(), [255, 0, 0]);

    assert_eq!(room.user_count(), 1);
    assert!(room.contains_user(addr));

    let user_info = room.get_user(addr).unwrap();
    assert_eq!(user_info.user_id, user_id);
    assert_eq!(user_info.username, "Alice");
    assert_eq!(user_info.color, [255, 0, 0]);

    // Remove user
    room.remove_user(addr);
    assert_eq!(room.user_count(), 0);
    assert!(!room.contains_user(addr));

    // ID should be recycled
    let new_id = room.assign_user_id().unwrap();
    assert_eq!(new_id, user_id);
}

#[test]
fn test_max_users() {
    let mut room = Room::new(1);

    // Assign all 256 IDs
    for _ in 0..256 {
        assert!(room.assign_user_id().is_some());
    }

    // Next assignment should fail
    assert!(room.assign_user_id().is_none());
    assert_eq!(room.available_id_count(), 0);
}

#[test]
fn test_user_addresses() {
    let mut room = Room::new(1);

    let addr1: u64 = 8080;
    let addr2: u64 = 8081;
    let addr3: u64 = 8082;

    let id1 = room.assign_user_id().unwrap();
    room.add_user(addr1, id1, "Alice".to_string(), [255, 0, 0]);
    let id2 = room.assign_user_id().unwrap();
    room.add_user(addr2, id2, "Bob".to_string(), [0, 255, 0]);
    let id3 = room.assign_user_id().unwrap();
    room.add_user(addr3, id3, "Charlie".to_string(), [0, 0, 255]);

    let addresses = room.user_addresses();
    assert_eq!(addresses.len(), 3);
    assert!(addresses.contains(&addr1));
    assert!(addresses.contains(&addr2));
    assert!(addresses.contains(&addr3));
}

#[test]
fn test_room_users_listing() {
    let mut room = Room::new(4);
    let id = room.assign_user_id().unwrap();
    room.add_user(17, id, "Dora".to_string(), [200, 10, 10]);
    let users = room.users();
    assert_eq!(users.len(), 1);
    assert_eq!(users[0].addr, 17);
    assert_eq!(users[0].username, "Dora");
}

#[test]
fn test_session_creation() {
    let addr: u64 = 8080;
    let session = Session::new(addr);

    assert_eq!(session.addr(), addr);
    assert_eq!(session.board_count(), 0);
}

#[test]
fn test_add_remove_board() {
    let addr: u64 = 8080;
    let mut session = Session::new(addr);

    // Add a board
    session.add_board(1, 5, "Alice".to_string(), [255, 0, 0]);
    assert_eq!(session.board_count(), 1);
    assert!(session.is_in_board(1));

    // Get board info
    let info = session.get_board_info(1).unwrap();
    assert_eq!(info.user_id, 5);
    assert_eq!(info.username, "Alice");
    assert_eq!(info.color, [255, 0, 0]);

    // Remove the board
    session.remove_board(1);
    assert_eq!(session.board_count(), 0);
    assert!(!session.is_in_board(1));
}

#[test]
fn test_multiple_boards() {
    let addr: u64 = 8080;
    let mut session = Session::new(addr);

    // Add multiple boards
    session.add_board(1, 5, "Alice".to_string(), [255, 0, 0]);
    session.add_board(2, 3, "Alice".to_string(), [0, 255, 0]);
    session.add_board(3, 7, "Alice".to_string(), [0, 0, 255]);

    assert_eq!(session.board_count(), 3);
    assert!(session.is_in_board(1));
    assert!(session.is_in_board(2));
    assert!(session.is_in_board(3));

    let board_ids = session.board_ids();
    assert_eq!(board_ids.len(), 3);
    assert!(board_ids.contains(&1));
    assert!(board_ids.contains(&2));
    assert!(board_ids.contains(&3));
}
