use watchroom::ws_app_state::{Room, RoomClient, WsAppState};
use watchroom::ws_handler::{
    dispatch_message, handle_client_disconnect, DispatchOutcome, ErrorKind, IncomingMessage,
    OutgoingMessage,
};

fn new_state_with(uids: &[u128]) -> WsAppState {
    let mut s = watchroom::rocket();
    for &u in uids {
        assert!(s.register_client(u));
    }
    s
}

fn change_name(s: &mut WsAppState, uid: u128, name: &str) -> DispatchOutcome {
    dispatch_message(
        s,
        uid,
        IncomingMessage::ChangeName {
            new_name: name.to_string(),
        },
    )
}

fn join(s: &mut WsAppState, uid: u128, room: &str) -> DispatchOutcome {
    dispatch_message(
        s,
        uid,
        IncomingMessage::JoinRoom {
            room_id: room.to_string(),
        },
    )
}

fn set_admin(s: &mut WsAppState, uid: u128, target: u128, admin: bool) -> DispatchOutcome {
    dispatch_message(
        s,
        uid,
        IncomingMessage::ChangeClientAdminStatus {
            client_uid: target,
            admin,
        },
    )
}

fn quit(s: &mut WsAppState, uid: u128) -> DispatchOutcome {
    dispatch_message(s, uid, IncomingMessage::QuitRoom)
}

fn error_reply(kind: ErrorKind) -> OutgoingMessage {
    OutgoingMessage::Error { kind, msg: None }
}

#[test]
fn ping_replies_pong() {
    let mut s = new_state_with(&[1]);
    let out = dispatch_message(&mut s, 1, IncomingMessage::Ping);
    assert_eq!(out.reply, OutgoingMessage::Pong);
    assert_eq!(out.broadcasts.len(), 0);
}

#[test]
fn change_name_too_short_rejected() {
    let mut s = new_state_with(&[1]);
    for short in ["a", "ab"] {
        let out = change_name(&mut s, 1, short);
        assert_eq!(out.reply, error_reply(ErrorKind::ClientNameTooShort));
        assert_eq!(out.broadcasts.len(), 0);
    }
    // the name is still unset, so joining is still refused
    let out = join(&mut s, 1, "movie-night");
    assert_eq!(out.reply, error_reply(ErrorKind::ClientNameNotSet));
}

#[test]
fn change_name_too_short_keeps_old_name() {
    let mut s = new_state_with(&[1]);
    assert_eq!(change_name(&mut s, 1, "Alice").reply, OutgoingMessage::Success);
    let out = change_name(&mut s, 1, "xy");
    assert_eq!(out.reply, error_reply(ErrorKind::ClientNameTooShort));
    // the old name survives and shows up in the join snapshot
    let out = join(&mut s, 1, "movie-night");
    assert_eq!(out.reply, OutgoingMessage::Success);
    let dto = &out.broadcasts[0];
    assert_eq!(dto.clients[0].name.as_deref(), Some("Alice"));
}

#[test]
fn join_before_name_rejected() {
    let mut s = new_state_with(&[1]);
    let out = join(&mut s, 1, "movie-night");
    assert_eq!(out.reply, error_reply(ErrorKind::ClientNameNotSet));
    assert_eq!(out.broadcasts.len(), 0);
    // no room was created or joined
    assert_eq!(s.rooms.len(), 0);
    assert!(s.clients[0].data.room.is_none());
}

#[test]
fn join_room_id_too_short() {
    let mut s = new_state_with(&[1]);
    assert_eq!(change_name(&mut s, 1, "Alice").reply, OutgoingMessage::Success);
    for short in ["a", "ab"] {
        let out = join(&mut s, 1, short);
        assert_eq!(out.reply, error_reply(ErrorKind::RoomIdTooShort));
        assert_eq!(out.broadcasts.len(), 0);
    }
    assert_eq!(s.rooms.len(), 0);
}

#[test]
fn fresh_join_creates_owner_admin() {
    let mut s = new_state_with(&[1]);
    assert_eq!(change_name(&mut s, 1, "Alice").reply, OutgoingMessage::Success);
    let out = join(&mut s, 1, "movie-night");
    assert_eq!(out.reply, OutgoingMessage::Success);
    assert_eq!(out.broadcasts.len(), 1);
    let dto = &out.broadcasts[0];
    assert_eq!(dto.clients.len(), 1);
    assert_eq!(dto.clients[0].uid, 1);
    assert!(dto.clients[0].owner);
    assert!(dto.clients[0].admin);
    assert_eq!(dto.clients[0].name.as_deref(), Some("Alice"));
    assert_eq!(dto.page_url, None);
    assert!(dto.allow_stop_due_to_video_loading);
    assert_eq!(s.rooms.len(), 1);
    assert_eq!(s.rooms[0].room_id, "movie-night");
}

#[test]
fn second_join_is_plain_member() {
    let mut s = new_state_with(&[1, 2]);
    change_name(&mut s, 1, "Alice");
    join(&mut s, 1, "movie-night");
    change_name(&mut s, 2, "Bob");
    let out = join(&mut s, 2, "movie-night");
    assert_eq!(out.reply, OutgoingMessage::Success);
    assert_eq!(out.broadcasts.len(), 1);
    let dto = &out.broadcasts[0];
    assert_eq!(dto.clients.len(), 2);
    assert_eq!(dto.clients[0].uid, 1);
    assert!(dto.clients[0].owner);
    assert!(dto.clients[0].admin);
    assert_eq!(dto.clients[0].name.as_deref(), Some("Alice"));
    assert_eq!(dto.clients[1].uid, 2);
    assert!(!dto.clients[1].owner);
    assert!(!dto.clients[1].admin);
    assert_eq!(dto.clients[1].name.as_deref(), Some("Bob"));
}

#[test]
fn disconnect_promotes_earliest_remaining() {
    let mut s = new_state_with(&[1, 2]);
    change_name(&mut s, 1, "Alice");
    join(&mut s, 1, "movie-night");
    change_name(&mut s, 2, "Bob");
    join(&mut s, 2, "movie-night");
    let survivors = handle_client_disconnect(&mut s, 1);
    let dto = survivors.expect("the room still has a member, so a snapshot is owed");
    assert_eq!(dto.clients.len(), 1);
    assert_eq!(dto.clients[0].uid, 2);
    assert!(dto.clients[0].owner);
    assert!(!dto.clients[0].admin);
    // the departed client is gone from the registry
    assert_eq!(s.clients.len(), 1);
    assert_eq!(s.clients[0].uid, 2);
}

#[test]
fn owner_grants_admin_then_forbidden_for_non_owner() {
    let mut s = new_state_with(&[1, 2]);
    change_name(&mut s, 1, "Alice");
    join(&mut s, 1, "movie-night");
    change_name(&mut s, 2, "Bob");
    join(&mut s, 2, "movie-night");
    let out = set_admin(&mut s, 1, 2, true);
    assert_eq!(out.reply, OutgoingMessage::Success);
    assert_eq!(out.broadcasts.len(), 1);
    let dto = &out.broadcasts[0];
    assert!(dto.clients[1].admin);
    assert!(!dto.clients[1].owner);
    // an admin that is not the owner must not change flags
    let out = set_admin(&mut s, 2, 1, false);
    assert_eq!(out.reply, error_reply(ErrorKind::Forbidden));
    assert_eq!(out.broadcasts.len(), 0);
    let members = &s.rooms[0].data.clients;
    assert!(members[0].owner && members[0].admin);
    assert!(!members[1].owner && members[1].admin);
}

#[test]
fn admin_change_requires_room_and_known_target() {
    let mut s = new_state_with(&[1, 2]);
    change_name(&mut s, 1, "Alice");
    let out = set_admin(&mut s, 1, 2, true);
    assert_eq!(out.reply, error_reply(ErrorKind::ClientNotInAnyRoom));
    join(&mut s, 1, "movie-night");
    let out = set_admin(&mut s, 1, 77, true);
    assert_eq!(out.reply, error_reply(ErrorKind::NoSuchClient));
    assert_eq!(out.broadcasts.len(), 0);
}

#[test]
fn quit_room_transfers_and_deletes() {
    let mut s = new_state_with(&[1, 2]);
    change_name(&mut s, 1, "Alice");
    join(&mut s, 1, "movie-night");
    change_name(&mut s, 2, "Bob");
    join(&mut s, 2, "movie-night");
    let out = quit(&mut s, 1);
    assert_eq!(out.reply, OutgoingMessage::Success);
    assert_eq!(out.broadcasts.len(), 1);
    assert!(out.broadcasts[0].clients[0].owner);
    assert_eq!(out.broadcasts[0].clients[0].uid, 2);
    assert_eq!(s.rooms.len(), 1);
    // the last member leaving deletes the room, with nobody to notify
    let out = quit(&mut s, 2);
    assert_eq!(out.reply, OutgoingMessage::Success);
    assert_eq!(out.broadcasts.len(), 0);
    assert_eq!(s.rooms.len(), 0);
    assert!(s.clients.iter().all(|c| c.data.room.is_none()));
}

#[test]
fn quit_without_room_rejected() {
    let mut s = new_state_with(&[1]);
    let out = quit(&mut s, 1);
    assert_eq!(out.reply, error_reply(ErrorKind::ClientNotInAnyRoom));
    assert_eq!(out.broadcasts.len(), 0);
}

#[test]
fn join_while_in_room_leaves_first() {
    let mut s = new_state_with(&[1, 2]);
    change_name(&mut s, 1, "Alice");
    join(&mut s, 1, "first-room");
    change_name(&mut s, 2, "Bob");
    join(&mut s, 2, "first-room");
    // the owner moves on: the old room's survivors hear first, the new
    // room's snapshot comes last
    let out = join(&mut s, 1, "second-room");
    assert_eq!(out.reply, OutgoingMessage::Success);
    assert_eq!(out.broadcasts.len(), 2);
    assert_eq!(out.broadcasts[0].clients.len(), 1);
    assert_eq!(out.broadcasts[0].clients[0].uid, 2);
    assert!(out.broadcasts[0].clients[0].owner);
    assert_eq!(out.broadcasts[1].clients.len(), 1);
    assert_eq!(out.broadcasts[1].clients[0].uid, 1);
    assert!(out.broadcasts[1].clients[0].owner);
    assert_eq!(s.rooms.len(), 2);
    // a lone member moving on deletes the old room silently
    let out = join(&mut s, 2, "second-room");
    assert_eq!(out.reply, OutgoingMessage::Success);
    assert_eq!(out.broadcasts.len(), 1);
    assert_eq!(out.broadcasts[0].clients.len(), 2);
    assert_eq!(s.rooms.len(), 1);
}

#[test]
fn change_name_broadcasts_to_current_room() {
    let mut s = new_state_with(&[1, 2]);
    change_name(&mut s, 1, "Alice");
    join(&mut s, 1, "movie-night");
    change_name(&mut s, 2, "Bob");
    join(&mut s, 2, "movie-night");
    let out = change_name(&mut s, 2, "Robert");
    assert_eq!(out.reply, OutgoingMessage::Success);
    assert_eq!(out.broadcasts.len(), 1);
    assert_eq!(out.broadcasts[0].clients[1].name.as_deref(), Some("Robert"));
}

#[test]
fn change_name_without_room_sends_no_broadcast() {
    let mut s = new_state_with(&[1]);
    let out = change_name(&mut s, 1, "Alice");
    assert_eq!(out.reply, OutgoingMessage::Success);
    assert_eq!(out.broadcasts.len(), 0);
}

#[test]
fn register_duplicate_rejected() {
    let mut s = new_state_with(&[1]);
    assert!(!s.register_client(1));
    assert!(s.register_client(2));
    assert_eq!(s.clients.len(), 2);
}

#[test]
fn disconnect_unknown_client_is_noop() {
    let mut s = new_state_with(&[1]);
    let b = handle_client_disconnect(&mut s, 99);
    assert!(b.is_none());
    assert_eq!(s.clients.len(), 1);
}

#[test]
fn remove_client_promotes_position_zero() {
    let mut room = Room::new_with_owner("abc".to_string(), 1);
    room.data.add_client(2);
    room.data.add_client(3);
    room.data.remove_client(1);
    assert_eq!(room.data.clients.len(), 2);
    assert_eq!(room.data.clients[0].uid, 2);
    assert!(room.data.clients[0].owner);
    assert!(!room.data.clients[0].admin);
    assert_eq!(room.data.clients[1].uid, 3);
    assert!(!room.data.clients[1].owner);
}

#[test]
fn remove_non_owner_keeps_owner() {
    let mut room = Room::new_with_owner("abc".to_string(), 1);
    room.data.add_client(2);
    room.data.add_client(3);
    room.data.remove_client(2);
    assert_eq!(room.data.clients.len(), 2);
    assert_eq!(room.data.clients[0].uid, 1);
    assert!(room.data.clients[0].owner);
    assert_eq!(room.data.clients[1].uid, 3);
    assert!(!room.data.clients[1].owner);
}

#[test]
fn remove_absent_client_is_noop() {
    let mut room = Room::new_with_owner("abc".to_string(), 1);
    room.data.remove_client(42);
    assert_eq!(room.data.clients.len(), 1);
    assert!(room.data.clients[0].owner);
}

#[test]
fn can_control_owner_or_admin() {
    let owner = RoomClient {
        uid: 1,
        owner: true,
        admin: false,
    };
    let admin = RoomClient {
        uid: 2,
        owner: false,
        admin: true,
    };
    let plain = RoomClient {
        uid: 3,
        owner: false,
        admin: false,
    };
    assert!(owner.can_control());
    assert!(admin.can_control());
    assert!(!plain.can_control());

    let mut room = Room::new_with_owner("abc".to_string(), 1);
    room.data.add_client(3);
    assert!(room.data.can_control(1));
    assert!(!room.data.can_control(3));
    assert!(!room.data.can_control(42));
    let found = room.data.find_room_client(3).expect("member is present");
    assert_eq!(found.uid, 3);
    assert!(room.data.find_room_client(42).is_none());
}

#[test]
fn empty_room_constructor() {
    let room = Room::new("abc".to_string());
    assert_eq!(room.room_id, "abc");
    assert!(room.data.clients.is_empty());
    assert_eq!(room.data.page_url, None);
    assert!(room.data.allow_stop_due_to_video_loading);
}
