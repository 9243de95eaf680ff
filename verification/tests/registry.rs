use go_relay::registry::{GameServer, Turn};

fn server_with_two() -> (GameServer, Vec<u8>, Vec<u8>) {
    let mut s = GameServer::new();
    let p1 = s.register();
    let p2 = s.register();
    (s, p1, p2)
}

fn room_by_id<'a>(s: &'a GameServer, id: &[u8]) -> Option<&'a go_relay::registry::Room> {
    s.rooms.iter().find(|r| r.id == id)
}

#[test]
fn register_allocates_opaque_ids() {
    let (s, p1, p2) = server_with_two();
    assert_eq!(p1.len(), 36);
    assert_eq!(p2.len(), 36);
    assert_ne!(p1, p2);
    assert!(s.has_player(&p1));
    assert!(s.has_player(&p2));
    assert_eq!(s.players.len(), 2);
    assert!(s.waiting_players.is_empty());
}

#[test]
fn removing_unknown_player_changes_nothing() {
    let (mut s, p1, _p2) = server_with_two();
    s.create_room_with_id(&p1, &b"keep".to_vec());
    let rooms_before = s.rooms.len();
    let players_before = s.players.len();
    s.remove_player(&b"ghost".to_vec());
    s.remove_player(&b"ghost".to_vec());
    assert_eq!(s.rooms.len(), rooms_before);
    assert_eq!(s.players.len(), players_before);
    assert!(s.has_player(&p1));
}

#[test]
fn create_room_assigns_black_and_turn() {
    let (mut s, p1, _p2) = server_with_two();
    s.create_room_with_id(&p1, &b"123456".to_vec());
    let r = room_by_id(&s, b"123456").expect("room exists");
    assert_eq!(r.player_black.as_deref(), Some(&p1[..]));
    assert_eq!(r.player_white, None);
    assert_eq!(r.turn, Turn::BlackToMove);
    assert!(r.moves.is_empty());
    assert_eq!(s.player_room(&p1), Some(Some(b"123456".to_vec())));
}

#[test]
fn join_room_fills_white_slot() {
    let (mut s, p1, p2) = server_with_two();
    s.create_room_with_id(&p1, &b"r1".to_vec());
    assert!(s.join_room(&p2, &b"r1".to_vec()));
    let r = room_by_id(&s, b"r1").expect("room exists");
    assert_eq!(r.player_white.as_deref(), Some(&p2[..]));
    assert_eq!(s.player_room(&p2), Some(Some(b"r1".to_vec())));
}

#[test]
fn join_full_room_fails_and_leaves_state() {
    let (mut s, p1, p2) = server_with_two();
    let p3 = s.register();
    s.create_room_with_id(&p1, &b"r1".to_vec());
    assert!(s.join_room(&p2, &b"r1".to_vec()));
    let before_moves = room_by_id(&s, b"r1").unwrap().moves.len();
    assert!(!s.join_room(&p3, &b"r1".to_vec()));
    let r = room_by_id(&s, b"r1").unwrap();
    assert_eq!(r.player_black.as_deref(), Some(&p1[..]));
    assert_eq!(r.player_white.as_deref(), Some(&p2[..]));
    assert_eq!(r.moves.len(), before_moves);
    assert_eq!(s.player_room(&p3), Some(None));
}

#[test]
fn join_missing_room_fails() {
    let (mut s, _p1, p2) = server_with_two();
    assert!(!s.join_room(&p2, &b"nope".to_vec()));
    assert_eq!(s.player_room(&p2), Some(None));
}

#[test]
fn record_move_appends_and_flips_turn() {
    let (mut s, p1, p2) = server_with_two();
    s.create_room_with_id(&p1, &b"r1".to_vec());
    assert!(s.join_room(&p2, &b"r1".to_vec()));
    let st = go_relay::msg::Stone {
        count: 1,
        color: go_relay::msg::Color::Black,
        coordinate: go_relay::msg::Position { i: 3, j: 3 },
        index: go_relay::msg::Position { i: 3, j: 3 },
    };
    assert!(s.record_move(&p1, st));
    let r = room_by_id(&s, b"r1").unwrap();
    assert_eq!(r.moves.len(), 1);
    assert_eq!(r.turn, Turn::WhiteToMove);
    assert!(s.record_move(&p2, st));
    let r = room_by_id(&s, b"r1").unwrap();
    assert_eq!(r.moves.len(), 2);
    assert_eq!(r.turn, Turn::BlackToMove);
}

#[test]
fn record_move_without_room_fails() {
    let (mut s, p1, _p2) = server_with_two();
    let st = go_relay::msg::Stone {
        count: 1,
        color: go_relay::msg::Color::Black,
        coordinate: go_relay::msg::Position { i: 0, j: 0 },
        index: go_relay::msg::Position { i: 0, j: 0 },
    };
    assert!(!s.record_move(&p1, st));
    assert!(!s.record_move(&b"ghost".to_vec(), st));
}

#[test]
fn disconnect_clears_slot_and_keeps_room_while_occupied() {
    let (mut s, p1, p2) = server_with_two();
    s.create_room_with_id(&p1, &b"r1".to_vec());
    assert!(s.join_room(&p2, &b"r1".to_vec()));
    s.remove_player(&p1);
    assert!(!s.has_player(&p1));
    let r = room_by_id(&s, b"r1").expect("room persists while white remains");
    assert_eq!(r.player_black, None);
    assert_eq!(r.player_white.as_deref(), Some(&p2[..]));
    s.remove_player(&p2);
    assert!(room_by_id(&s, b"r1").is_none());
    assert!(s.rooms.is_empty());
}

#[test]
fn last_occupant_leaving_destroys_room() {
    let (mut s, p1, _p2) = server_with_two();
    s.create_room_with_id(&p1, &b"solo".to_vec());
    s.remove_player(&p1);
    assert!(room_by_id(&s, b"solo").is_none());
}

#[test]
fn rooms_always_hold_one_or_two_occupants() {
    let (mut s, p1, p2) = server_with_two();
    s.create_room_with_id(&p1, &b"a".to_vec());
    s.create_room_with_id(&p2, &b"b".to_vec());
    assert!(s.join_room(&p2, &b"a".to_vec()));
    s.remove_player(&p2);
    for r in &s.rooms {
        let occ = r.player_black.iter().count() + r.player_white.iter().count();
        assert!(occ >= 1 && occ <= 2);
    }
}

#[test]
fn create_overwrites_existing_room_id() {
    let (mut s, p1, p2) = server_with_two();
    s.create_room_with_id(&p1, &b"dup".to_vec());
    s.create_room_with_id(&p2, &b"dup".to_vec());
    let matching: Vec<_> = s.rooms.iter().filter(|r| r.id == b"dup".to_vec()).collect();
    assert_eq!(matching.len(), 1);
    assert_eq!(matching[0].player_black.as_deref(), Some(&p2[..]));
}
