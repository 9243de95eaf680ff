use go_relay::codec::{decode_payload, encode_frame, encode_payload};
use go_relay::dispatch::{frame_len_ok, handle_frame_payload, route_message, Effect};
use go_relay::msg::{Color, GameMessage, Position, Stone};
use go_relay::registry::{GameServer, Turn};

fn stone_3_3() -> Stone {
    Stone {
        count: 1,
        color: Color::Black,
        coordinate: Position { i: 3, j: 3 },
        index: Position { i: 3, j: 3 },
    }
}

fn decoded_effect(e: &Effect) -> GameMessage {
    assert!(e.frame.len() >= 4);
    let payload = e.frame[4..].to_vec();
    decode_payload(&payload).expect("effect frames carry canonical payloads")
}

fn setup() -> (GameServer, Vec<u8>, Vec<u8>) {
    let mut s = GameServer::new();
    let p1 = s.register();
    let p2 = s.register();
    (s, p1, p2)
}

#[test]
fn scenario_create_then_join() {
    let (mut s, p1, p2) = setup();
    let effs = route_message(&mut s, &p1, &GameMessage::CreateRoom { room_id: b"".to_vec() });
    assert_eq!(effs.len(), 1);
    assert_eq!(effs[0].to, p1);
    let code = match decoded_effect(&effs[0]) {
        GameMessage::CreateRoom { room_id } => room_id,
        other => panic!("unexpected reply: {:?}", other),
    };
    assert_eq!(code.len(), 6);
    assert!(code.iter().all(|b| (b'0'..=b'9').contains(b)));

    let effs2 = route_message(&mut s, &p2, &GameMessage::JoinRoom { room_id: code.clone() });
    assert_eq!(effs2.len(), 1);
    assert_eq!(effs2[0].to, p2, "the ack goes to the second client only");
    match decoded_effect(&effs2[0]) {
        GameMessage::JoinRoom { room_id } => assert_eq!(room_id, code),
        other => panic!("unexpected reply: {:?}", other),
    }
}

#[test]
fn scenario_move_broadcasts_to_both() {
    let (mut s, p1, p2) = setup();
    route_message(&mut s, &p1, &GameMessage::CreateRoom { room_id: b"777000".to_vec() });
    route_message(&mut s, &p2, &GameMessage::JoinRoom { room_id: b"777000".to_vec() });
    let effs = route_message(&mut s, &p1, &GameMessage::Move { stone: stone_3_3() });
    assert_eq!(effs.len(), 2);
    assert_eq!(effs[0].to, p1);
    assert_eq!(effs[1].to, p2);
    let expected = encode_frame(&GameMessage::Move { stone: stone_3_3() });
    assert_eq!(effs[0].frame, expected);
    assert_eq!(effs[1].frame, expected);
    let room = s.rooms.iter().find(|r| r.id == b"777000".to_vec()).unwrap();
    assert_eq!(room.turn, Turn::WhiteToMove);
    assert_eq!(room.moves.len(), 1);
}

#[test]
fn scenario_disconnect_mid_session() {
    let (mut s, p1, p2) = setup();
    route_message(&mut s, &p1, &GameMessage::CreateRoom { room_id: b"555000".to_vec() });
    route_message(&mut s, &p2, &GameMessage::JoinRoom { room_id: b"555000".to_vec() });
    s.remove_player(&p1);
    let room = s.rooms.iter().find(|r| r.id == b"555000".to_vec()).unwrap();
    assert_eq!(room.player_black, None);
    assert_eq!(room.player_white.as_deref(), Some(&p2[..]));
    s.remove_player(&p2);
    assert!(s.rooms.iter().all(|r| r.id != b"555000".to_vec()));
}

#[test]
fn scenario_heartbeat_echoes_to_sender_only() {
    let (mut s, p1, p2) = setup();
    let effs = route_message(&mut s, &p1, &GameMessage::Heartbeat { room_id: b"X".to_vec() });
    assert_eq!(effs.len(), 1);
    assert_eq!(effs[0].to, p1);
    assert_ne!(effs[0].to, p2);
    match decoded_effect(&effs[0]) {
        GameMessage::Heartbeat { room_id } => assert_eq!(room_id, b"X".to_vec()),
        other => panic!("unexpected reply: {:?}", other),
    }
}

#[test]
fn empty_heartbeat_is_a_no_op() {
    let (mut s, p1, _p2) = setup();
    let effs = route_message(&mut s, &p1, &GameMessage::Heartbeat { room_id: b"".to_vec() });
    assert!(effs.is_empty());
}

#[test]
fn join_and_game_state_are_unrouted() {
    let (mut s, p1, _p2) = setup();
    let effs = route_message(&mut s, &p1, &GameMessage::Join { room_id: b"r".to_vec() });
    assert!(effs.is_empty());
    let effs2 = route_message(&mut s, &p1, &GameMessage::GameState { state: b"x".to_vec() });
    assert!(effs2.is_empty());
    assert!(s.rooms.is_empty());
}

#[test]
fn failed_join_produces_no_reply() {
    let (mut s, p1, _p2) = setup();
    let effs = route_message(&mut s, &p1, &GameMessage::JoinRoom { room_id: b"nope".to_vec() });
    assert!(effs.is_empty());
}

#[test]
fn failed_move_produces_no_broadcast() {
    let (mut s, p1, _p2) = setup();
    let effs = route_message(&mut s, &p1, &GameMessage::Move { stone: stone_3_3() });
    assert!(effs.is_empty());
}

#[test]
fn move_broadcast_skips_empty_slot() {
    let (mut s, p1, _p2) = setup();
    route_message(&mut s, &p1, &GameMessage::CreateRoom { room_id: b"111000".to_vec() });
    let effs = route_message(&mut s, &p1, &GameMessage::Move { stone: stone_3_3() });
    assert_eq!(effs.len(), 1);
    assert_eq!(effs[0].to, p1);
}

#[test]
fn length_prefix_rule() {
    assert!(!frame_len_ok(0));
    assert!(frame_len_ok(1));
    assert!(frame_len_ok(65536));
    assert!(!frame_len_ok(65537));
    assert!(!frame_len_ok(u32::MAX));
}

#[test]
fn malformed_payload_is_discarded_and_connection_continues() {
    let (mut s, p1, _p2) = setup();
    let rooms_before = s.rooms.len();
    let players_before = s.players.len();
    let (effs, discarded) = handle_frame_payload(&mut s, &p1, &b"{\"type\":\"Nope\"}".to_vec());
    assert!(discarded);
    assert!(effs.is_empty());
    assert_eq!(s.rooms.len(), rooms_before);
    assert_eq!(s.players.len(), players_before);

    let next = encode_payload(&GameMessage::CreateRoom { room_id: b"222000".to_vec() });
    let (effs2, discarded2) = handle_frame_payload(&mut s, &p1, &next);
    assert!(!discarded2);
    assert_eq!(effs2.len(), 1);
    assert!(s.rooms.iter().any(|r| r.id == b"222000".to_vec()));
}

#[test]
fn broadcast_plan_by_room_id() {
    let (mut s, p1, p2) = setup();
    route_message(&mut s, &p1, &GameMessage::CreateRoom { room_id: b"888000".to_vec() });
    route_message(&mut s, &p2, &GameMessage::JoinRoom { room_id: b"888000".to_vec() });
    let effs = s.broadcast_plan(&b"888000".to_vec(), stone_3_3());
    assert_eq!(effs.len(), 2);
    assert_eq!(effs[0].to, p1);
    assert_eq!(effs[1].to, p2);
    let expected = encode_frame(&GameMessage::Move { stone: stone_3_3() });
    assert_eq!(effs[0].frame, expected);
    assert_eq!(effs[1].frame, expected);
    assert!(s.broadcast_plan(&b"missing".to_vec(), stone_3_3()).is_empty());
}
