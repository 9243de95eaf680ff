use go_relay::codec::{decode_payload, encode_frame, encode_payload, parse_frame_len};
use go_relay::msg::{Color, DecodeError, GameMessage, Position, Stone};

fn stone(count: i32, color: Color, ci: i32, cj: i32, ii: i32, ij: i32) -> Stone {
    Stone {
        count,
        color,
        coordinate: Position { i: ci, j: cj },
        index: Position { i: ii, j: ij },
    }
}

fn round_trip(m: &GameMessage) -> GameMessage {
    let payload = encode_payload(m);
    decode_payload(&payload).expect("canonical payload must decode")
}

#[test]
fn encode_move_exact_bytes() {
    let m = GameMessage::Move { stone: stone(1, Color::Black, 3, 3, 3, 3) };
    let payload = encode_payload(&m);
    let expected = "{\"type\":\"Move\",\"networkStone\":{\"count\":1,\"color\":\"BLACK\",\"coordinate\":{\"i\":3,\"j\":3},\"index\":{\"i\":3,\"j\":3}}}";
    assert_eq!(payload, expected.as_bytes().to_vec());
}

#[test]
fn encode_create_room_exact_bytes() {
    let m = GameMessage::CreateRoom { room_id: b"123456".to_vec() };
    assert_eq!(
        encode_payload(&m),
        b"{\"type\":\"CreateRoom\",\"roomId\":\"123456\"}".to_vec()
    );
}

#[test]
fn round_trip_all_variants() {
    let ms = vec![
        GameMessage::Join { room_id: b"abc".to_vec() },
        GameMessage::CreateRoom { room_id: b"".to_vec() },
        GameMessage::JoinRoom { room_id: b"999999".to_vec() },
        GameMessage::Move { stone: stone(-7, Color::White, 0, 18, -1, 2147483647) },
        GameMessage::GameState { state: b"running".to_vec() },
        GameMessage::Heartbeat { room_id: b"X".to_vec() },
    ];
    for m in ms {
        let back = round_trip(&m);
        assert_eq!(encode_payload(&m), encode_payload(&back));
    }
}

#[test]
fn round_trip_escaped_room_id() {
    let raw = b"a\"b\\c".to_vec();
    let m = GameMessage::Join { room_id: raw.clone() };
    let payload = encode_payload(&m);
    match decode_payload(&payload) {
        Ok(GameMessage::Join { room_id }) => assert_eq!(room_id, raw),
        other => panic!("unexpected decode result: {:?}", other),
    }
}

#[test]
fn unrecognized_tag_is_malformed() {
    let payload = b"{\"type\":\"Bogus\",\"roomId\":\"x\"}".to_vec();
    assert_eq!(decode_payload(&payload), Err(DecodeError::MalformedPayload));
}

#[test]
fn missing_field_is_malformed() {
    let payload = b"{\"type\":\"JoinRoom\"}".to_vec();
    assert_eq!(decode_payload(&payload), Err(DecodeError::MalformedPayload));
    let payload2 = b"{\"type\":\"Move\",\"networkStone\":{\"count\":1}}".to_vec();
    assert_eq!(decode_payload(&payload2), Err(DecodeError::MalformedPayload));
}

#[test]
fn garbage_is_malformed() {
    assert_eq!(decode_payload(&b"".to_vec()), Err(DecodeError::MalformedPayload));
    assert_eq!(decode_payload(&b"hello".to_vec()), Err(DecodeError::MalformedPayload));
    assert_eq!(
        decode_payload(&b"{\"type\":\"Heartbeat\",\"roomId\":\"x\"} ".to_vec()),
        Err(DecodeError::MalformedPayload)
    );
}

#[test]
fn frame_has_big_endian_length_prefix() {
    let m = GameMessage::Heartbeat { room_id: b"X".to_vec() };
    let payload = encode_payload(&m);
    let frame = encode_frame(&m);
    assert_eq!(frame.len(), payload.len() + 4);
    let n = parse_frame_len(frame[0], frame[1], frame[2], frame[3]);
    assert_eq!(n as usize, payload.len());
    assert_eq!(&frame[4..], &payload[..]);
}

#[test]
fn encoding_is_real_json() {
    let m = GameMessage::Move { stone: stone(2, Color::White, 15, 3, 15, 3) };
    let payload = encode_payload(&m);
    let v: serde_json::Value = serde_json::from_slice(&payload).expect("valid JSON");
    assert_eq!(v["type"], serde_json::Value::String(String::from("Move")));
    assert_eq!(v["networkStone"]["count"], serde_json::Value::from(2));
    assert_eq!(
        v["networkStone"]["color"],
        serde_json::Value::String(String::from("WHITE"))
    );
    assert_eq!(v["networkStone"]["coordinate"]["i"], serde_json::Value::from(15));
    assert_eq!(v["networkStone"]["index"]["j"], serde_json::Value::from(3));
}

#[test]
fn escaped_string_is_real_json() {
    let m = GameMessage::Join { room_id: b"a\"b\\c".to_vec() };
    let payload = encode_payload(&m);
    let v: serde_json::Value = serde_json::from_slice(&payload).expect("valid JSON");
    assert_eq!(v["roomId"], serde_json::Value::String(String::from("a\"b\\c")));
}

#[test]
fn negative_and_extreme_ints_round_trip() {
    let m = GameMessage::Move { stone: stone(i32::MIN, Color::Black, i32::MAX, -1, 0, 10) };
    let back = round_trip(&m);
    match back {
        GameMessage::Move { stone: st } => {
            assert_eq!(st.count, i32::MIN);
            assert_eq!(st.coordinate.i, i32::MAX);
            assert_eq!(st.coordinate.j, -1);
            assert_eq!(st.index.i, 0);
            assert_eq!(st.index.j, 10);
        }
        other => panic!("unexpected decode result: {:?}", other),
    }
}

#[test]
fn non_canonical_numbers_are_malformed() {
    let payload = "{\"type\":\"Move\",\"networkStone\":{\"count\":01,\"color\":\"BLACK\",\"coordinate\":{\"i\":3,\"j\":3},\"index\":{\"i\":3,\"j\":3}}}";
    assert_eq!(
        decode_payload(&payload.as_bytes().to_vec()),
        Err(DecodeError::MalformedPayload)
    );
    let payload2 = "{\"type\":\"Move\",\"networkStone\":{\"count\":-0,\"color\":\"BLACK\",\"coordinate\":{\"i\":3,\"j\":3},\"index\":{\"i\":3,\"j\":3}}}";
    assert_eq!(
        decode_payload(&payload2.as_bytes().to_vec()),
        Err(DecodeError::MalformedPayload)
    );
}

#[test]
fn control_bytes_are_escaped_and_round_trip() {
    let raw = b"\x00tab\tnl\n\x1f".to_vec();
    let m = GameMessage::Join { room_id: raw.clone() };
    let payload = encode_payload(&m);
    assert!(payload.iter().all(|&b| b >= 32), "no raw control byte on the wire");
    match decode_payload(&payload) {
        Ok(GameMessage::Join { room_id }) => assert_eq!(room_id, raw),
        other => panic!("unexpected decode result: {:?}", other),
    }
    let v: serde_json::Value = serde_json::from_slice(&payload).expect("valid JSON");
    assert_eq!(
        v["roomId"],
        serde_json::Value::String(String::from("\u{0}tab\tnl\n\u{1f}"))
    );
}

#[test]
fn hex_escape_decodes() {
    let payload = b"{\"type\":\"Join\",\"roomId\":\"\\u000a\"}".to_vec();
    match decode_payload(&payload) {
        Ok(GameMessage::Join { room_id }) => assert_eq!(room_id, vec![10u8]),
        other => panic!("unexpected decode result: {:?}", other),
    }
}

#[test]
fn raw_control_byte_is_malformed() {
    let payload = b"{\"type\":\"Join\",\"roomId\":\"\n\"}".to_vec();
    assert_eq!(decode_payload(&payload), Err(DecodeError::MalformedPayload));
    let payload2 = b"{\"type\":\"Join\",\"roomId\":\"\\u0041\"}".to_vec();
    assert_eq!(decode_payload(&payload2), Err(DecodeError::MalformedPayload));
}
