use quiz_rooms::codec::decode_room;
use quiz_rooms::json::encode_room;
use quiz_rooms::room::QuizRoom;

fn room_with(players: &[(&str, &str, i64)]) -> QuizRoom {
    let mut room =
        QuizRoom::new("65f0c0ffee".to_string(), "owner-1".to_string(), "12345678".to_string(), 1700000000123);
    for (id, nick, score) in players {
        room.enroll(id, nick);
        let last = room.scores.len() - 1;
        room.scores[last].1 = *score;
    }
    room
}

#[test]
fn stored_document_reads_back_the_same() {
    let mut room = room_with(&[("A", "Alice", 0), ("B", "Bo\"b\\", -7), ("C", "tab\there\u{1}", i64::MIN)]);
    room.current_slide = -3;
    room.started = true;
    let text = encode_room(&room);
    assert_eq!(decode_room(&text), Some(room));
}

#[test]
fn empty_room_reads_back() {
    let room = room_with(&[]);
    assert_eq!(decode_room(&encode_room(&room)), Some(room));
}

#[test]
fn serde_json_written_document_is_read() {
    let text = "{\"quiz_id\":\"Q1\",\"owner_id\":\"o\",\"room_code\":\"12345678\",\"created_at\":5,\"players\":{\"A\":\"Al\\u0007ice\\n\"},\"scores\":{\"A\":12},\"current_slide\":1,\"started\":false}";
    let room = decode_room(text).unwrap();
    assert_eq!(room.players, vec![("A".to_string(), "Al\u{7}ice\n".to_string())]);
    assert_eq!(room.scores, vec![("A".to_string(), 12)]);
    assert_eq!(room.current_slide, 1);
    assert_eq!(room.created_at, 5);
    assert!(!room.started);
}

#[test]
fn malformed_documents_are_rejected() {
    let good = encode_room(&room_with(&[("A", "Alice", 0)]));
    assert!(decode_room(&good).is_some());
    assert_eq!(decode_room(""), None);
    assert_eq!(decode_room("not json"), None);
    assert_eq!(decode_room(&good[..good.len() - 1]), None);
    assert_eq!(decode_room(&format!("{} ", good)), None);
    assert_eq!(decode_room(&good.replace("\"A\":0", "\"A\":x")), None);
    let dup = "{\"quiz_id\":\"Q1\",\"owner_id\":\"o\",\"room_code\":\"1\",\"created_at\":5,\"players\":{\"A\":\"x\",\"A\":\"y\"},\"scores\":{},\"current_slide\":1,\"started\":false}";
    assert_eq!(decode_room(dup), None);
    let big_slide = "{\"quiz_id\":\"Q1\",\"owner_id\":\"o\",\"room_code\":\"1\",\"created_at\":5,\"players\":{},\"scores\":{},\"current_slide\":2147483648,\"started\":false}";
    assert_eq!(decode_room(big_slide), None);
}
