use quiz_rooms::json::{encode_room, error_frame, snapshot_frame};
use quiz_rooms::room::QuizRoom;

fn sample_room() -> QuizRoom {
    QuizRoom::new("Q1".to_string(), "owner".to_string(), "12345678".to_string(), 1700000000000)
}

#[test]
fn enroll_sets_nickname_and_zero_score() {
    let mut room = sample_room();
    room.enroll("A", "Alice");
    assert_eq!(room.players, vec![("A".to_string(), "Alice".to_string())]);
    assert_eq!(room.scores, vec![("A".to_string(), 0)]);
    assert!(room.has_player("A"));
    assert!(!room.has_player("B"));
}

#[test]
fn enroll_again_replaces_nickname_and_resets_score() {
    let mut room = sample_room();
    room.enroll("A", "Alice");
    room.enroll("B", "Bob");
    room.scores[0].1 = 40;
    room.enroll("A", "Alice2");
    assert_eq!(room.players.len(), 2);
    assert!(room.players.contains(&("A".to_string(), "Alice2".to_string())));
    assert!(room.players.contains(&("B".to_string(), "Bob".to_string())));
    assert!(room.scores.contains(&("A".to_string(), 0)));
    assert_eq!(room.scores.len(), 2);
}

#[test]
fn dismiss_removes_member_from_both_tables() {
    let mut room = sample_room();
    room.enroll("A", "Alice");
    room.enroll("B", "Bob");
    room.dismiss("A");
    assert_eq!(room.players, vec![("B".to_string(), "Bob".to_string())]);
    assert_eq!(room.scores, vec![("B".to_string(), 0)]);
    room.dismiss("missing");
    assert_eq!(room.players.len(), 1);
}

#[test]
fn duplicate_ids_are_not_well_formed() {
    let mut room = sample_room();
    assert!(room.tables_unique());
    room.players.push(("A".to_string(), "x".to_string()));
    room.players.push(("A".to_string(), "y".to_string()));
    assert!(!room.tables_unique());
}

#[test]
fn encode_room_writes_every_field() {
    let mut room = sample_room();
    room.enroll("A", "Alice");
    room.enroll("B", "Bo\"b");
    room.scores[1].1 = -3;
    assert_eq!(
        encode_room(&room),
        "{\"quiz_id\":\"Q1\",\"owner_id\":\"owner\",\"room_code\":\"12345678\",\"created_at\":1700000000000,\"players\":{\"A\":\"Alice\",\"B\":\"Bo\\\"b\"},\"scores\":{\"A\":0,\"B\":-3},\"current_slide\":0,\"started\":false}"
    );
}

#[test]
fn encode_empty_room() {
    let room = sample_room();
    assert_eq!(
        encode_room(&room),
        "{\"quiz_id\":\"Q1\",\"owner_id\":\"owner\",\"room_code\":\"12345678\",\"created_at\":1700000000000,\"players\":{},\"scores\":{},\"current_slide\":0,\"started\":false}"
    );
}

#[test]
fn snapshot_lists_players_and_scores_as_pairs() {
    let mut room = sample_room();
    room.enroll("A", "Alice");
    room.enroll("B", "Bob");
    room.current_slide = 2;
    room.started = true;
    assert_eq!(
        snapshot_frame(&room),
        "{\"action\":\"update_data\",\"room_code\":\"12345678\",\"current_slide\":2,\"players\":[[\"A\",\"Alice\"],[\"B\",\"Bob\"]],\"scores\":[[\"A\",0],[\"B\",0]],\"started\":true}"
    );
}

#[test]
fn error_frame_escapes_special_characters() {
    assert_eq!(error_frame("Not found."), "{\"error\":\"Not found.\"}");
    assert_eq!(error_frame("a\"b\\c\nd\te\u{1}"), "{\"error\":\"a\\\"b\\\\c\\nd\\te\\u0001\"}");
    assert_eq!(error_frame("é\u{8}\u{c}\r\u{1f}"), "{\"error\":\"é\\b\\f\\r\\u001f\"}");
}

#[test]
fn written_document_reads_back_with_serde_json() {
    let mut room = sample_room();
    room.enroll("A", "Al\u{7}ice \"x\"");
    room.enroll("B", "Bob");
    room.scores[1].1 = i64::MIN;
    let text = encode_room(&room);
    let value: serde_json::Value = serde_json::from_str(&text).unwrap();
    assert_eq!(value["players"]["A"], "Al\u{7}ice \"x\"");
    assert_eq!(value["players"]["B"], "Bob");
    assert_eq!(value["scores"]["A"], 0);
    assert_eq!(value["scores"]["B"], i64::MIN);
    assert_eq!(value["players"].as_object().unwrap().len(), 2);
    assert_eq!(value["scores"].as_object().unwrap().len(), 2);
    assert_eq!(value["room_code"], "12345678");
    assert_eq!(value["current_slide"], 0);
    assert_eq!(value["started"], false);
}
