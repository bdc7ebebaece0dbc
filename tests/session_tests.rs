use quiz_rooms::json::{encode_room, error_frame, snapshot_frame};
use quiz_rooms::presence::{Instruction, PresenceRegistry};
use quiz_rooms::room::QuizRoom;
use quiz_rooms::session::{room_key, Action, Inbound, JoinStage, Phase, RoomLookup, Session};
use quiz_rooms::ROOM_TTL_SECONDS;

fn stored_room() -> QuizRoom {
    QuizRoom::new("Q1".to_string(), "owner".to_string(), "12345678".to_string(), 1)
}

fn session(client: &str, nickname: &str, handle: u64) -> Session {
    Session::new("12345678".to_string(), client.to_string(), nickname.to_string(), handle)
}

fn not_found() -> Vec<Action> {
    vec![Action::Send(error_frame("Not found.")), Action::Close]
}

fn internal_error() -> Vec<Action> {
    vec![Action::Send(error_frame("Internal server error.")), Action::Close]
}

/// Drives a session through a successful join against `room`; returns the
/// written document and the actions of each step.
fn join(s: &mut Session, room: QuizRoom) -> (QuizRoom, Vec<Action>, Vec<Action>) {
    assert_eq!(s.start(), vec![Action::FetchRoom("quiz_room:12345678".to_string())]);
    assert_eq!(s.on_room_fetched(RoomLookup::Found(room)), vec![Action::CheckQuiz("Q1".to_string())]);
    let writes = s.on_quiz_checked(true);
    let written = s.room.clone().unwrap();
    let done = s.on_persisted(true);
    assert_eq!(s.phase, Phase::Active);
    (written, writes, done)
}

#[test]
fn room_key_prefixes_code() {
    assert_eq!(room_key("12345678"), "quiz_room:12345678");
}

#[test]
fn join_then_reconnect_with_new_nickname() {
    let mut reg = PresenceRegistry::new();
    let mut first = session("A", "Alice", 1);
    let (doc, writes, done) = join(&mut first, stored_room());
    assert_eq!(doc.players, vec![("A".to_string(), "Alice".to_string())]);
    assert_eq!(doc.scores, vec![("A".to_string(), 0)]);
    assert_eq!(
        writes,
        vec![Action::Persist("quiz_room:12345678".to_string(), encode_room(&doc), ROOM_TTL_SECONDS)]
    );
    assert_eq!(
        done,
        vec![
            Action::Register("12345678".to_string(), "A".to_string(), 1),
            Action::Send(snapshot_frame(&doc)),
        ]
    );
    assert!(reg.register("12345678", "A", 1).is_empty());

    let mut second = session("A", "Alice2", 2);
    let (doc2, writes2, done2) = join(&mut second, doc);
    assert_eq!(doc2.players, vec![("A".to_string(), "Alice2".to_string())]);
    assert_eq!(doc2.scores, vec![("A".to_string(), 0)]);
    assert_eq!(
        writes2,
        vec![
            Action::Publish("disconnect".to_string(), "12345678:A".to_string()),
            Action::Persist("quiz_room:12345678".to_string(), encode_room(&doc2), ROOM_TTL_SECONDS),
        ]
    );
    assert_eq!(done2[0], Action::Register("12345678".to_string(), "A".to_string(), 2));
    let evicted = reg.register("12345678", "A", 2);
    assert_eq!(
        evicted,
        vec![
            Instruction::Send(1, error_frame("Disconnected due to new connection.")),
            Instruction::Close(1),
        ]
    );
    assert_eq!(reg.lookup("12345678", "A"), Some(2));

    let mut evicted = evicted.into_iter();
    let frame = first.on_instruction(evicted.next().unwrap());
    assert_eq!(frame, vec![Action::Send(error_frame("Disconnected due to new connection."))]);
    assert_eq!(first.phase, Phase::Active);
    assert_eq!(first.on_instruction(evicted.next().unwrap()), vec![Action::Close]);
    assert_eq!(first.phase, Phase::Closing);
    assert!(first.superseded);
    assert_eq!(
        first.on_stopped(),
        vec![Action::Release("12345678".to_string(), "A".to_string(), 1)]
    );
    assert_eq!(first.phase, Phase::Closed);
    assert!(reg.release("12345678", "A", 1) == false);
    assert_eq!(reg.lookup("12345678", "A"), Some(2));
}

#[test]
fn closing_leaves_a_document_without_the_client_alone() {
    let mut s = session("A", "Alice", 4);
    s.start();
    s.on_room_fetched(RoomLookup::Found(stored_room()));
    assert_eq!(s.on_quiz_checked(false), not_found());
    assert_eq!(s.on_stopped(), vec![Action::FetchRoom("quiz_room:12345678".to_string())]);
    let mut room = stored_room();
    room.enroll("B", "Bob");
    assert_eq!(
        s.on_cleanup_fetched(RoomLookup::Found(room)),
        vec![Action::Release("12345678".to_string(), "A".to_string(), 4)]
    );
    assert_eq!(s.phase, Phase::Closed);
}

#[test]
fn join_to_missing_room_is_rejected_without_a_write() {
    let mut s = Session::new("00000000".to_string(), "A".to_string(), "Alice".to_string(), 1);
    assert_eq!(s.start(), vec![Action::FetchRoom("quiz_room:00000000".to_string())]);
    let out = s.on_room_fetched(RoomLookup::Missing);
    assert_eq!(out, not_found());
    assert!(!out.iter().any(|a| matches!(a, Action::Persist(..))));
    assert_eq!(s.phase, Phase::Closing);
    assert!(s.on_quiz_checked(true).is_empty());
    assert!(s.on_persisted(true).is_empty());
}

#[test]
fn join_to_room_of_deleted_quiz_is_rejected() {
    let mut s = session("A", "Alice", 1);
    s.start();
    let mut room = stored_room();
    room.enroll("B", "Bob");
    s.on_room_fetched(RoomLookup::Found(room));
    assert_eq!(s.phase, Phase::Joining(JoinStage::CheckingQuiz));
    assert_eq!(s.on_quiz_checked(false), not_found());
    assert_eq!(s.phase, Phase::Closing);
}

#[test]
fn corrupt_document_is_treated_as_missing() {
    let mut s = session("A", "Alice", 1);
    s.start();
    assert_eq!(s.on_room_fetched(RoomLookup::Corrupt), not_found());
    let mut t = session("A", "Alice", 1);
    t.start();
    let mut bad = stored_room();
    bad.players.push(("X".to_string(), "x".to_string()));
    bad.players.push(("X".to_string(), "y".to_string()));
    assert_eq!(t.on_room_fetched(RoomLookup::Found(bad)), not_found());
}

#[test]
fn unreachable_store_is_an_internal_error() {
    let mut s = session("A", "Alice", 1);
    s.start();
    assert_eq!(s.on_room_fetched(RoomLookup::Unavailable), internal_error());
    assert_eq!(s.phase, Phase::Closing);
}

#[test]
fn failed_write_is_an_internal_error() {
    let mut s = session("A", "Alice", 1);
    s.start();
    s.on_room_fetched(RoomLookup::Found(stored_room()));
    s.on_quiz_checked(true);
    assert_eq!(s.on_persisted(false), internal_error());
    assert_eq!(s.phase, Phase::Closing);
}

#[test]
fn every_membership_write_has_the_full_time_to_live() {
    let mut s = session("A", "Alice", 1);
    let (_, writes, _) = join(&mut s, stored_room());
    assert!(matches!(writes.last(), Some(Action::Persist(_, _, 3600))));
    s.on_stopped();
    let mut room = stored_room();
    room.enroll("A", "Alice");
    let out = s.on_cleanup_fetched(RoomLookup::Found(room));
    assert!(matches!(out.first(), Some(Action::Persist(_, _, 3600))));
}

#[test]
fn active_session_echoes_text_and_answers_ping() {
    let mut s = session("A", "Alice", 1);
    join(&mut s, stored_room());
    assert_eq!(
        s.on_inbound(Inbound::Text("  hello there \n".to_string())),
        vec![Action::Send("{\"message\":\"Echo: hello there\"}".to_string())]
    );
    assert_eq!(s.on_inbound(Inbound::Ping(vec![1, 2])), vec![Action::Pong(vec![1, 2])]);
    assert!(s.on_inbound(Inbound::Other).is_empty());
    assert_eq!(s.phase, Phase::Active);
    assert_eq!(s.on_inbound(Inbound::Close), vec![Action::Close]);
    assert_eq!(s.phase, Phase::Closing);
    assert!(s.on_inbound(Inbound::Text("late".to_string())).is_empty());
}

#[test]
fn transport_failure_closes_session() {
    let mut s = session("A", "Alice", 1);
    join(&mut s, stored_room());
    assert_eq!(s.on_inbound(Inbound::Failed), vec![Action::Close]);
    assert_eq!(s.phase, Phase::Closing);
}

#[test]
fn frames_before_join_completes_are_ignored() {
    let mut s = session("A", "Alice", 1);
    assert!(s.on_inbound(Inbound::Text("hi".to_string())).is_empty());
    s.start();
    assert!(s.start().is_empty());
    assert!(s.on_inbound(Inbound::Ping(vec![])).is_empty());
}

#[test]
fn closing_removes_client_from_document_and_releases() {
    let mut s = session("A", "Alice", 7);
    join(&mut s, stored_room());
    assert_eq!(s.on_stopped(), vec![Action::FetchRoom("quiz_room:12345678".to_string())]);
    assert_eq!(s.phase, Phase::Closing);
    let mut room = stored_room();
    room.enroll("A", "Alice");
    room.enroll("B", "Bob");
    let out = s.on_cleanup_fetched(RoomLookup::Found(room));
    let mut expected = stored_room();
    expected.enroll("B", "Bob");
    assert_eq!(
        out,
        vec![
            Action::Persist("quiz_room:12345678".to_string(), encode_room(&expected), 3600),
            Action::Release("12345678".to_string(), "A".to_string(), 7),
        ]
    );
    assert_eq!(s.phase, Phase::Closed);
    assert!(s.on_stopped().is_empty());
}

#[test]
fn closing_without_document_only_releases() {
    let mut s = session("A", "Alice", 3);
    s.start();
    s.on_room_fetched(RoomLookup::Missing);
    s.on_stopped();
    assert_eq!(
        s.on_cleanup_fetched(RoomLookup::Missing),
        vec![Action::Release("12345678".to_string(), "A".to_string(), 3)]
    );
    assert_eq!(s.phase, Phase::Closed);
}
