use quiz_rooms::store::{transaction_pipeline, StoreCommand};

fn words(c: StoreCommand) -> Vec<String> {
    c.words()
}

#[test]
fn commands_are_written_as_words() {
    assert_eq!(
        words(StoreCommand::SetEx("quiz_room:1".into(), "{}".into(), 3600)),
        vec!["SETEX", "quiz_room:1", "3600", "{}"]
    );
    assert_eq!(words(StoreCommand::SetKey("k".into(), "v".into())), vec!["SET", "k", "v"]);
    assert_eq!(words(StoreCommand::Get("k".into())), vec!["GET", "k"]);
    assert_eq!(words(StoreCommand::Del("k".into())), vec!["DEL", "k"]);
    assert_eq!(words(StoreCommand::Exists("k".into())), vec!["EXISTS", "k"]);
    assert_eq!(words(StoreCommand::SetNx("k".into(), "v".into())), vec!["SETNX", "k", "v"]);
    assert_eq!(words(StoreCommand::Expire("k".into(), -1)), vec!["EXPIRE", "k", "-1"]);
    assert_eq!(words(StoreCommand::IncrBy("k".into(), -42)), vec!["INCRBY", "k", "-42"]);
    assert_eq!(
        words(StoreCommand::Publish("disconnect".into(), "1:A".into())),
        vec!["PUBLISH", "disconnect", "1:A"]
    );
}

#[test]
fn transaction_matches_a_native_atomic_pipeline() {
    let ops = vec![
        StoreCommand::SetEx("quiz_room:12345678".into(), "{\"a\":1}".into(), 3600),
        StoreCommand::IncrBy("n".into(), 18446744073709551i64),
    ];
    let ours = transaction_pipeline(&ops);
    let mut native = redis::pipe();
    native.atomic();
    native.cmd("SETEX").arg("quiz_room:12345678").arg(3600u64).arg("{\"a\":1}");
    native.cmd("INCRBY").arg("n").arg(18446744073709551i64);
    assert_eq!(ours.get_packed_pipeline(), native.get_packed_pipeline());
}

#[test]
fn empty_transaction_has_no_commands() {
    let ours = transaction_pipeline(&Vec::new());
    assert_eq!(ours.cmd_iter().count(), 0);
}
