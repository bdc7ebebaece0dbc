use quiz_rooms::json::error_frame;
use quiz_rooms::presence::{disconnect_payload, parse_event, Instruction, PresenceRegistry};

fn eviction_of(handle: u64) -> Vec<Instruction> {
    vec![
        Instruction::Send(handle, error_frame("Disconnected due to new connection.")),
        Instruction::Close(handle),
    ]
}

#[test]
fn first_register_evicts_nobody() {
    let mut reg = PresenceRegistry::new();
    assert!(reg.register("12345678", "A", 1).is_empty());
    assert_eq!(reg.lookup("12345678", "A"), Some(1));
    assert_eq!(reg.lookup("12345678", "B"), None);
    assert_eq!(reg.lookup("87654321", "A"), None);
}

#[test]
fn reconnect_evicts_previous_socket_first() {
    let mut reg = PresenceRegistry::new();
    reg.register("12345678", "A", 1);
    let out = reg.register("12345678", "A", 2);
    assert_eq!(out, eviction_of(1));
    assert_eq!(
        out[0],
        Instruction::Send(1, "{\"error\":\"Disconnected due to new connection.\"}".to_string())
    );
    assert_eq!(reg.lookup("12345678", "A"), Some(2));
}

#[test]
fn same_client_in_two_rooms_is_two_entries() {
    let mut reg = PresenceRegistry::new();
    assert!(reg.register("1", "A", 1).is_empty());
    assert!(reg.register("2", "A", 2).is_empty());
    assert_eq!(reg.lookup("1", "A"), Some(1));
    assert_eq!(reg.lookup("2", "A"), Some(2));
}

#[test]
fn any_sequence_keeps_one_handle_per_pair() {
    let mut reg = PresenceRegistry::new();
    for h in 0..20u64 {
        let room = if h % 2 == 0 { "r1" } else { "r2" };
        let client = if h % 3 == 0 { "A" } else { "B" };
        reg.register(room, client, h);
        if h % 5 == 4 {
            reg.unregister("r1", "B");
        }
    }
    for room in ["r1", "r2"] {
        for client in ["A", "B"] {
            let held = reg.lookup(room, client);
            let again = reg.unregister(room, client);
            assert_eq!(held, again);
            assert_eq!(reg.lookup(room, client), None);
            assert_eq!(reg.unregister(room, client), None);
        }
    }
}

#[test]
fn unregister_is_a_no_op_when_absent() {
    let mut reg = PresenceRegistry::new();
    assert_eq!(reg.unregister("1", "A"), None);
    reg.register("1", "A", 9);
    assert_eq!(reg.unregister("1", "A"), Some(9));
    assert_eq!(reg.lookup("1", "A"), None);
}

#[test]
fn release_keeps_a_newer_session() {
    let mut reg = PresenceRegistry::new();
    reg.register("1", "A", 1);
    reg.register("1", "A", 2);
    assert!(!reg.release("1", "A", 1));
    assert_eq!(reg.lookup("1", "A"), Some(2));
    assert!(reg.release("1", "A", 2));
    assert_eq!(reg.lookup("1", "A"), None);
}

#[test]
fn disconnect_event_evicts_local_holder() {
    let mut reg = PresenceRegistry::new();
    reg.register("12345678", "A", 5);
    let out = reg.on_disconnect_event("12345678:A");
    assert_eq!(out, eviction_of(5));
    assert_eq!(reg.lookup("12345678", "A"), None);
    assert!(reg.on_disconnect_event("12345678:A").is_empty());
}

#[test]
fn malformed_disconnect_event_is_ignored() {
    let mut reg = PresenceRegistry::new();
    reg.register("12345678", "A", 5);
    assert!(reg.on_disconnect_event("12345678A").is_empty());
    assert_eq!(reg.lookup("12345678", "A"), Some(5));
}

#[test]
fn event_payload_splits_at_first_colon() {
    assert_eq!(disconnect_payload("12345678", "abc"), "12345678:abc");
    assert_eq!(parse_event("12345678:abc"), Some(("12345678".to_string(), "abc".to_string())));
    assert_eq!(parse_event("a:b:c"), Some(("a".to_string(), "b:c".to_string())));
    assert_eq!(parse_event(":"), Some((String::new(), String::new())));
    assert_eq!(parse_event("nocolon"), None);
    let p = disconnect_payload("00000000", "é:x");
    assert_eq!(parse_event(&p), Some(("00000000".to_string(), "é:x".to_string())));
}
