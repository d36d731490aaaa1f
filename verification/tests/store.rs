//! The key-value state machine and its retry windows.

use std::collections::HashMap;

use rustkv::raft::node::StateMachine;
use rustkv::raft::types::{Command, LogEntry, Membership, Session};
use rustkv::store::{KvStore, SessionState, SESSION_WINDOW};
use serde_json::Value;

fn json(text: &str) -> Value {
    serde_json::from_str(text).unwrap()
}

fn num(n: u64) -> Value {
    Value::from(n)
}

#[test]
fn put_get_overwrite_delete() {
    let mut store = KvStore::new();
    assert_eq!(store.get("k"), None);

    store.put("k".to_string(), json(r#"{"a": 1}"#));
    assert_eq!(store.get("k"), Some(json(r#"{"a": 1}"#)));

    store.put("k".to_string(), json(r#"{"b": 2}"#));
    assert_eq!(store.get("k"), Some(json(r#"{"b": 2}"#)));

    assert!(store.delete("k"));
    assert!(!store.delete("k"));
    assert_eq!(store.get("k"), None);
}

fn apply(store: &mut KvStore, index: u64, command: Command) {
    store.apply(&LogEntry {
        term: 1,
        index,
        command,
    });
}

fn tokened_put(key: &str, value: u64, client: u64, seq: u64) -> Command {
    Command::Put {
        key: key.to_string(),
        value: num(value),
        session: Some(Session { client, seq }),
    }
}

fn state(max_seq: u64, recent: u64) -> SessionState {
    SessionState { max_seq, recent }
}

#[test]
fn duplicate_seq_skips_the_mutation() {
    let mut store = KvStore::new();
    apply(&mut store, 1, tokened_put("k", 1, 7, 1));
    // Interleaved conflicting write, then the duplicate: the duplicate must
    // NOT clobber it (an LWW map makes k=1-over-k=1 invisible).
    apply(&mut store, 2, tokened_put("k", 2, 8, 1));
    apply(&mut store, 3, tokened_put("k", 1, 7, 1));
    assert_eq!(store.get("k"), Some(num(2)));
    assert_eq!(
        store.export().sessions,
        HashMap::from([(7, state(1, 0b1)), (8, state(1, 0b1))])
    );
}

/// A lower seq that never applied is a pipelined op that lost the race to the
/// log, not a duplicate. It applies; only its exact retry is then skipped.
#[test]
fn out_of_order_pipelined_op_applies() {
    let mut store = KvStore::new();
    apply(&mut store, 1, tokened_put("b", 3, 7, 3));
    apply(&mut store, 2, tokened_put("a", 1, 7, 1));
    assert_eq!(store.get("a"), Some(num(1)));
    assert_eq!(
        store.export().sessions,
        HashMap::from([(7, state(3, 0b101))])
    );
    // Retries of both seqs are duplicates now; the gap (seq 2) is not.
    apply(&mut store, 3, tokened_put("a", 99, 7, 1));
    apply(&mut store, 4, tokened_put("b", 99, 7, 3));
    assert_eq!(store.get("a"), Some(num(1)));
    assert_eq!(store.get("b"), Some(num(3)));
    apply(&mut store, 5, tokened_put("c", 2, 7, 2));
    assert_eq!(store.get("c"), Some(num(2)));
    assert_eq!(
        store.export().sessions,
        HashMap::from([(7, state(3, 0b111))])
    );
}

#[test]
fn higher_seq_applies_and_advances_the_session() {
    let mut store = KvStore::new();
    apply(&mut store, 1, tokened_put("k", 1, 7, 1));
    apply(&mut store, 2, tokened_put("k", 2, 7, 2));
    assert_eq!(store.get("k"), Some(num(2)));
    assert_eq!(
        store.export().sessions,
        HashMap::from([(7, state(2, 0b11))])
    );
}

#[test]
fn clients_are_independent() {
    let mut store = KvStore::new();
    apply(&mut store, 1, tokened_put("k", 1, 7, 5));
    // Same seq, different client: applies.
    apply(&mut store, 2, tokened_put("k", 2, 8, 5));
    assert_eq!(store.get("k"), Some(num(2)));
    assert_eq!(
        store.export().sessions,
        HashMap::from([(7, state(5, 0b1)), (8, state(5, 0b1))])
    );
}

/// The window slides: seqs that fall more than SESSION_WINDOW behind the max
/// are assumed duplicates (the <= 64-outstanding contract), so dedup keeps
/// working for arbitrarily old retries.
#[test]
fn below_window_seqs_are_assumed_duplicates() {
    let mut store = KvStore::new();
    apply(&mut store, 1, tokened_put("k", 1, 7, 1));
    // Jump far ahead: the window slides past seq 1 entirely.
    apply(&mut store, 2, tokened_put("k", 2, 7, 1 + SESSION_WINDOW));
    assert_eq!(
        store.export().sessions,
        HashMap::from([(7, state(1 + SESSION_WINDOW, 0b1))])
    );
    // A retry of seq 1 (offset 64, below the window) is still skipped...
    apply(&mut store, 3, tokened_put("k", 99, 7, 1));
    assert_eq!(store.get("k"), Some(num(2)));
    // ...while the oldest seq INSIDE the window (offset 63), never applied,
    // still applies.
    apply(&mut store, 4, tokened_put("k", 3, 7, 2));
    assert_eq!(store.get("k"), Some(num(3)));
}

#[test]
fn duplicate_delete_is_skipped() {
    let mut store = KvStore::new();
    apply(&mut store, 1, tokened_put("k", 1, 7, 1));
    apply(
        &mut store,
        2,
        Command::Delete {
            key: "k".to_string(),
            session: Some(Session { client: 7, seq: 2 }),
        },
    );
    // Someone else re-creates the key; the replayed duplicate delete must not
    // destroy it.
    apply(&mut store, 3, tokened_put("k", 9, 8, 1));
    apply(
        &mut store,
        4,
        Command::Delete {
            key: "k".to_string(),
            session: Some(Session { client: 7, seq: 2 }),
        },
    );
    assert_eq!(store.get("k"), Some(num(9)));
}

#[test]
fn tokenless_commands_never_touch_the_sessions_table() {
    let mut store = KvStore::new();
    apply(
        &mut store,
        1,
        Command::Put {
            key: "k".to_string(),
            value: num(1),
            session: None,
        },
    );
    // Token-less commands keep at-least-once semantics: re-applying is a
    // second mutation, not a skip.
    apply(
        &mut store,
        2,
        Command::Put {
            key: "k".to_string(),
            value: num(2),
            session: None,
        },
    );
    apply(
        &mut store,
        3,
        Command::Delete {
            key: "k".to_string(),
            session: None,
        },
    );
    assert_eq!(store.get("k"), None);
    assert_eq!(store.export().sessions, HashMap::new());
}

/// `KvStore::snapshot()` (the inherent, map-only helper) and
/// `StateMachine::snapshot()` (the snapshot payload) coexist. Concrete calls
/// resolve to the inherent method; the trait method captures map + sessions.
#[test]
fn inherent_and_trait_snapshot_methods_coexist() {
    let mut store = KvStore::new();
    apply(&mut store, 1, tokened_put("k", 1, 7, 1));

    // Inherent: just the map.
    let map: HashMap<String, Value> = store.snapshot().into_iter().collect();
    assert_eq!(map, HashMap::from([("k".to_string(), num(1))]));

    // Trait: the full opaque payload, restorable elsewhere.
    let payload = StateMachine::snapshot(&store);
    assert_eq!(payload, store.export(), "trait snapshot is the KvSnapshot");
    let mut restored = KvStore::new();
    StateMachine::restore(&mut restored, &payload);
    assert_eq!(restored.export(), store.export());
    // Sessions rode along: the retry still dedups on the restored store.
    apply(&mut restored, 2, tokened_put("k", 99, 7, 1));
    assert_eq!(restored.get("k"), Some(num(1)));
}

#[test]
fn export_import_roundtrips_map_and_sessions() {
    let mut store = KvStore::new();
    apply(&mut store, 1, tokened_put("a", 1, 7, 1));
    store.put("b".to_string(), json(r#"{"x": true}"#));
    let exported = store.export();

    let mut restored = KvStore::new();
    restored.import(exported.clone());
    assert_eq!(restored.export(), exported);
    // The restored table keeps deduplicating: client 7's seq 1 replays as a
    // no-op.
    apply(&mut restored, 2, tokened_put("a", 99, 7, 1));
    assert_eq!(restored.get("a"), Some(num(1)));
}

#[test]
fn the_window_is_exact_at_its_edges() {
    let mut s = SessionState::new(100);
    assert!(s.contains(100));
    assert!(!s.contains(101));
    assert!(!s.contains(99));
    assert!(!s.contains(37), "offset 63, inside the window");
    assert!(s.contains(36), "offset 64, below the window");
    s.record(37);
    assert!(s.contains(37));
    assert_eq!(s.recent, 1 | 1 << 63);
    s.record(101);
    assert_eq!(s, state(101, 0b11), "37 fell out of the window");
    assert!(s.contains(37));
    s.record(20);
    assert_eq!(s, state(101, 0b11), "below the window nothing changes");
    s.record(u64::MAX);
    assert_eq!(s, state(u64::MAX, 1));
}

#[test]
fn a_retry_changes_nothing_whatever_came_between() {
    let mut store = KvStore::new();
    apply(&mut store, 1, tokened_put("k", 1, 7, 1));
    for seq in 2..200 {
        apply(&mut store, seq, tokened_put("k", seq, 7, seq));
    }
    let before = store.export();
    for seq in 1..200 {
        apply(&mut store, 200 + seq, tokened_put("k", 0, 7, seq));
    }
    assert_eq!(store.export(), before);
}

#[test]
fn removing_keys_keeps_the_others() {
    let mut store = KvStore::default();
    for i in 0..20u64 {
        store.put(format!("k{i}"), num(i));
    }
    for i in (0..20u64).step_by(3) {
        assert!(store.delete(&format!("k{i}")));
    }
    for i in 0..20u64 {
        let expected = if i % 3 == 0 { None } else { Some(num(i)) };
        assert_eq!(store.get(&format!("k{i}")), expected, "k{i}");
    }
    assert_eq!(store.snapshot().len(), 13);
}

#[test]
fn noops_and_configurations_pass_through() {
    let mut store = KvStore::new();
    store.put("k".to_string(), num(1));
    let before = store.export();
    apply(&mut store, 1, Command::Noop);
    apply(
        &mut store,
        2,
        Command::ConfigChange {
            members: std::sync::Arc::new(Membership::new()),
        },
    );
    assert_eq!(store.export(), before);
}

#[test]
fn the_order_of_recording_does_not_matter() {
    let start = SessionState {
        max_seq: 100,
        recent: 0b1011,
    };
    for a in [1u64, 36, 37, 90, 99, 100, 101, 130, 163, 164, 165, 1000] {
        for b in [1u64, 36, 37, 90, 99, 100, 101, 130, 163, 164, 165, 1000] {
            let (mut x, mut y) = (start, start);
            x.record(a);
            x.record(b);
            y.record(b);
            y.record(a);
            assert_eq!(x, y, "{a} and {b}");
            y.record(a);
            assert_eq!(x, y, "{a} again");
        }
    }
}
