//! Durable state: the mirror, the writes it queues, and reading them back.

use std::sync::Arc;

use rustkv::raft::replay::{split_lines, Chunk};
use rustkv::raft::storage::{DiskWrite, Storage, StorageError};
use rustkv::raft::types::{
    Command, HardState, LogEntry, LogIndex, MemberAddr, Membership, Snapshot, Term,
};
use serde_json::Value;

fn json(text: &str) -> Value {
    serde_json::from_str(text).unwrap()
}

fn entry(term: Term, index: LogIndex) -> LogEntry {
    LogEntry {
        term,
        index,
        command: Command::Put {
            key: format!("k{index}"),
            value: json(&format!("{{\"i\": {index}}}")),
            session: None,
        },
    }
}

fn state(marker: u64) -> Value {
    json(&format!("{{\"marker\": {marker}}}"))
}

fn snapshot(index: LogIndex, term: Term) -> Snapshot<Value> {
    Snapshot {
        last_included_index: index,
        last_included_term: term,
        membership: None,
        state: Arc::new(state(index)),
    }
}

/// One line of the log file.
fn encode(entry: &LogEntry) -> Vec<u8> {
    let Command::Put { key, value, .. } = &entry.command else {
        panic!("only puts are stored here");
    };
    format!(
        "{{\"term\":{},\"index\":{},\"command\":{{\"Put\":{{\"key\":{},\"value\":{}}}}}}}\n",
        entry.term,
        entry.index,
        serde_json::to_string(key).unwrap(),
        serde_json::to_string(value).unwrap()
    )
    .into_bytes()
}

fn decode(line: &[u8]) -> Result<LogEntry, String> {
    let value: Value = serde_json::from_slice(line).map_err(|e| e.to_string())?;
    let put = &value["command"]["Put"];
    match (value["term"].as_u64(), value["index"].as_u64(), put["key"].as_str()) {
        (Some(term), Some(index), Some(key)) => Ok(LogEntry {
            term,
            index,
            command: Command::Put {
                key: key.to_string(),
                value: put["value"].clone(),
                session: None,
            },
        }),
        _ => Err("not an entry".to_string()),
    }
}

/// The data directory.
#[derive(Default)]
struct Disk {
    hard_state: Option<HardState>,
    snapshot: Option<Snapshot<Value>>,
    log: Vec<u8>,
}

impl Disk {
    fn try_open(&mut self) -> Result<Storage<Value>, StorageError> {
        let chunks: Vec<Chunk> = split_lines(&self.log);
        let parsed = chunks.iter().map(|c| decode(&self.log[c.start..c.end])).collect();
        let mut storage = Storage::open(
            self.hard_state,
            self.snapshot.clone(),
            &chunks,
            parsed,
            "data/log.jsonl",
        )?;
        self.flush(&mut storage);
        Ok(storage)
    }

    fn open(&mut self) -> Storage<Value> {
        match self.try_open() {
            Ok(storage) => storage,
            Err(e) => panic!("{}", e.message()),
        }
    }

    fn fault(&mut self) -> StorageError {
        match self.try_open() {
            Ok(_) => panic!("must not open"),
            Err(e) => e,
        }
    }

    fn perform(&mut self, write: DiskWrite<Value>) {
        match write {
            DiskWrite::HardState(hs) => self.hard_state = Some(hs),
            DiskWrite::AppendLog(entries) => {
                for e in &entries {
                    self.log.extend(encode(e));
                }
            }
            DiskWrite::Snapshot(s) => self.snapshot = Some(s),
            DiskWrite::RewriteLog(entries) => {
                self.log = entries.iter().flat_map(encode).collect();
            }
            DiskWrite::TrimLog(len) => self.log.truncate(len),
        }
    }

    fn flush(&mut self, storage: &mut Storage<Value>) {
        for write in storage.take_writes() {
            self.perform(write);
        }
    }
}

#[test]
fn fresh_dir_starts_empty_with_default_hard_state() {
    let storage = Disk::default().open();
    assert_eq!(storage.hard_state(), HardState::default());
    assert_eq!(storage.last_index(), 0);
    assert_eq!(storage.last_term(), 0);
    assert_eq!(storage.entries(), &[]);
    assert_eq!(storage.term(0), Some(0));
    assert_eq!(storage.term(1), None);
}

#[test]
fn entries_from_slices_the_tail() {
    let mut storage = Disk::default().open();
    storage
        .append(&[entry(1, 1), entry(1, 2), entry(2, 3)])
        .unwrap();

    assert_eq!(storage.entries_from(1), storage.entries());
    assert_eq!(storage.entries_from(3).len(), 1);
    assert_eq!(storage.entries_from(3)[0].index, 3);
    assert_eq!(storage.entries_from(4), &[]);
    assert_eq!(storage.entries_from(100), &[]);
}

#[test]
fn hard_state_survives_reopen() {
    let mut disk = Disk::default();
    let hs = HardState {
        current_term: 7,
        voted_for: Some(2),
    };
    {
        let mut storage = disk.open();
        storage.save_hard_state(hs).unwrap();
        assert_eq!(storage.hard_state(), hs);
        disk.flush(&mut storage);
    }
    assert_eq!(disk.open().hard_state(), hs);
}

#[test]
fn appended_entries_survive_reopen() {
    let mut disk = Disk::default();
    let entries = vec![entry(1, 1), entry(1, 2), entry(2, 3)];
    {
        let mut storage = disk.open();
        storage.append(&entries[..2]).unwrap();
        storage.append(&entries[2..]).unwrap();
        disk.flush(&mut storage);
    }
    let storage = disk.open();
    assert_eq!(storage.entries(), &entries);
    assert_eq!(storage.last_index(), 3);
    assert_eq!(storage.last_term(), 2);
    assert_eq!(storage.term(2), Some(1));
    assert_eq!(storage.entry(3), Some(&entries[2]));
    assert_eq!(storage.entry(4), None);
}

#[test]
fn non_contiguous_append_is_rejected() {
    let mut storage = Disk::default().open();
    storage.append(&[entry(1, 1)]).unwrap();

    let err = storage.append(&[entry(1, 3)]).unwrap_err();
    assert!(matches!(
        err,
        StorageError::NonContiguous {
            expected: 2,
            got: 3
        }
    ));
    // Gap *inside* the batch is rejected too, and nothing is written.
    let err = storage.append(&[entry(1, 2), entry(1, 4)]).unwrap_err();
    assert!(matches!(
        err,
        StorageError::NonContiguous {
            expected: 3,
            got: 4
        }
    ));
    assert_eq!(storage.last_index(), 1);
    assert_eq!(
        err.message(),
        "non-contiguous append: expected index 3, got 4"
    );
    assert_eq!(storage.take_writes().len(), 1, "only the first append");
}

#[test]
fn truncate_from_drops_suffix_durably() {
    let mut disk = Disk::default();
    {
        let mut storage = disk.open();
        storage
            .append(&[entry(1, 1), entry(1, 2), entry(2, 3)])
            .unwrap();
        storage.truncate_from(2).unwrap();
        assert_eq!(storage.last_index(), 1);
        // Appending after truncation reuses the freed indexes.
        storage.append(&[entry(3, 2)]).unwrap();
        disk.flush(&mut storage);
    }
    let storage = disk.open();
    assert_eq!(storage.last_index(), 2);
    assert_eq!(storage.term(2), Some(3));
}

#[test]
fn truncate_past_end_is_a_noop_and_zero_is_rejected() {
    let mut storage = Disk::default().open();
    storage.append(&[entry(1, 1)]).unwrap();
    storage.truncate_from(5).unwrap();
    assert_eq!(storage.last_index(), 1);
    assert!(matches!(
        storage.truncate_from(0),
        Err(StorageError::Corrupt(_))
    ));
    assert_eq!(storage.take_writes().len(), 1);
}

#[test]
fn torn_final_line_is_dropped_on_replay() {
    let mut disk = Disk::default();
    let mut storage = disk.open();
    storage.append(&[entry(1, 1), entry(1, 2)]).unwrap();
    disk.flush(&mut storage);
    // A crash mid-append: a partial JSON fragment, no newline.
    disk.log.extend(br#"{"term":1,"index":3,"comm"#);

    let mut storage = disk.open();
    assert_eq!(storage.last_index(), 2);
    // The file was repaired: appending and reopening again works cleanly.
    storage.append(&[entry(1, 3)]).unwrap();
    disk.flush(&mut storage);
    assert_eq!(disk.open().last_index(), 3);
}

#[test]
fn complete_but_unparsable_final_line_is_also_dropped() {
    // A final line that ends in '\n' but doesn't parse (e.g. torn write that
    // happened to end on a newline byte) is still un-acked: dropped.
    let mut disk = Disk::default();
    let mut storage = disk.open();
    storage.append(&[entry(1, 1)]).unwrap();
    disk.flush(&mut storage);
    disk.log.extend(b"garbage\n");

    assert_eq!(disk.open().last_index(), 1);
}

#[test]
fn corrupt_middle_line_fails_loudly() {
    let mut disk = Disk::default();
    let mut storage = disk.open();
    storage.append(&[entry(1, 1), entry(1, 2)]).unwrap();
    disk.flush(&mut storage);
    let contents = String::from_utf8(disk.log.clone()).unwrap();
    disk.log = contents
        .replacen(r#""term":1,"index":1"#, r#""term":1,"index":9"#, 1)
        .into_bytes();

    assert!(matches!(disk.fault(), StorageError::Corrupt(_)));
}

#[test]
fn compact_reopen_preserves_boundary_arithmetic() {
    let mut disk = Disk::default();
    {
        let mut storage = disk.open();
        storage
            .append(&[
                entry(1, 1),
                entry(1, 2),
                entry(2, 3),
                entry(2, 4),
                entry(3, 5),
            ])
            .unwrap();
        storage.compact_to(3, state(3)).unwrap();

        // In-memory arithmetic immediately after compaction...
        assert_eq!(storage.snapshot_index(), 3);
        assert_eq!(storage.snapshot_term(), 2);
        assert_eq!(storage.last_index(), 5);
        assert_eq!(storage.last_term(), 3);
        assert_eq!(storage.term(2), None, "compacted");
        assert_eq!(storage.term(3), Some(2), "the boundary answers");
        assert_eq!(storage.term(4), Some(2));
        assert_eq!(storage.term(6), None, "past the end");
        assert_eq!(storage.entry(3), None);
        assert_eq!(storage.entry(4), Some(&entry(2, 4)));
        assert_eq!(storage.entries_from(4).len(), 2);
        assert_eq!(
            storage.entries_from(1).len(),
            2,
            "below-boundary = whole tail"
        );
        assert_eq!(storage.entries_from(6), &[]);
        // ...and appends continue contiguously past the retained tail.
        storage.append(&[entry(3, 6)]).unwrap();
        disk.flush(&mut storage);
    }
    // ...and identically after reopening from disk.
    let storage = disk.open();
    assert_eq!(storage.snapshot_index(), 3);
    assert_eq!(storage.snapshot_term(), 2);
    assert_eq!(storage.last_index(), 6);
    assert_eq!(storage.entries().len(), 3);
    assert_eq!(storage.term(3), Some(2));
    assert_eq!(storage.term(1), None);
    assert_eq!(*storage.snapshot().unwrap().state, state(3));
    assert_eq!(storage.snapshot().unwrap().membership, None);
}

#[test]
fn compacting_the_whole_log_leaves_boundary_answers_only() {
    let mut disk = Disk::default();
    {
        let mut storage = disk.open();
        storage.append(&[entry(1, 1), entry(2, 2)]).unwrap();
        storage.compact_to(2, state(2)).unwrap();
        assert_eq!(storage.entries(), &[]);
        assert_eq!(storage.last_index(), 2);
        assert_eq!(storage.last_term(), 2, "falls back to the snapshot term");
        // Appending after a full compaction continues at boundary + 1.
        storage.append(&[entry(3, 3)]).unwrap();
        disk.flush(&mut storage);
    }
    let storage = disk.open();
    assert_eq!(storage.last_index(), 3);
    assert_eq!(storage.term(3), Some(3));
}

#[test]
fn truncate_at_or_below_the_boundary_errors() {
    let mut storage = Disk::default().open();
    storage
        .append(&[entry(1, 1), entry(1, 2), entry(1, 3), entry(1, 4)])
        .unwrap();
    storage.compact_to(3, state(3)).unwrap();

    for from in [0, 1, 3] {
        assert!(
            matches!(storage.truncate_from(from), Err(StorageError::Corrupt(_))),
            "truncate_from({from}) must refuse to rewind compacted entries"
        );
    }
    assert_eq!(
        storage.truncate_from(1).unwrap_err().message(),
        "storage corrupt: truncate_from(1): at or below the snapshot boundary 3"
    );
    // Just above the boundary still works.
    storage.truncate_from(4).unwrap();
    assert_eq!(storage.last_index(), 3);
    assert_eq!(storage.entries(), &[]);
}

#[test]
fn compact_outside_the_retained_log_errors() {
    let mut storage = Disk::default().open();
    storage.append(&[entry(1, 1), entry(1, 2)]).unwrap();
    storage.compact_to(1, state(1)).unwrap();

    // At/below the current boundary, at the 0 sentinel, and past the end.
    for index in [0, 1, 3] {
        assert!(
            matches!(
                storage.compact_to(index, state(index)),
                Err(StorageError::Corrupt(_))
            ),
            "compact_to({index}) must be rejected"
        );
    }
    assert_eq!(
        storage.compact_to(3, state(3)).unwrap_err().message(),
        "storage corrupt: compact_to(3): outside the retained log (1, 2]"
    );
}

/// The crash window: the snapshot is written, but the crash hit before the log
/// rewrite, so the old log still overlaps the boundary. Reopening must skip
/// the overlap and land in exactly the fully-compacted state.
#[test]
fn crash_between_snapshot_write_and_log_rewrite_is_idempotent() {
    let mut disk = Disk::default();
    {
        let mut storage = disk.open();
        storage
            .append(&[entry(1, 1), entry(1, 2), entry(2, 3), entry(2, 4)])
            .unwrap();
        disk.flush(&mut storage);
        // The window itself: only the first of the compaction's two writes.
        storage.compact_to(3, state(3)).unwrap();
        let mut writes = storage.take_writes();
        assert_eq!(writes.len(), 2);
        disk.perform(writes.remove(0));
    }
    assert_eq!(disk.snapshot, Some(snapshot(3, 2)));

    let mut storage = disk.open();
    assert_eq!(storage.snapshot_index(), 3);
    assert_eq!(storage.entries(), &[entry(2, 4)]);
    assert_eq!(storage.last_index(), 4);
    assert_eq!(storage.term(3), Some(2));
    assert_eq!(storage.term(1), None);
    // Appends after the repair stay contiguous and a second reopen is clean
    // (idempotence).
    storage.append(&[entry(2, 5)]).unwrap();
    disk.flush(&mut storage);
    let storage = disk.open();
    assert_eq!(storage.last_index(), 5);
    assert_eq!(storage.entries().first(), Some(&entry(2, 4)));
}

/// The extreme crash window: the snapshot covers the ENTIRE old log.
#[test]
fn crash_window_covering_the_whole_log_reopens_empty() {
    let mut disk = Disk::default();
    let mut storage = disk.open();
    storage.append(&[entry(1, 1), entry(1, 2)]).unwrap();
    disk.flush(&mut storage);
    disk.snapshot = Some(snapshot(2, 1));

    let storage = disk.open();
    assert_eq!(storage.entries(), &[]);
    assert_eq!(storage.last_index(), 2);
    assert_eq!(storage.last_term(), 1);
}

/// A retained log that does NOT continue from the snapshot boundary is
/// corruption, not a legal crash window.
#[test]
fn log_gap_after_the_boundary_fails_loudly() {
    let mut disk = Disk::default();
    let mut storage = disk.open();
    storage.append(&[entry(1, 1), entry(1, 2)]).unwrap();
    storage.compact_to(2, state(2)).unwrap();
    storage.append(&[entry(2, 3)]).unwrap();
    disk.flush(&mut storage);
    // Forge a snapshot claiming a LOWER boundary than the log continues from:
    // the retained log would start at 3 against a boundary of 1.
    disk.snapshot = Some(snapshot(1, 1));
    let fault = disk.fault();
    assert!(matches!(fault, StorageError::Corrupt(_)));
    assert_eq!(
        fault.message(),
        "storage corrupt: data/log.jsonl: log starts at index 3 but the snapshot boundary is 1"
    );
}

#[test]
fn install_snapshot_retains_a_matching_suffix_and_clears_a_divergent_log() {
    // Matching boundary entry: the suffix beyond it survives.
    let mut storage = Disk::default().open();
    storage
        .append(&[entry(1, 1), entry(1, 2), entry(2, 3), entry(2, 4)])
        .unwrap();
    storage.install_snapshot(&snapshot(3, 2)).unwrap();
    assert_eq!(storage.entries(), &[entry(2, 4)]);
    assert_eq!(storage.last_index(), 4);

    // Divergent boundary entry (or none at all): the log is cleared.
    let mut disk = Disk::default();
    let mut storage = disk.open();
    storage.append(&[entry(1, 1), entry(1, 2)]).unwrap();
    storage.install_snapshot(&snapshot(5, 4)).unwrap();
    assert_eq!(storage.entries(), &[]);
    assert_eq!(storage.last_index(), 5);
    assert_eq!(storage.last_term(), 4);
    // Regressing the boundary is refused (the caller guards on commit_index,
    // so reaching this would be a bug).
    assert!(matches!(
        storage.install_snapshot(&snapshot(5, 4)),
        Err(StorageError::Corrupt(_))
    ));
    assert_eq!(
        storage.install_snapshot(&snapshot(4, 4)).unwrap_err().message(),
        "storage corrupt: install_snapshot(4): at or below the current boundary 5"
    );
    // And the installed snapshot survives reopen.
    disk.flush(&mut storage);
    let storage = disk.open();
    assert_eq!(storage.snapshot_index(), 5);
    assert_eq!(*storage.snapshot().unwrap().state, state(5));
}

/// Data dirs without a snapshot must open byte-identically: same contents,
/// same arithmetic, no snapshot conjured into existence.
#[test]
fn pre_snapshot_data_dirs_open_unchanged() {
    let mut disk = Disk::default();
    let entries = vec![entry(1, 1), entry(1, 2), entry(2, 3)];
    {
        let mut storage = disk.open();
        storage.append(&entries).unwrap();
        disk.flush(&mut storage);
    }
    let log_bytes = disk.log.clone();

    let storage = disk.open();
    assert!(storage.snapshot().is_none());
    assert_eq!(storage.snapshot_index(), 0);
    assert_eq!(storage.snapshot_term(), 0);
    assert_eq!(storage.entries(), &entries);
    assert_eq!(storage.term(0), Some(0), "the index-0 sentinel");
    assert_eq!(storage.last_index(), 3);
    assert!(disk.snapshot.is_none());
    assert_eq!(disk.log, log_bytes, "opening must not rewrite the log");
}

#[test]
fn torn_final_line_is_repaired_even_past_a_snapshot_boundary() {
    let mut disk = Disk::default();
    let mut storage = disk.open();
    storage
        .append(&[entry(1, 1), entry(1, 2), entry(1, 3)])
        .unwrap();
    storage.compact_to(2, state(2)).unwrap();
    disk.flush(&mut storage);
    disk.log.extend(br#"{"term":1,"index":4,"comm"#);

    let mut storage = disk.open();
    assert_eq!(storage.last_index(), 3);
    storage.append(&[entry(1, 4)]).unwrap();
    disk.flush(&mut storage);
    assert_eq!(disk.open().last_index(), 4);
}

#[test]
fn index_gap_on_disk_fails_loudly() {
    let mut disk = Disk::default();
    let mut storage = disk.open();
    storage
        .append(&[entry(1, 1), entry(1, 2), entry(1, 3)])
        .unwrap();
    disk.flush(&mut storage);

    // Remove the middle line to create a gap 1 → 3.
    let contents = String::from_utf8(disk.log.clone()).unwrap();
    let lines: Vec<&str> = contents.lines().collect();
    disk.log = format!("{}\n{}\n", lines[0], lines[2]).into_bytes();

    let fault = disk.fault();
    assert!(matches!(fault, StorageError::Corrupt(_)));
    assert_eq!(
        fault.message(),
        format!(
            "storage corrupt: data/log.jsonl: expected index 2 at byte {}, found 3",
            lines[0].len() + 1
        )
    );
}

#[test]
fn a_bad_line_in_the_middle_is_named() {
    let mut disk = Disk::default();
    disk.log.extend(encode(&entry(1, 1)));
    let at = disk.log.len();
    disk.log.extend(b"garbage\n");
    disk.log.extend(encode(&entry(1, 2)));
    match disk.fault() {
        StorageError::Corrupt(text) => assert!(
            text.starts_with(&format!("data/log.jsonl: bad line at byte {at}: ")),
            "{text}"
        ),
        other => panic!("{other:?}"),
    }
}

#[test]
fn a_last_line_without_newline_is_torn_even_if_it_parses() {
    let mut disk = Disk::default();
    disk.log.extend(encode(&entry(1, 1)));
    let whole = disk.log.len();
    disk.log.extend(encode(&entry(1, 2)));
    disk.log.pop();
    assert_eq!(disk.open().last_index(), 1);
    assert_eq!(disk.log.len(), whole, "cut back to the last complete line");
}

#[test]
fn every_prefix_of_an_append_reopens_to_a_prefix_of_the_log() {
    let mut disk = Disk::default();
    let mut storage = disk.open();
    storage.append(&[entry(1, 1)]).unwrap();
    disk.flush(&mut storage);
    let kept = disk.log.len();
    disk.log.extend(encode(&entry(1, 2)));
    disk.log.extend(encode(&entry(1, 3)));
    let full = disk.log.clone();
    for len in kept..=full.len() {
        let mut crashed = Disk {
            log: full[..len].to_vec(),
            ..Disk::default()
        };
        let storage = crashed.open();
        let n = storage.last_index();
        assert!((1..=3).contains(&n));
        for i in 1..=n {
            assert_eq!(storage.entry(i), Some(&entry(1, i)));
        }
    }
}

#[test]
fn lines_are_cut_behind_newlines() {
    let cut = |bytes: &[u8]| -> Vec<(usize, usize, bool)> {
        split_lines(bytes)
            .iter()
            .map(|c| (c.start, c.end, c.complete))
            .collect()
    };
    assert_eq!(cut(b""), vec![]);
    assert_eq!(cut(b"ab"), vec![(0, 2, false)]);
    assert_eq!(cut(b"ab\n\nc"), vec![(0, 3, true), (3, 4, true), (4, 5, false)]);
}

#[test]
fn io_errors_keep_their_text() {
    assert_eq!(
        StorageError::Io("disk on fire".to_string()).message(),
        "storage I/O error: disk on fire"
    );
}

#[test]
fn compaction_carries_the_configuration() {
    let mut members = Membership::new();
    members.insert(
        4,
        MemberAddr {
            raft: "n4:9080".to_string(),
            client: "http://n4:8080".to_string(),
        },
    );
    let members = Arc::new(members);
    let config = LogEntry {
        term: 1,
        index: 2,
        command: Command::ConfigChange {
            members: members.clone(),
        },
    };
    let mut storage = Disk::default().open();
    storage
        .append(&[entry(1, 1), config, entry(1, 3)])
        .unwrap();
    assert_eq!(storage.membership(), Some(members.clone()));
    storage.compact_to(1, state(1)).unwrap();
    assert_eq!(storage.snapshot().unwrap().membership, None);
    storage.compact_to(2, state(2)).unwrap();
    assert_eq!(storage.snapshot().unwrap().membership, Some(members.clone()));
    assert_eq!(storage.membership(), Some(members.clone()));
    storage.compact_to(3, state(3)).unwrap();
    assert_eq!(storage.snapshot().unwrap().membership, Some(members));
}

#[test]
fn opening_completes_an_interrupted_compaction() {
    let mut disk = Disk::default();
    let mut storage = disk.open();
    storage
        .append(&[entry(1, 1), entry(1, 2), entry(1, 3)])
        .unwrap();
    disk.flush(&mut storage);
    // The snapshot reaches the disk, the rewritten log does not.
    storage.compact_to(2, state(2)).unwrap();
    let mut writes = storage.take_writes();
    assert_eq!(writes.len(), 2);
    disk.perform(writes.remove(0));

    let mut storage = disk.open();
    assert_eq!(disk.log, encode(&entry(1, 3)), "opening rewrites the log");
    assert_eq!(storage.entries(), [entry(1, 3)]);
    storage.append(&[entry(2, 4)]).unwrap();
    disk.flush(&mut storage);
    let storage = disk.open();
    assert_eq!(storage.snapshot_index(), 2);
    assert_eq!(storage.entries(), [entry(1, 3), entry(2, 4)]);
}

#[test]
fn opening_completes_an_install_beyond_the_log() {
    let mut disk = Disk::default();
    let mut storage = disk.open();
    storage.append(&[entry(1, 1), entry(1, 2)]).unwrap();
    disk.flush(&mut storage);
    storage.install_snapshot(&snapshot(5, 2)).unwrap();
    let mut writes = storage.take_writes();
    disk.perform(writes.remove(0));

    let mut storage = disk.open();
    assert!(disk.log.is_empty());
    assert_eq!(storage.last_index(), 5);
    // The next line continues the file, and the next open reads it.
    storage.append(&[entry(2, 6)]).unwrap();
    disk.flush(&mut storage);
    let storage = disk.open();
    assert_eq!(storage.entries(), [entry(2, 6)]);
}

#[test]
fn opening_completes_an_install_over_a_divergent_log() {
    let mut disk = Disk::default();
    let mut storage = disk.open();
    storage
        .append(&[entry(1, 1), entry(1, 2), entry(1, 3)])
        .unwrap();
    disk.flush(&mut storage);
    storage.install_snapshot(&snapshot(2, 2)).unwrap();
    let mut writes = storage.take_writes();
    disk.perform(writes.remove(0));

    let storage = disk.open();
    assert!(storage.entries().is_empty(), "the stale tail is cleared");
    assert_eq!(storage.last_index(), 2);
    assert!(disk.log.is_empty());
}

#[test]
fn any_calls_then_reopening_gives_everything_back() {
    let mut disk = Disk::default();
    let mut storage = disk.open();
    assert_eq!(storage.hard_state(), HardState::default());
    let hs = HardState {
        current_term: 3,
        voted_for: Some(2),
    };
    storage.save_hard_state(hs).unwrap();
    storage
        .append(&[entry(1, 1), entry(1, 2), entry(2, 3), entry(2, 4)])
        .unwrap();
    storage.truncate_from(4).unwrap();
    assert!(storage.truncate_from(0).is_err());
    storage.compact_to(2, state(2)).unwrap();
    storage.append(&[entry(3, 4)]).unwrap();
    disk.flush(&mut storage);

    let before = disk.log.clone();
    let mut again = disk.open();
    assert_eq!(again.hard_state(), hs);
    assert_eq!(again.snapshot(), Some(&snapshot(2, 1)));
    assert_eq!(again.entries(), [entry(2, 3), entry(3, 4)]);
    assert_eq!(disk.log, before, "opening changes no byte");
    assert!(again.take_writes().is_empty());
}
