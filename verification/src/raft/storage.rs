//! Crash-safe persistence for Raft's hard state, log, and snapshot.
//!
//! On-disk layout inside the node's data directory:
//! - the hard state (current term and vote), rewritten atomically on every
//!   change;
//! - the log, one entry per line, append-only. Suffix truncation atomically
//!   rewrites the whole file;
//! - optionally a snapshot of the state machine; every log entry at or below
//!   its boundary is compacted away.
//!
//! [`Storage`] is the in-memory mirror of those three files plus the ordered
//! list of [`DiskWrite`]s that bring the files up to it. Whoever drives the
//! mirror performs the writes, in order and durably, before letting any
//! answer out. Compaction is crash-safe by ordering: the snapshot is written
//! first, then the log is rewritten without the compacted prefix. A crash
//! between the two leaves a log overlapping the boundary; replay skips
//! entries at or below it, and opening queues the rewrite again.
//!
//! Crash tolerance on replay: a torn *final* line (a crash mid-append) is by
//! construction un-acknowledged, so it is dropped and the file truncated back
//! to the last complete entry. A malformed line anywhere *else*, a gap in
//! indexes, or a log that doesn't continue from the snapshot boundary is real
//! corruption and fails loudly.

use std::sync::Arc;

use vstd::prelude::*;
use vstd::string::*;

use super::durability::Call;
use super::membership::{find_last_config, last_config, Membership};
use super::replay::{
    chunks_follow, good_end, good_entries, kept_above, overlaps, replay_fault, replay_log, replays,
    retained, torn, Chunk,
};
use super::types::{
    copy_entries, share, HardState, LogEntry, LogIndex, Snapshot, SnapshotModel, Term,
};
use crate::text::{decimal, push_decimal};

verus! {

#[derive(Debug, PartialEq)]
pub enum StorageError {
    /// A file operation failed; the text says how.
    Io(String),
    /// Unrecoverable on-disk damage (bad non-final line, index gap, ...).
    Corrupt(String),
    /// An append would create a hole in the log: a caller bug, not disk damage.
    NonContiguous { expected: LogIndex, got: LogIndex },
}

impl StorageError {
    /// What the error says to a reader.
    pub open spec fn text(self) -> Seq<char> {
        match self {
            StorageError::Io(e) => "storage I/O error: "@ + e@,
            StorageError::Corrupt(msg) => "storage corrupt: "@ + msg@,
            StorageError::NonContiguous { expected, got } => {
                "non-contiguous append: expected index "@ + decimal(expected as nat) + ", got "@
                    + decimal(got as nat)
            },
        }
    }

    /// The error as one line of text.
    pub fn message(&self) -> (text: String)
        ensures
            text@ == self.text(),
    {
        match self {
            StorageError::Io(e) => String::from_str("storage I/O error: ").concat(e.as_str()),
            StorageError::Corrupt(msg) => String::from_str("storage corrupt: ").concat(
                msg.as_str(),
            ),
            StorageError::NonContiguous { expected, got } => {
                let mut text = String::from_str("non-contiguous append: expected index ");
                push_decimal(&mut text, *expected as u128);
                text.append(", got ");
                push_decimal(&mut text, *got as u128);
                text
            },
        }
    }
}

/// The content of the three files, and of their in-memory mirror.
#[verifier::ext_equal]
#[verifier::reject_recursive_types(D)]
pub struct Durable<D> {
    pub hard_state: HardState,
    pub snapshot: Option<SnapshotModel<D>>,
    pub log: Seq<LogEntry>,
}

impl<D> Durable<D> {
    /// Index of the last compacted entry; 0 if never compacted.
    pub open spec fn snapshot_index(self) -> int {
        match self.snapshot {
            Some(s) => s.last_included_index as int,
            None => 0,
        }
    }

    /// Term at the snapshot boundary; 0 if never compacted.
    pub open spec fn snapshot_term(self) -> Term {
        match self.snapshot {
            Some(s) => s.last_included_term,
            None => 0,
        }
    }

    /// Index of the last entry, retained or compacted.
    pub open spec fn last_index(self) -> int {
        self.snapshot_index() + self.log.len()
    }

    /// Term of the last entry.
    pub open spec fn last_term(self) -> Term {
        if self.log.len() > 0 {
            self.log.last().term
        } else {
            self.snapshot_term()
        }
    }

    /// The retained log continues the snapshot boundary without a gap.
    pub open spec fn wf(self) -> bool {
        &&& self.last_index() <= u64::MAX
        &&& forall|k: int|
            #![trigger self.log[k]]
            0 <= k < self.log.len() ==> self.log[k].index == self.snapshot_index() + 1 + k
    }

    /// Whether the entry at `index` is retained.
    pub open spec fn holds(self, index: int) -> bool {
        self.snapshot_index() < index <= self.last_index()
    }

    /// The retained entry at `index`.
    pub open spec fn entry_at(self, index: int) -> LogEntry {
        self.log[index - self.snapshot_index() - 1]
    }

    /// The term of `index`, where the files can still tell it.
    pub open spec fn term_at(self, index: int) -> Option<Term> {
        if index == self.snapshot_index() {
            Some(self.snapshot_term())
        } else if self.holds(index) {
            Some(self.entry_at(index).term)
        } else {
            None
        }
    }

    /// The retained entries from `from` on.
    pub open spec fn entries_from(self, from: int) -> Seq<LogEntry> {
        if from <= self.snapshot_index() + 1 {
            self.log
        } else if from <= self.last_index() {
            self.log.skip(from - self.snapshot_index() - 1)
        } else {
            Seq::empty()
        }
    }

    pub open spec fn with_hard_state(self, hs: HardState) -> Self {
        Durable { hard_state: hs, ..self }
    }

    pub open spec fn with_log(self, log: Seq<LogEntry>) -> Self {
        Durable { log, ..self }
    }

    pub open spec fn with_snapshot(self, snapshot: SnapshotModel<D>) -> Self {
        Durable { snapshot: Some(snapshot), ..self }
    }

    pub open spec fn appended(self, entries: Seq<LogEntry>) -> Self {
        self.with_log(self.log + entries)
    }

    /// Everything below `from` (which lies above the boundary).
    pub open spec fn truncated(self, from: int) -> Self {
        self.with_log(self.log.take(from - self.snapshot_index() - 1))
    }

    /// The configuration that the snapshot and the entries through `index`
    /// set, if they set one.
    pub open spec fn membership_through(self, index: int) -> Option<Arc<Membership>> {
        match last_config(self.log.take(index - self.snapshot_index())) {
            Some(members) => Some(members),
            None => match self.snapshot {
                Some(s) => s.membership,
                None => None,
            },
        }
    }

    /// The configuration in effect, if the files set one: a configuration
    /// counts from the moment it is appended.
    pub open spec fn membership(self) -> Option<Arc<Membership>> {
        self.membership_through(self.last_index())
    }

    /// The snapshot that compacting at `index` writes.
    pub open spec fn compaction(self, index: LogIndex, state: D) -> SnapshotModel<D> {
        SnapshotModel {
            last_included_index: index,
            last_included_term: self.entry_at(index as int).term,
            membership: self.membership_through(index as int),
            state,
        }
    }

    pub open spec fn compacted(self, index: LogIndex, state: D) -> Self {
        self.with_snapshot(self.compaction(index, state)).with_log(
            self.entries_from(index + 1),
        )
    }

    /// The suffix that survives installing `snapshot`: kept only where the
    /// entry at the boundary agrees with it.
    pub open spec fn surviving(self, snapshot: SnapshotModel<D>) -> Seq<LogEntry> {
        if self.term_at(snapshot.last_included_index as int) == Some(
            snapshot.last_included_term,
        ) {
            self.entries_from(snapshot.last_included_index + 1)
        } else {
            Seq::empty()
        }
    }

    pub open spec fn installed(self, snapshot: SnapshotModel<D>) -> Self {
        self.with_snapshot(snapshot).with_log(self.surviving(snapshot))
    }

    /// The files after one write has completed.
    pub open spec fn after(self, write: WriteModel<D>) -> Self {
        match write {
            WriteModel::HardState(hs) => self.with_hard_state(hs),
            WriteModel::AppendLog(entries) => self.appended(entries),
            WriteModel::Snapshot(snapshot) => self.with_snapshot(snapshot),
            WriteModel::RewriteLog(entries) => self.with_log(entries),
            WriteModel::TrimLog(_) => self,
        }
    }

    /// The files after several writes, in order.
    pub open spec fn after_all(self, writes: Seq<WriteModel<D>>) -> Self
        decreases writes.len(),
    {
        if writes.len() == 0 {
            self
        } else {
            self.after_all(writes.drop_last()).after(writes.last())
        }
    }

    /// The term that the snapshot has at its boundary, if there is one.
    pub open spec fn boundary_term(self) -> Option<Term> {
        match self.snapshot {
            Some(s) => Some(s.last_included_term),
            None => None,
        }
    }

    /// What reopening these files gives: the log without what the snapshot
    /// already covers, and without what diverges from it.
    pub open spec fn reopened(self) -> Self {
        self.with_log(retained(self.log, self.snapshot_index(), self.boundary_term()))
    }

    /// Whether the log file can be opened: its lines are numbered without a
    /// gap, and what lies above the snapshot starts right behind it.
    pub open spec fn openable(self) -> bool {
        let kept = kept_above(self.log, self.snapshot_index());
        &&& forall|k: int|
            #![trigger self.log[k]]
            0 < k < self.log.len() ==> self.log[k].index == self.log[k - 1].index + 1
        &&& kept.len() > 0 ==> kept[0].index == self.snapshot_index() + 1
    }

    /// The files when a crash interrupted a write: an append has written some
    /// of its lines, the other writes are atomic.
    pub open spec fn after_part(self, write: WriteModel<D>, lines: int) -> Self {
        match write {
            WriteModel::AppendLog(entries) if 0 <= lines <= entries.len() => self.appended(
                entries.take(lines),
            ),
            _ => self,
        }
    }
}

/// One durable change to the files. Performed in the order in which they
/// were queued, each completed before the next starts.
#[verifier::reject_recursive_types(P)]
pub enum DiskWrite<P> {
    /// Atomically replace the hard state.
    HardState(HardState),
    /// Append these entries to the log, one line each.
    AppendLog(Vec<LogEntry>),
    /// Atomically replace the snapshot.
    Snapshot(Snapshot<P>),
    /// Atomically replace the log with exactly these entries.
    RewriteLog(Vec<LogEntry>),
    /// Cut a torn final line: shorten the log file to this many bytes.
    TrimLog(usize),
}

/// What a disk write does.
#[verifier::ext_equal]
#[verifier::reject_recursive_types(D)]
pub enum WriteModel<D> {
    HardState(HardState),
    AppendLog(Seq<LogEntry>),
    Snapshot(SnapshotModel<D>),
    RewriteLog(Seq<LogEntry>),
    TrimLog(int),
}

impl<P> View for DiskWrite<P> {
    type V = WriteModel<P>;

    open spec fn view(&self) -> WriteModel<P> {
        match self {
            DiskWrite::HardState(hs) => WriteModel::HardState(*hs),
            DiskWrite::AppendLog(entries) => WriteModel::AppendLog(entries@),
            DiskWrite::Snapshot(snapshot) => WriteModel::Snapshot(snapshot@),
            DiskWrite::RewriteLog(entries) => WriteModel::RewriteLog(entries@),
            DiskWrite::TrimLog(len) => WriteModel::TrimLog(*len as int),
        }
    }
}

/// The writes of a queue, by what they do.
pub open spec fn write_models<P>(writes: Seq<DiskWrite<P>>) -> Seq<WriteModel<P>> {
    writes.map_values(|w: DiskWrite<P>| w@)
}

/// Hard state + log + snapshot for one node, with the retained log (and the
/// snapshot) mirrored in memory.
///
/// Index arithmetic: log indexes stay global and 1-based, but entries at or
/// below the snapshot boundary are compacted away. With no snapshot the
/// boundary is 0.
#[verifier::reject_recursive_types(P)]
pub struct Storage<P> {
    hard_state: HardState,
    /// The current snapshot, if any. Doubles as the leader's InstallSnapshot
    /// payload, replaced whenever a compaction replaces it.
    snapshot: Option<Snapshot<P>>,
    /// In-memory mirror of the retained log (entries above the boundary).
    log: Vec<LogEntry>,
    /// Writes that the files still lack, oldest first.
    writes: Vec<DiskWrite<P>>,
}

impl<P> View for Storage<P> {
    type V = Durable<P>;

    closed spec fn view(&self) -> Durable<P> {
        Durable {
            hard_state: self.hard_state,
            snapshot: match self.snapshot {
                Some(s) => Some(s@),
                None => None,
            },
            log: self.log@,
        }
    }
}

/// The message of a truncation that reaches into the snapshot.
pub open spec fn truncate_refusal(from: LogIndex, boundary: int) -> Seq<char> {
    "truncate_from("@ + decimal(from as nat) + "): at or below the snapshot boundary "@
        + decimal(boundary as nat)
}

/// The message of a compaction outside the retained log.
pub open spec fn compact_refusal(index: LogIndex, boundary: int, last: int) -> Seq<char> {
    "compact_to("@ + decimal(index as nat) + "): outside the retained log ("@ + decimal(
        boundary as nat,
    ) + ", "@ + decimal(last as nat) + "]"@
}

/// The message of a snapshot that is not ahead of the current one.
pub open spec fn install_refusal(index: LogIndex, boundary: int) -> Seq<char> {
    "install_snapshot("@ + decimal(index as nat) + "): at or below the current boundary "@
        + decimal(boundary as nat)
}

/// The writes that opening queues: a torn final line is cut off, and a log
/// with lines that the snapshot covers is rewritten with what is kept.
pub open spec fn repairs<P>(
    chunks: Seq<Chunk>,
    parsed: Seq<Result<LogEntry, String>>,
    boundary: int,
    kept: Seq<LogEntry>,
) -> Seq<WriteModel<P>> {
    let trim = if torn(chunks, parsed) {
        seq![WriteModel::<P>::TrimLog(good_end(chunks, parsed))]
    } else {
        seq![]
    };
    if overlaps(good_entries(chunks, parsed), boundary) {
        trim.push(WriteModel::RewriteLog(kept))
    } else {
        trim
    }
}

/// Whether entries are numbered one after another from `first`.
pub open spec fn numbered_from(entries: Seq<LogEntry>, first: int) -> bool {
    forall|i: int|
        #![trigger entries[i]]
        0 <= i < entries.len() ==> entries[i].index == first + i
}

impl<P> Storage<P> {
    /// The mirror's invariant.
    pub open spec fn wf(&self) -> bool {
        self@.wf()
    }

    /// The writes that the files still lack.
    pub closed spec fn pending(&self) -> Seq<WriteModel<P>> {
        write_models(self.writes@)
    }

    /// Opens the storage from what the files held: the hard state and the
    /// snapshot where they exist, and the log as chunks with the entry (or
    /// the parse error) that each one decodes to. A torn final chunk is
    /// dropped and queued to be cut from the file. Where lines are still there
    /// that the snapshot covers (a crash came between the two), the rewrite of
    /// the log is queued again.
    pub fn open(
        hard_state: Option<HardState>,
        snapshot: Option<Snapshot<P>>,
        chunks: &Vec<Chunk>,
        parsed: Vec<Result<LogEntry, String>>,
        path: &str,
    ) -> (opened: Result<Self, StorageError>)
        requires
            chunks.len() == parsed.len(),
            chunks_follow(chunks@),
        ensures
            ({
                let boundary = match snapshot {
                    Some(s) => s.last_included_index,
                    None => 0,
                };
                let term = match snapshot {
                    Some(s) => Some(s.last_included_term),
                    None => None,
                };
                match opened {
                    Ok(storage) => {
                        &&& storage.wf()
                        &&& replays(chunks@, parsed@, boundary)
                        &&& storage@.hard_state == match hard_state {
                            Some(hs) => hs,
                            None => (HardState { current_term: 0, voted_for: None }),
                        }
                        &&& storage@.snapshot == match snapshot {
                            Some(s) => Some(s@),
                            None => None,
                        }
                        &&& storage@.log == retained(
                            good_entries(chunks@, parsed@),
                            boundary as int,
                            term,
                        )
                        &&& storage.pending() == repairs::<P>(
                            chunks@,
                            parsed@,
                            boundary as int,
                            storage@.log,
                        )
                    },
                    Err(StorageError::Corrupt(message)) => {
                        &&& !replays(chunks@, parsed@, boundary)
                        &&& message@ == replay_fault(chunks@, parsed@, boundary, path@)
                    },
                    Err(_) => false,
                }
            }),
    {
        let boundary: u64 = match &snapshot {
            Some(s) => s.last_included_index,
            None => 0,
        };
        let hs = match hard_state {
            Some(hs) => hs,
            None => HardState::default(),
        };
        let term: Option<Term> = match &snapshot {
            Some(s) => Some(s.last_included_term),
            None => None,
        };
        match replay_log(chunks, parsed, boundary, term, path) {
            Ok(replay) => {
                let mut writes: Vec<DiskWrite<P>> = Vec::new();
                if replay.torn {
                    writes.push(DiskWrite::TrimLog(replay.good_end));
                }
                if replay.overlap {
                    writes.push(DiskWrite::RewriteLog(copy_entries(replay.log.as_slice())));
                }
                let storage = Storage { hard_state: hs, snapshot, log: replay.log, writes };
                assert(storage.pending() =~= repairs::<P>(
                    chunks@,
                    parsed@,
                    boundary as int,
                    storage@.log,
                ));
                proof {
                    let log = storage@.log;
                    if log.len() > 0 {
                        assert(log.last().index == boundary + log.len());
                    }
                }
                Ok(storage)
            },
            Err(e) => Err(e),
        }
    }

    /// Current term and vote.
    pub fn hard_state(&self) -> (hs: HardState)
        ensures
            hs == self@.hard_state,
    {
        self.hard_state
    }

    /// The current snapshot, if the log has ever been compacted.
    pub fn snapshot(&self) -> (snapshot: Option<&Snapshot<P>>)
        ensures
            match snapshot {
                Some(s) => self@.snapshot == Some(s@),
                None => self@.snapshot is None,
            },
    {
        self.snapshot.as_ref()
    }

    /// Index of the last compacted entry; 0 if never compacted. Every entry
    /// at or below it lives only in the snapshot.
    pub fn snapshot_index(&self) -> (index: LogIndex)
        ensures
            index == self@.snapshot_index(),
    {
        match &self.snapshot {
            Some(s) => s.last_included_index,
            None => 0,
        }
    }

    /// Term of the entry at the snapshot boundary; 0 if never compacted
    /// (matching the index-0 sentinel this boundary generalizes).
    pub fn snapshot_term(&self) -> (term: Term)
        ensures
            term == self@.snapshot_term(),
    {
        match &self.snapshot {
            Some(s) => s.last_included_term,
            None => 0,
        }
    }

    /// Position of global `index` in the retained in-memory log, or `None`
    /// outside of it. The single place index arithmetic happens.
    fn pos(&self, index: LogIndex) -> (pos: Option<usize>)
        requires
            self.wf(),
        ensures
            match pos {
                Some(p) => self@.holds(index as int) && p == index - self@.snapshot_index() - 1,
                None => !self@.holds(index as int),
            },
    {
        let boundary: u64 = self.snapshot_index();
        if index <= boundary || index - boundary > self.log.len() as u64 {
            None
        } else {
            Some((index - boundary - 1) as usize)
        }
    }

    /// Replaces the hard state. Its write must be performed before
    /// responding to any RPC that changed term or vote.
    pub fn save_hard_state(&mut self, hs: HardState) -> (saved: Result<(), StorageError>)
        ensures
            final(self)@ == Call::<P>::SaveHardState(hs).mirror_after(old(self)@),
            final(self).pending() == old(self).pending() + Call::<P>::SaveHardState(hs).queues(old(self)@),
            saved is Ok,
            final(self)@ == old(self)@.with_hard_state(hs),
            final(self).pending() == old(self).pending().push(WriteModel::HardState(hs)),
    {
        self.hard_state = hs;
        self.queue(DiskWrite::HardState(hs));
        Ok(())
    }

    /// Queues one disk write.
    fn queue(&mut self, write: DiskWrite<P>)
        ensures
            final(self)@ == old(self)@,
            final(self).pending() == old(self).pending().push(write@),
    {
        self.writes.push(write);
        assert(self.pending() =~= old(self).pending().push(write@));
    }

    /// Hands over the writes that the files lack, oldest first, and forgets
    /// them.
    pub fn take_writes(&mut self) -> (writes: Vec<DiskWrite<P>>)
        ensures
            write_models(writes@) == old(self).pending(),
            final(self)@ == old(self)@,
            final(self).pending() == Seq::<WriteModel<P>>::empty(),
    {
        let mut writes: Vec<DiskWrite<P>> = Vec::new();
        std::mem::swap(&mut self.writes, &mut writes);
        assert(self.pending() =~= Seq::<WriteModel<P>>::empty());
        writes
    }

    /// Appends entries, which must continue the log contiguously
    /// (`entries[0].index == last_index() + 1`, then +1 each).
    pub fn append(&mut self, entries: &[LogEntry]) -> (appended: Result<(), StorageError>)
        requires
            old(self).wf(),
            old(self)@.last_index() + entries.len() <= u64::MAX,
        ensures
            final(self)@ == Call::<P>::Append(entries@).mirror_after(old(self)@),
            final(self).pending() == old(self).pending() + Call::<P>::Append(entries@).queues(old(self)@),
            final(self).wf(),
            match appended {
                Ok(()) => {
                    &&& numbered_from(entries@, old(self)@.last_index() + 1)
                    &&& final(self)@ == old(self)@.appended(entries@)
                    &&& final(self).pending() == if entries.len() == 0 {
                        old(self).pending()
                    } else {
                        old(self).pending().push(WriteModel::AppendLog(entries@))
                    }
                },
                Err(StorageError::NonContiguous { expected, got }) => {
                    &&& *final(self) == *old(self)
                    &&& exists|i: int|
                        #![trigger entries[i]]
                        {
                            &&& 0 <= i < entries.len()
                            &&& numbered_from(entries@.take(i), old(self)@.last_index() + 1)
                            &&& expected == old(self)@.last_index() + 1 + i
                            &&& got == entries[i].index
                            &&& got != expected
                        }
                },
                Err(_) => false,
            },
    {
        if entries.len() == 0 {
            assert(self@.appended(entries@) =~= self@);
            return Ok(());
        }
        let first: u64 = self.last_index() + 1;
        let mut i: usize = 0;
        while i < entries.len()
            invariant
                i <= entries.len(),
                first == old(self)@.last_index() + 1,
                first + entries.len() <= u64::MAX + 1,
                old(self).wf(),
                *self == *old(self),
                numbered_from(entries@.take(i as int), first as int),
            decreases entries.len() - i,
        {
            let expected: u64 = first + i as u64;
            if entries[i].index != expected {
                let got: u64 = entries[i].index;
                assert(entries[i as int].index == got);
                return Err(StorageError::NonContiguous { expected, got });
            }
            assert forall|j: int| 0 <= j < i + 1 implies (#[trigger] entries@.take(
                i + 1,
            )[j]).index == first + j by {
                if j < i {
                    assert(entries@.take(i as int)[j] == entries@[j]);
                }
            }
            i += 1;
        }
        assert(entries@.take(entries.len() as int) =~= entries@);
        let mut fresh = copy_entries(entries);
        let line = copy_entries(entries);
        self.log.append(&mut fresh);
        let write = DiskWrite::AppendLog(line);
        self.queue(write);
        assert(self@.log =~= old(self)@.log + entries@);
        assert(self@ =~= old(self)@.appended(entries@));
        Ok(())
    }

    /// Drops every entry with `index >= from` (log-conflict handling). No-op
    /// if `from` is past the end of the log. Truncating at or below the
    /// snapshot boundary is an error: compacted entries are committed and
    /// must never be rewound (index 0 is the degenerate case).
    pub fn truncate_from(&mut self, from: LogIndex) -> (truncated: Result<(), StorageError>)
        requires
            old(self).wf(),
        ensures
            final(self)@ == Call::<P>::TruncateFrom(from).mirror_after(old(self)@),
            final(self).pending() == old(self).pending() + Call::<P>::TruncateFrom(from).queues(old(self)@),
            final(self).wf(),
            match truncated {
                Ok(()) => {
                    &&& from > old(self)@.snapshot_index()
                    &&& if from > old(self)@.last_index() {
                        *final(self) == *old(self)
                    } else {
                        &&& final(self)@ == old(self)@.truncated(from as int)
                        &&& final(self).pending() == old(self).pending().push(
                            WriteModel::RewriteLog(final(self)@.log),
                        )
                    }
                },
                Err(StorageError::Corrupt(message)) => {
                    &&& *final(self) == *old(self)
                    &&& from <= old(self)@.snapshot_index()
                    &&& message@ == truncate_refusal(from, old(self)@.snapshot_index())
                },
                Err(_) => false,
            },
    {
        let boundary: u64 = self.snapshot_index();
        if from <= boundary {
            let mut message = String::from_str("truncate_from(");
            push_decimal(&mut message, from as u128);
            message.append("): at or below the snapshot boundary ");
            push_decimal(&mut message, boundary as u128);
            return Err(StorageError::Corrupt(message));
        }
        match self.pos(from) {
            None => Ok(()),
            Some(keep) => {
                self.log.truncate(keep);
                assert(self@ =~= old(self)@.truncated(from as int));
                self.queue_rewrite();
                Ok(())
            },
        }
    }

    /// Queues the rewrite of the log file with exactly the retained entries.
    fn queue_rewrite(&mut self)
        ensures
            final(self)@ == old(self)@,
            final(self).pending() == old(self).pending().push(
                WriteModel::RewriteLog(old(self)@.log),
            ),
    {
        let lines = copy_entries(self.log.as_slice());
        self.queue(DiskWrite::RewriteLog(lines));
    }

    /// Compacts the log up to and including `last_included_index`, replacing
    /// that prefix with a snapshot carrying `state` (the state machine's
    /// export at exactly that index: the caller must pass `last_applied`,
    /// never `commit_index`, since committed-but-unapplied entries are not in
    /// the state yet).
    ///
    /// Crash-safe ordering: the snapshot is written first, then the log is
    /// rewritten without the prefix; replay tolerates the in-between state.
    pub fn compact_to(&mut self, last_included_index: LogIndex, state: P) -> (compacted: Result<
        (),
        StorageError,
    >)
        requires
            old(self).wf(),
        ensures
            final(self)@ == Call::<P>::CompactTo(last_included_index, state).mirror_after(old(self)@),
            final(self).pending() == old(self).pending() + Call::<P>::CompactTo(last_included_index, state).queues(old(self)@),
            final(self).wf(),
            match compacted {
                Ok(()) => {
                    &&& old(self)@.holds(last_included_index as int)
                    &&& final(self)@ == old(self)@.compacted(last_included_index, state)
                    &&& final(self).pending() == old(self).pending().push(
                        WriteModel::Snapshot(
                            old(self)@.compaction(last_included_index, state),
                        ),
                    ).push(WriteModel::RewriteLog(final(self)@.log))
                },
                Err(StorageError::Corrupt(message)) => {
                    &&& *final(self) == *old(self)
                    &&& !old(self)@.holds(last_included_index as int)
                    &&& message@ == compact_refusal(
                        last_included_index,
                        old(self)@.snapshot_index(),
                        old(self)@.last_index(),
                    )
                },
                Err(_) => false,
            },
    {
        match self.pos(last_included_index) {
            None => {
                let mut message = String::from_str("compact_to(");
                push_decimal(&mut message, last_included_index as u128);
                message.append("): outside the retained log (");
                push_decimal(&mut message, self.snapshot_index() as u128);
                message.append(", ");
                push_decimal(&mut message, self.last_index() as u128);
                message.append("]");
                Err(StorageError::Corrupt(message))
            },
            Some(p) => {
                assert(p < self.log.len());
                // Capture the boundary entry's term while the entry exists.
                let snapshot = Snapshot {
                    last_included_index,
                    last_included_term: self.log[p].term,
                    membership: self.membership_of_first(p + 1),
                    state: Arc::new(state),
                };
                self.replace_prefix(snapshot, p + 1);
                assert(self@.log =~= old(self)@.entries_from(last_included_index + 1));
                assert(self@ =~= old(self)@.compacted(last_included_index, state));
                Ok(())
            },
        }
    }

    /// The configuration that the snapshot and the first `count` retained
    /// entries set.
    fn membership_of_first(&self, count: usize) -> (members: Option<Arc<Membership>>)
        requires
            count <= self@.log.len(),
        ensures
            members == self@.membership_through(self@.snapshot_index() + count),
    {
        match find_last_config(self.log.as_slice(), count) {
            Some(members) => Some(members),
            None => match &self.snapshot {
                Some(s) => match &s.membership {
                    Some(members) => Some(share(members)),
                    None => None,
                },
                None => None,
            },
        }
    }

    /// The configuration in effect, if the files set one.
    pub fn membership(&self) -> (members: Option<Arc<Membership>>)
        ensures
            members == self@.membership(),
    {
        self.membership_of_first(self.log.len())
    }

    /// Adopts `snapshot` in place of the first `count` retained entries.
    fn replace_prefix(&mut self, snapshot: Snapshot<P>, count: usize)
        requires
            count <= old(self)@.log.len(),
        ensures
            final(self)@ == old(self)@.with_snapshot(snapshot@).with_log(
                old(self)@.log.skip(count as int),
            ),
            final(self).pending() == old(self).pending().push(
                WriteModel::Snapshot(snapshot@),
            ).push(WriteModel::RewriteLog(final(self)@.log)),
    {
        let copy = snapshot.clone();
        self.log = self.log.split_off(count);
        self.snapshot = Some(snapshot);
        self.queue(DiskWrite::Snapshot(copy));
        self.queue_rewrite();
        assert(self@.log =~= old(self)@.log.skip(count as int));
        assert(self@ =~= old(self)@.with_snapshot(snapshot@).with_log(
            old(self)@.log.skip(count as int),
        ));
    }

    /// Adopts a snapshot received from the leader (InstallSnapshot),
    /// replacing everything up to its boundary. The log suffix beyond the
    /// boundary is retained only if our entry AT the boundary matches the
    /// snapshot's term (log matching then guarantees the suffix continues the
    /// committed history); otherwise the whole log is stale and is cleared.
    /// The boundary must lie above the current snapshot.
    pub fn install_snapshot(&mut self, snapshot: &Snapshot<P>) -> (installed: Result<
        (),
        StorageError,
    >)
        requires
            old(self).wf(),
        ensures
            final(self)@ == Call::<P>::InstallSnapshot(snapshot@).mirror_after(old(self)@),
            final(self).pending() == old(self).pending() + Call::<P>::InstallSnapshot(snapshot@).queues(old(self)@),
            final(self).wf(),
            match installed {
                Ok(()) => {
                    &&& snapshot.last_included_index > old(self)@.snapshot_index()
                    &&& final(self)@ == old(self)@.installed(snapshot@)
                    &&& final(self).pending() == old(self).pending().push(
                        WriteModel::Snapshot(snapshot@),
                    ).push(WriteModel::RewriteLog(final(self)@.log))
                },
                Err(StorageError::Corrupt(message)) => {
                    &&& *final(self) == *old(self)
                    &&& snapshot.last_included_index <= old(self)@.snapshot_index()
                    &&& message@ == install_refusal(
                        snapshot.last_included_index,
                        old(self)@.snapshot_index(),
                    )
                },
                Err(_) => false,
            },
    {
        let boundary: u64 = self.snapshot_index();
        if snapshot.last_included_index <= boundary {
            let mut message = String::from_str("install_snapshot(");
            push_decimal(&mut message, snapshot.last_included_index as u128);
            message.append("): at or below the current boundary ");
            push_decimal(&mut message, boundary as u128);
            return Err(StorageError::Corrupt(message));
        }
        let count: usize = match self.pos(snapshot.last_included_index) {
            Some(p) => {
                assert(p < self.log.len());
                if self.log[p].term == snapshot.last_included_term {
                    p + 1
                } else {
                    self.log.len()
                }
            },
            None => self.log.len(),
        };
        self.replace_prefix(snapshot.clone(), count);
        assert(self@.log =~= old(self)@.surviving(snapshot@));
        assert(self@ =~= old(self)@.installed(snapshot@));
        Ok(())
    }

    /// The retained entries (everything above the snapshot boundary).
    pub fn entries(&self) -> (entries: &[LogEntry])
        ensures
            entries@ == self@.log,
    {
        self.log.as_slice()
    }

    /// All retained entries with `index >= from`; empty if past the end.
    /// Asking below the boundary yields the whole retained log (what lies
    /// below is compacted and cannot be returned).
    pub fn entries_from(&self, from: LogIndex) -> (entries: &[LogEntry])
        requires
            self.wf(),
        ensures
            entries@ == self@.entries_from(from as int),
    {
        let start: usize = match self.pos(from) {
            Some(p) => p,
            None => if from <= self.snapshot_index() {
                0
            } else {
                self.log.len()
            },
        };
        let tail = vstd::slice::slice_subrange(self.log.as_slice(), start, self.log.len());
        assert(tail@ =~= self@.entries_from(from as int));
        tail
    }

    /// The entry at 1-based `index`, if retained. Index 0 (the "before the
    /// log" sentinel) and compacted indexes never have one.
    pub fn entry(&self, index: LogIndex) -> (entry: Option<&LogEntry>)
        requires
            self.wf(),
        ensures
            match entry {
                Some(e) => self@.holds(index as int) && *e == self@.entry_at(index as int),
                None => !self@.holds(index as int),
            },
    {
        match self.pos(index) {
            Some(p) => Some(&self.log[p]),
            None => None,
        }
    }

    /// The term of the entry at `index`: `Some(snapshot_term)` at the
    /// boundary itself (`Some(0)` at the index-0 sentinel the boundary
    /// generalizes), `None` past the end AND below the boundary, the latter
    /// meaning "compacted; only the snapshot can answer".
    pub fn term(&self, index: LogIndex) -> (term: Option<Term>)
        requires
            self.wf(),
        ensures
            term == self@.term_at(index as int),
    {
        if index == self.snapshot_index() {
            return Some(self.snapshot_term());
        }
        match self.entry(index) {
            Some(e) => Some(e.term),
            None => None,
        }
    }

    /// Index of the last entry (retained or compacted), or 0 if nothing was
    /// ever appended.
    pub fn last_index(&self) -> (index: LogIndex)
        requires
            self.wf(),
        ensures
            index == self@.last_index(),
    {
        self.snapshot_index() + self.log.len() as u64
    }

    /// Term of the last entry; falls back to the snapshot boundary's term
    /// when the retained log is empty (0 if nothing was ever appended).
    pub fn last_term(&self) -> (term: Term)
        ensures
            term == self@.last_term(),
    {
        if self.log.len() > 0 {
            self.log[self.log.len() - 1].term
        } else {
            self.snapshot_term()
        }
    }
}

/// What opening repairs: a torn last line is cut off where the good lines end,
/// before anything else; a log that still has lines the snapshot covers is
/// rewritten with what is kept; and a sound log is left alone.
pub proof fn opening_repairs_what_is_torn<P>(
    chunks: Seq<Chunk>,
    parsed: Seq<Result<LogEntry, String>>,
    boundary: int,
    kept: Seq<LogEntry>,
)
    requires
        chunks.len() == parsed.len(),
    ensures
        ({
            let writes = repairs::<P>(chunks, parsed, boundary, kept);
            let broken = parsed.len() > 0 && (parsed[parsed.len() - 1] is Err || !chunks[chunks.len()
                - 1].complete);
            let covered = exists|i: int|
                #![trigger good_entries(chunks, parsed)[i]]
                0 <= i < good_entries(chunks, parsed).len() && good_entries(chunks, parsed)[i].index
                    <= boundary;
            &&& broken ==> writes.len() > 0 && writes[0] == WriteModel::<P>::TrimLog(
                good_end(chunks, parsed),
            )
            &&& covered ==> writes.len() > 0 && writes[writes.len() - 1] == WriteModel::<
                P,
            >::RewriteLog(kept)
            &&& !broken && !covered ==> writes.len() == 0
            &&& writes.len() <= 2
            &&& !covered ==> writes.len() <= 1
        }),
{
}

} // verus!
