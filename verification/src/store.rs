//! In-memory key-value state machine.
//!
//! All mutations arrive by applying committed Raft log entries (the
//! [`StateMachine`] impl).
//!
//! Dedup: commands carrying a [`Session`] token are applied exactly once. A
//! `sessions` table tracks, per client, which seqs have applied, and a command
//! whose exact seq already applied skips the mutation (the duplicate log entry
//! still committed; only its application is a no-op). Matching is EXACT over a
//! sliding window of the most recent [`SESSION_WINDOW`] seqs, not
//! `seq <= max`: a client may pipeline up to that many independent ops, and an
//! op arriving after a higher-seq one still applies. Below the window a seq is
//! treated as a duplicate, which is only sound under the documented contract:
//! at most [`SESSION_WINDOW`] outstanding ops per client, seqs strictly
//! increasing. The table lives IN the state machine so it is rebuilt by log
//! replay after a restart and rides along in snapshots ([`KvSnapshot`]). There
//! is deliberately NO expiry: apply must stay a pure fold of the log. The
//! table therefore grows with the number of distinct clients.

use std::collections::HashMap;

use serde_json::Value;
use vstd::prelude::*;

use crate::kvmap::{copy_pairs, pairs_map, KvMap};
use crate::raft::machine::StateMachine;
use crate::raft::types::{copy_value, Command, LogEntry, Session};

verus! {

broadcast use vstd::std_specs::hash::group_hash_axioms;

/// How many recent seqs per client the dedup window covers: a client may have
/// at most this many ops outstanding at once.
pub const SESSION_WINDOW: u64 = 64;

/// One client's dedup state: which of its last [`SESSION_WINDOW`] seqs have
/// applied. Bit `i` of `recent` set means seq `max_seq - i` applied (bit 0 is
/// `max_seq` itself); anything below the window is assumed already applied.
#[derive(Debug, Clone, Copy, PartialEq, Eq, Structural)]
pub struct SessionState {
    pub max_seq: u64,
    pub recent: u64,
}

impl SessionState {
    /// Whether `seq` has applied, or is assumed to have.
    pub open spec fn applied(self, seq: u64) -> bool {
        seq <= self.max_seq && (self.max_seq - seq >= SESSION_WINDOW || self.recent & (1u64 << ((
        self.max_seq - seq) as u64)) != 0)
    }

    /// The state once `seq` has applied too.
    pub open spec fn recorded(self, seq: u64) -> Self {
        if seq > self.max_seq {
            SessionState {
                max_seq: seq,
                recent: if seq - self.max_seq < SESSION_WINDOW {
                    (self.recent << ((seq - self.max_seq) as u64)) | 1
                } else {
                    1
                },
            }
        } else if self.max_seq - seq < SESSION_WINDOW {
            SessionState {
                max_seq: self.max_seq,
                recent: self.recent | (1u64 << ((self.max_seq - seq) as u64)),
            }
        } else {
            self
        }
    }

    /// A client whose first applied seq is `seq`.
    pub fn new(seq: u64) -> (state: Self)
        ensures
            state == (SessionState { max_seq: seq, recent: 1 }),
    {
        Self { max_seq: seq, recent: 1 }
    }

    /// Whether `seq` has applied, or lies below the window.
    pub fn contains(&self, seq: u64) -> (applied: bool)
        ensures
            applied == self.applied(seq),
    {
        if seq > self.max_seq {
            return false;
        }
        let offset: u64 = self.max_seq - seq;
        // Below the window: assumed a duplicate (sound only under the
        // <= SESSION_WINDOW outstanding-ops contract).
        offset >= SESSION_WINDOW || self.recent & (1u64 << offset) != 0
    }

    /// Marks `seq` as applied; the window slides up to it.
    pub fn record(&mut self, seq: u64)
        ensures
            *final(self) == old(self).recorded(seq),
    {
        if seq > self.max_seq {
            let shift: u64 = seq - self.max_seq;
            self.recent = if shift < SESSION_WINDOW {
                (self.recent << shift) | 1
            } else {
                1
            };
            self.max_seq = seq;
        } else if self.max_seq - seq < SESSION_WINDOW {
            self.recent = self.recent | (1u64 << (self.max_seq - seq));
        }
    }
}

/// The full state a snapshot must capture: the KV map AND the dedup sessions.
/// Forgetting the latter would resurrect skipped duplicates on a
/// snapshot-restored node.
#[derive(Debug, PartialEq)]
pub struct KvSnapshot {
    /// Each key with its value.
    pub map: Vec<(String, Value)>,
    pub sessions: HashMap<u64, SessionState>,
}

/// What the store holds.
#[verifier::ext_equal]
pub struct KvState {
    pub map: Map<Seq<char>, Value>,
    pub sessions: Map<u64, SessionState>,
}

impl View for KvSnapshot {
    type V = KvState;

    open spec fn view(&self) -> KvState {
        KvState { map: pairs_map(self.map@), sessions: self.sessions@ }
    }
}

impl Clone for KvSnapshot {
    fn clone(&self) -> (copy: Self)
        ensures
            copy@ == self@,
            copy.map@ == self.map@,
    {
        KvSnapshot { map: copy_pairs(&self.map), sessions: self.sessions.clone() }
    }
}

impl KvState {
    /// The store before any command.
    pub open spec fn empty() -> Self {
        KvState { map: Map::empty(), sessions: Map::empty() }
    }

    /// Whether a tokened command was already applied. Token-less commands are
    /// never duplicates.
    pub open spec fn is_duplicate(self, session: Option<Session>) -> bool {
        match session {
            Some(s) => self.sessions.contains_key(s.client) && self.sessions[s.client].applied(
                s.seq,
            ),
            None => false,
        }
    }

    /// The client's window once the command's seq has applied.
    pub open spec fn with_applied(self, session: Option<Session>) -> Self {
        match session {
            Some(s) => KvState {
                sessions: self.sessions.insert(
                    s.client,
                    if self.sessions.contains_key(s.client) {
                        self.sessions[s.client].recorded(s.seq)
                    } else {
                        SessionState { max_seq: s.seq, recent: 1 }
                    },
                ),
                ..self
            },
            None => self,
        }
    }

    /// The state after a command: a duplicate changes nothing.
    pub open spec fn after(self, command: Command) -> Self {
        match command {
            Command::Put { key, value, session } => {
                if self.is_duplicate(session) {
                    self
                } else {
                    KvState { map: self.map.insert(key@, value), ..self }.with_applied(session)
                }
            },
            Command::Delete { key, session } => {
                if self.is_duplicate(session) {
                    self
                } else {
                    KvState { map: self.map.remove(key@), ..self }.with_applied(session)
                }
            },
            Command::Noop => self,
            Command::ConfigChange { .. } => self,
        }
    }
}

/// String keys to arbitrary JSON values, plus the dedup sessions table
/// (client → applied-seq window).
pub struct KvStore {
    map: KvMap,
    sessions: HashMap<u64, SessionState>,
}

impl View for KvStore {
    type V = KvState;

    closed spec fn view(&self) -> KvState {
        KvState { map: self.map@, sessions: self.sessions@ }
    }
}

impl KvStore {
    /// The store's invariant.
    pub closed spec fn wf(&self) -> bool {
        self.map.wf()
    }

    /// An empty store.
    pub fn new() -> (store: Self)
        ensures
            store.wf(),
            store@ == KvState::empty(),
    {
        KvStore { map: KvMap::new(), sessions: HashMap::new() }
    }

    /// Returns a clone of the stored value, or `None` if the key is absent.
    pub fn get(&self, key: &str) -> (value: Option<Value>)
        requires
            self.wf(),
        ensures
            value == if self@.map.contains_key(key@) {
                Some(self@.map[key@])
            } else {
                None
            },
    {
        match self.map.get(key) {
            Some(value) => Some(copy_value(value)),
            None => None,
        }
    }

    /// Inserts or overwrites the value for `key`.
    pub fn put(&mut self, key: String, value: Value)
        requires
            old(self).wf(),
        ensures
            final(self).wf(),
            final(self)@ == (KvState { map: old(self)@.map.insert(key@, value), ..old(self)@ }),
    {
        self.map.insert(key, value);
    }

    /// Removes `key`. Returns `true` if it existed.
    pub fn delete(&mut self, key: &str) -> (existed: bool)
        requires
            old(self).wf(),
        ensures
            final(self).wf(),
            existed == old(self)@.map.contains_key(key@),
            final(self)@ == (KvState { map: old(self)@.map.remove(key@), ..old(self)@ }),
    {
        self.map.remove(key)
    }

    /// A copy of the full map, each key once: for tests and debugging, not
    /// the hot path.
    pub fn snapshot(&self) -> (pairs: Vec<(String, Value)>)
        requires
            self.wf(),
        ensures
            pairs_map(pairs@) == self@.map,
            forall|i: int, j: int|
                #![trigger pairs[i], pairs[j]]
                0 <= i < j < pairs.len() ==> pairs[i].0@ != pairs[j].0@,
    {
        self.map.pairs()
    }

    /// The complete snapshottable state: map + sessions.
    pub fn export(&self) -> (snapshot: KvSnapshot)
        requires
            self.wf(),
        ensures
            snapshot@ == self@,
    {
        KvSnapshot { map: self.map.pairs(), sessions: self.sessions.clone() }
    }

    /// Replaces the entire state with a snapshot.
    pub fn import(&mut self, snapshot: KvSnapshot)
        ensures
            final(self).wf(),
            final(self)@ == snapshot@,
    {
        self.map = KvMap::from_pairs(&snapshot.map);
        self.sessions = snapshot.sessions;
    }

    /// True if a tokened command was already applied: its exact seq is in the
    /// client's applied window (or below it, see [`SessionState`]). Token-less
    /// commands are never duplicates.
    fn already_applied(&self, session: Option<Session>) -> (duplicate: bool)
        ensures
            duplicate == self@.is_duplicate(session),
    {
        match session {
            Some(s) => match self.sessions.get(&s.client) {
                Some(state) => state.contains(s.seq),
                None => false,
            },
            None => false,
        }
    }

    /// Records a tokened command's seq in the client's applied window.
    fn record_applied(&mut self, session: Option<Session>)
        requires
            old(self).wf(),
        ensures
            final(self).wf(),
            final(self)@ == old(self)@.with_applied(session),
    {
        if let Some(s) = session {
            let state = match self.sessions.get(&s.client) {
                Some(state) => {
                    let mut next = *state;
                    next.record(s.seq);
                    next
                },
                None => SessionState::new(s.seq),
            };
            self.sessions.insert(s.client, state);
            assert(self@ =~= old(self)@.with_applied(session));
        }
    }
}

impl Default for KvStore {
    fn default() -> (store: Self)
        ensures
            store.wf(),
            store@ == KvState::empty(),
    {
        KvStore::new()
    }
}

impl StateMachine for KvStore {
    type Payload = KvSnapshot;

    type State = KvState;

    open spec fn valid(&self) -> bool {
        self.wf()
    }

    open spec fn state(&self) -> KvState {
        self@
    }

    open spec fn captured(payload: KvSnapshot) -> KvState {
        payload@
    }

    open spec fn transition(state: KvState, entry: LogEntry) -> KvState {
        state.after(entry.command)
    }

    // Must remain a pure fold of the log: no clocks, no randomness. That
    // purity is what makes the sessions table restart-safe (rebuilt by
    // replay) and snapshottable.
    fn apply(&mut self, entry: &LogEntry) {
        match &entry.command {
            Command::Put { key, value, session } => {
                if self.already_applied(*session) {
                    return;
                }
                self.put(key.clone(), copy_value(value));
                self.record_applied(*session);
            },
            Command::Delete { key, session } => {
                if self.already_applied(*session) {
                    return;
                }
                self.delete(key.as_str());
                self.record_applied(*session);
            },
            Command::Noop => {},
            Command::ConfigChange { .. } => {},
        }
    }

    // Coexists with the inherent map-only `KvStore::snapshot()`; concrete
    // calls resolve to the inherent one.
    fn snapshot(&self) -> (payload: KvSnapshot) {
        self.export()
    }

    fn restore(&mut self, payload: &KvSnapshot) {
        self.import(payload.clone());
    }
}

} // verus!
