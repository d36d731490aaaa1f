//! Core Raft data types, shared by the consensus core, persistence and the
//! transport.

use std::sync::Arc;

use serde_json::Value;
use vstd::prelude::*;

pub use super::membership::{MemberAddr, Membership};

verus! {

/// Identifies a cluster member.
pub type NodeId = u64;

/// Raft term. Starts at 0 on a fresh node; term 0 never has a leader.
pub type Term = u64;

/// 1-based position in the Raft log. 0 is the sentinel meaning "no entry"
/// (e.g. `prev_log_index` before the first entry).
pub type LogIndex = u64;

/// A JSON value, carried through the log and the store without being read.
#[verifier::external_type_specification]
#[verifier::external_body]
pub struct ExValue(Value);

/// `serde_json::Value::clone`: an equal value. Values are only ever carried,
/// so equality is all that is claimed.
#[verifier::external_body]
pub(crate) fn copy_value(value: &Value) -> (copy: Value)
    ensures
        copy == *value,
{
    value.clone()
}

/// `std::sync::Arc::clone`: another handle to the same shared value.
#[verifier::external_body]
pub(crate) fn share<T>(shared: &Arc<T>) -> (handle: Arc<T>)
    ensures
        handle == *shared,
{
    Arc::clone(shared)
}

/// A client dedup token: `seq` must be strictly increasing per `client`. The
/// state machine applies a tokened command only if that exact `seq` has not
/// applied before, so a retried ambiguous write commits again but mutates
/// nothing: exactly-once application on top of at-least-once delivery.
#[derive(Debug, Clone, Copy, PartialEq, Eq, Structural)]
pub struct Session {
    pub client: u64,
    pub seq: u64,
}

/// A state-machine command carried by a log entry. Put/Delete mirror the
/// client API's write operations; Noop is appended by a fresh leader (§8) to
/// commit prior-term entries promptly; ConfigChange carries a complete new
/// cluster configuration, in effect from the moment it is appended. The state
/// machine skips the latter two.
#[derive(Debug, PartialEq)]
pub enum Command {
    Put { key: String, value: Value, session: Option<Session> },
    Delete { key: String, session: Option<Session> },
    Noop,
    ConfigChange { members: Arc<Membership> },
}

impl Clone for Command {
    fn clone(&self) -> (copy: Self)
        ensures
            copy == *self,
    {
        match self {
            Command::Put { key, value, session } => Command::Put {
                key: key.clone(),
                value: copy_value(value),
                session: *session,
            },
            Command::Delete { key, session } => Command::Delete {
                key: key.clone(),
                session: *session,
            },
            Command::Noop => Command::Noop,
            Command::ConfigChange { members } => Command::ConfigChange { members: share(members) },
        }
    }
}

/// One entry in the replicated log.
///
/// `index` is stored redundantly (it is implied by the position in the log)
/// so that persisted lines and RPC payloads are self-describing and
/// contiguity can be validated on replay.
#[derive(Debug, PartialEq)]
pub struct LogEntry {
    pub term: Term,
    pub index: LogIndex,
    pub command: Command,
}

impl Clone for LogEntry {
    fn clone(&self) -> (copy: Self)
        ensures
            copy == *self,
    {
        LogEntry { term: self.term, index: self.index, command: self.command.clone() }
    }
}

/// An owned copy of a run of entries.
pub fn copy_entries(entries: &[LogEntry]) -> (copy: Vec<LogEntry>)
    ensures
        copy@ == entries@,
{
    let mut copy: Vec<LogEntry> = Vec::with_capacity(entries.len());
    let mut i: usize = 0;
    while i < entries.len()
        invariant
            i <= entries.len(),
            copy@ == entries@.take(i as int),
        decreases entries.len() - i,
    {
        copy.push(entries[i].clone());
        i += 1;
        assert(copy@ =~= entries@.take(i as int));
    }
    assert(entries@.take(entries.len() as int) =~= entries@);
    copy
}

/// A snapshot of the state machine at a log prefix: everything the entries
/// up to and including `last_included_index` produced. One shape serves both
/// the snapshot file and the InstallSnapshot payload: a follower persists
/// exactly what the leader sent.
///
/// `state` is opaque to Raft; the state machine's snapshot/restore pair owns
/// its meaning. It is shared, since the same payload sits in memory, in the
/// pending disk write and in outgoing messages. `membership` is the
/// configuration in effect at the boundary, where the log has set one.
#[derive(Debug, PartialEq)]
#[verifier::reject_recursive_types(P)]
pub struct Snapshot<P> {
    pub last_included_index: LogIndex,
    pub last_included_term: Term,
    pub membership: Option<Arc<Membership>>,
    pub state: Arc<P>,
}

/// What a snapshot says, with the state machine's state as its payload.
#[verifier::ext_equal]
#[verifier::reject_recursive_types(D)]
pub struct SnapshotModel<D> {
    pub last_included_index: LogIndex,
    pub last_included_term: Term,
    pub membership: Option<Arc<Membership>>,
    pub state: D,
}

impl<P> View for Snapshot<P> {
    type V = SnapshotModel<P>;

    open spec fn view(&self) -> SnapshotModel<P> {
        SnapshotModel {
            last_included_index: self.last_included_index,
            last_included_term: self.last_included_term,
            membership: self.membership,
            state: *self.state,
        }
    }
}

impl<P> Clone for Snapshot<P> {
    fn clone(&self) -> (copy: Self)
        ensures
            copy == *self,
            copy@ == self@,
    {
        Snapshot {
            last_included_index: self.last_included_index,
            last_included_term: self.last_included_term,
            membership: match &self.membership {
                Some(members) => Some(share(members)),
                None => None,
            },
            state: share(&self.state),
        }
    }
}

/// State that must survive crashes and be flushed to disk *before* answering
/// any RPC (Raft §5.1, Figure 2 "persistent state"). The log itself is
/// persisted separately (append-only).
#[derive(Debug, Clone, Copy, PartialEq, Eq, Structural)]
pub struct HardState {
    pub current_term: Term,
    pub voted_for: Option<NodeId>,
}

impl Default for HardState {
    fn default() -> (fresh: Self)
        ensures
            fresh.current_term == 0,
            fresh.voted_for is None,
    {
        HardState { current_term: 0, voted_for: None }
    }
}

} // verus!
