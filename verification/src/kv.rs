//! The KV service: client operations mapped onto the Raft core.
//!
//! Writes only succeed once the entry is committed by a majority and applied
//! locally: a node cut off from the majority times out instead of
//! acknowledging (the CP guarantee). Linearizable reads confirm leadership
//! before reading, so they are never stale and, like writes, time out rather
//! than answering from a minority.

use serde_json::Value;
use vstd::prelude::*;
use vstd::string::*;

use crate::raft::model::{ConfigFault, ProposeError};
use crate::raft::types::NodeId;
use crate::text::{decimal, push_decimal};

verus! {

#[derive(Debug, Clone, Copy, PartialEq, Eq)]
pub enum WriteError {
    /// This node is not the leader; retry against `leader_hint` if present.
    NotLeader { leader_hint: Option<NodeId> },
    /// Not confirmed within the timeout, or no longer to be told. The write
    /// MAY have committed, or commit later: the outcome is unknown (typical
    /// cause: this leader lost its majority).
    Timeout,
    /// Definitely not applied: a leadership change replaced the entry. Safe
    /// to retry.
    Superseded,
    /// A configuration change was rejected before being appended. Definitely
    /// did not happen.
    InvalidConfig { reason: &'static str },
    /// The node has shut down.
    Shutdown,
}

/// What is said of an operation that another node must serve.
pub open spec fn not_leader_text(leader_hint: Option<NodeId>) -> Seq<char> {
    match leader_hint {
        Some(id) => "not the leader; try node "@ + decimal(id as nat),
        None => "not the leader, and no leader is known"@,
    }
}

fn not_leader_message(leader_hint: Option<NodeId>) -> (text: String)
    ensures
        text@ == not_leader_text(leader_hint),
{
    match leader_hint {
        Some(id) => {
            let mut text = String::from_str("not the leader; try node ");
            push_decimal(&mut text, id as u128);
            text
        },
        None => String::from_str("not the leader, and no leader is known"),
    }
}

impl WriteError {
    /// What the error says to a reader.
    pub open spec fn text(self) -> Seq<char> {
        match self {
            WriteError::NotLeader { leader_hint } => not_leader_text(leader_hint),
            WriteError::Timeout => "write not confirmed in time; outcome unknown"@,
            WriteError::Superseded => "write superseded by a leadership change"@,
            WriteError::InvalidConfig { reason } => "invalid configuration change: "@ + reason@,
            WriteError::Shutdown => "node has shut down"@,
        }
    }

    /// The error as one line of text.
    pub fn message(&self) -> (text: String)
        ensures
            text@ == self.text(),
    {
        match self {
            WriteError::NotLeader { leader_hint } => not_leader_message(*leader_hint),
            WriteError::Timeout => String::from_str("write not confirmed in time; outcome unknown"),
            WriteError::Superseded => String::from_str("write superseded by a leadership change"),
            WriteError::InvalidConfig { reason } => String::from_str(
                "invalid configuration change: ",
            ).concat(reason),
            WriteError::Shutdown => String::from_str("node has shut down"),
        }
    }
}

#[derive(Debug, Clone, Copy, PartialEq, Eq, Structural)]
pub enum ReadError {
    /// This node is not the leader; retry against `leader_hint` if present.
    NotLeader { leader_hint: Option<NodeId> },
    /// Leadership not confirmed within the timeout (typical cause: this
    /// leader lost its majority). Unlike a write timeout there is nothing
    /// ambiguous in flight: safe to retry elsewhere.
    Timeout,
    /// Leadership was lost while the read was pending. Safe to retry.
    Retry,
    /// The node has shut down.
    Shutdown,
}

impl ReadError {
    /// What the error says to a reader.
    pub open spec fn text(self) -> Seq<char> {
        match self {
            ReadError::NotLeader { leader_hint } => not_leader_text(leader_hint),
            ReadError::Timeout => "read not confirmed in time; retry"@,
            ReadError::Retry => "leadership changed during the read; retry"@,
            ReadError::Shutdown => "node has shut down"@,
        }
    }

    /// The error as one line of text.
    pub fn message(&self) -> (text: String)
        ensures
            text@ == self.text(),
    {
        match self {
            ReadError::NotLeader { leader_hint } => not_leader_message(*leader_hint),
            ReadError::Timeout => String::from_str("read not confirmed in time; retry"),
            ReadError::Retry => String::from_str("leadership changed during the read; retry"),
            ReadError::Shutdown => String::from_str("node has shut down"),
        }
    }
}

impl ConfigFault {
    /// Why the change is refused, in words.
    pub open spec fn text(self) -> Seq<char> {
        match self {
            ConfigFault::NoopUncommitted => "the leader's no-op has not committed yet"@,
            ConfigFault::ChangeInFlight => "another configuration change is in flight"@,
            ConfigFault::Empty => "a configuration needs at least one member"@,
            ConfigFault::NotSingleServer => "not a single-server change"@,
            ConfigFault::MajorityUnreachable => {
                "a majority of the new configuration is not reachable"@
            },
        }
    }

    /// Why the change is refused, in words.
    pub fn reason(&self) -> (text: &'static str)
        ensures
            text@ == self.text(),
    {
        match self {
            ConfigFault::NoopUncommitted => "the leader's no-op has not committed yet",
            ConfigFault::ChangeInFlight => "another configuration change is in flight",
            ConfigFault::Empty => "a configuration needs at least one member",
            ConfigFault::NotSingleServer => "not a single-server change",
            ConfigFault::MajorityUnreachable => {
                "a majority of the new configuration is not reachable"
            },
        }
    }
}

impl ProposeError {
    /// What the error says to a reader.
    pub open spec fn text(self) -> Seq<char> {
        match self {
            ProposeError::NotLeader { leader_hint } => not_leader_text(leader_hint),
            ProposeError::InvalidConfigChange { reason } => "invalid configuration change: "@
                + reason.text(),
            ProposeError::Shutdown => "raft node has shut down"@,
        }
    }

    /// The error as one line of text.
    pub fn message(&self) -> (text: String)
        ensures
            text@ == self.text(),
    {
        match self {
            ProposeError::NotLeader { leader_hint } => not_leader_message(*leader_hint),
            ProposeError::InvalidConfigChange { reason } => String::from_str(
                "invalid configuration change: ",
            ).concat(reason.reason()),
            ProposeError::Shutdown => String::from_str("raft node has shut down"),
        }
    }
}

/// How the wait for an accepted write ended.
#[derive(Debug, Clone, Copy, PartialEq, Eq, Structural)]
pub enum WriteWait {
    /// Nothing came within the timeout.
    Elapsed,
    /// The node runs on, but can no longer tell: the write may or may not be
    /// part of a snapshot that it has installed.
    Untold,
    /// The node went away.
    Gone,
    /// The outcome.
    Resolved { committed: bool },
}

/// How the wait for a registered read ended.
#[derive(Debug, Clone, Copy, PartialEq, Eq, Structural)]
pub enum ReadWait {
    /// Nothing came within the timeout.
    Elapsed,
    /// Leadership was lost first.
    Dropped,
    /// The local state machine may be read.
    Granted,
}

/// What a refused write is answered.
pub fn write_refused(e: ProposeError) -> (error: WriteError)
    ensures
        match e {
            ProposeError::NotLeader { leader_hint } => error == (WriteError::NotLeader {
                leader_hint,
            }),
            ProposeError::InvalidConfigChange { reason } => {
                error is InvalidConfig && error->reason@ == reason.text()
            },
            ProposeError::Shutdown => error == WriteError::Shutdown,
        },
{
    match e {
        ProposeError::NotLeader { leader_hint } => WriteError::NotLeader { leader_hint },
        ProposeError::InvalidConfigChange { reason } => WriteError::InvalidConfig {
            reason: reason.reason(),
        },
        ProposeError::Shutdown => WriteError::Shutdown,
    }
}

/// What an accepted write comes to: success only once it is known committed
/// (and, the outcome being told after the apply, applied here). Where the
/// outcome is unknown the answer says so, whether the time ran out or the node
/// cannot tell any more.
pub fn write_outcome(wait: WriteWait) -> (outcome: Result<(), WriteError>)
    ensures
        outcome == match wait {
            WriteWait::Elapsed => Err::<(), WriteError>(WriteError::Timeout),
            WriteWait::Untold => Err(WriteError::Timeout),
            WriteWait::Gone => Err(WriteError::Shutdown),
            WriteWait::Resolved { committed: true } => Ok(()),
            WriteWait::Resolved { committed: false } => Err(WriteError::Superseded),
        },
{
    match wait {
        WriteWait::Elapsed => Err(WriteError::Timeout),
        WriteWait::Untold => Err(WriteError::Timeout),
        WriteWait::Gone => Err(WriteError::Shutdown),
        WriteWait::Resolved { committed } => if committed {
            Ok(())
        } else {
            Err(WriteError::Superseded)
        },
    }
}

/// What a refused read is answered. Reads carry no configuration.
pub fn read_refused(e: ProposeError) -> (error: ReadError)
    ensures
        error == match e {
            ProposeError::NotLeader { leader_hint } => ReadError::NotLeader { leader_hint },
            ProposeError::InvalidConfigChange { .. } => ReadError::Retry,
            ProposeError::Shutdown => ReadError::Shutdown,
        },
{
    match e {
        ProposeError::NotLeader { leader_hint } => ReadError::NotLeader { leader_hint },
        ProposeError::InvalidConfigChange { .. } => ReadError::Retry,
        ProposeError::Shutdown => ReadError::Shutdown,
    }
}

/// What a registered read comes to: the value read, only once it is granted.
pub fn read_outcome(wait: ReadWait, value: Option<Value>) -> (outcome: Result<
    Option<Value>,
    ReadError,
>)
    ensures
        outcome == match wait {
            ReadWait::Elapsed => Err::<Option<Value>, ReadError>(ReadError::Timeout),
            ReadWait::Dropped => Err(ReadError::Retry),
            ReadWait::Granted => Ok(value),
        },
{
    match wait {
        ReadWait::Elapsed => Err(ReadError::Timeout),
        ReadWait::Dropped => Err(ReadError::Retry),
        ReadWait::Granted => Ok(value),
    }
}

/// An error that names the leader names it by its id: errors that say the same
/// mean the same node, and one that knows a leader never reads like one that
/// does not.
pub proof fn errors_name_the_leader(a: NodeId, b: NodeId)
    ensures
        not_leader_text(Some(a)).len() > decimal(a as nat).len(),
        not_leader_text(Some(a)).skip(
            not_leader_text(Some(a)).len() - decimal(a as nat).len() as int,
        ) == decimal(a as nat),
        a != b ==> not_leader_text(Some(a)) != not_leader_text(Some(b)),
        not_leader_text(Some(a)) != not_leader_text(None),
        (WriteError::NotLeader { leader_hint: Some(a) }).text() == (ReadError::NotLeader {
            leader_hint: Some(a),
        }).text(),
{
    reveal_strlit("not the leader; try node ");
    reveal_strlit("not the leader, and no leader is known");
    let said = "not the leader; try node "@;
    assert(said.len() == 25);
    let ta = not_leader_text(Some(a));
    let tb = not_leader_text(Some(b));
    assert(ta.skip(25) =~= decimal(a as nat));
    assert(tb.skip(25) =~= decimal(b as nat));
    crate::text::decimals_are_read_back(a as nat);
    if ta == tb {
        crate::text::decimals_differ(a as nat, b as nat);
    }
    assert(ta[14] == ';');
    assert(not_leader_text(None)[14] == ',');
}

} // verus!
