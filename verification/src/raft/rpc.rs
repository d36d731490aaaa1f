//! The Raft RPCs (Figure 2 of the paper, plus PreVote from §9.6 / thesis
//! §4.2.3 and InstallSnapshot from §7), as plain data.
//!
//! PreVote reuses the RequestVote payloads under distinct variants, so a
//! pre-vote probe can never be conflated with a real, binding vote.

use vstd::prelude::*;

use super::types::{LogEntry, LogIndex, NodeId, Snapshot, SnapshotModel, Term};

verus! {

#[derive(Debug, Clone, Copy, PartialEq, Eq, Structural)]
pub struct RequestVoteArgs {
    pub term: Term,
    pub candidate_id: NodeId,
    pub last_log_index: LogIndex,
    pub last_log_term: Term,
}

#[derive(Debug, Clone, Copy, PartialEq, Eq, Structural)]
pub struct RequestVoteReply {
    pub term: Term,
    pub vote_granted: bool,
}

#[derive(Debug, PartialEq)]
pub struct AppendEntriesArgs {
    pub term: Term,
    pub leader_id: NodeId,
    pub prev_log_index: LogIndex,
    pub prev_log_term: Term,
    pub entries: Vec<LogEntry>,
    pub leader_commit: LogIndex,
}

/// What an AppendEntries message says, with its batch as a sequence.
#[verifier::ext_equal]
pub struct AppendModel {
    pub term: Term,
    pub leader_id: NodeId,
    pub prev_log_index: LogIndex,
    pub prev_log_term: Term,
    pub entries: Seq<LogEntry>,
    pub leader_commit: LogIndex,
}

impl View for AppendEntriesArgs {
    type V = AppendModel;

    open spec fn view(&self) -> AppendModel {
        AppendModel {
            term: self.term,
            leader_id: self.leader_id,
            prev_log_index: self.prev_log_index,
            prev_log_term: self.prev_log_term,
            entries: self.entries@,
            leader_commit: self.leader_commit,
        }
    }
}

impl AppendModel {
    /// The shape every AppendEntries has: its batch is numbered from right
    /// behind `prev_log_index`.
    pub open spec fn well_shaped(self) -> bool {
        &&& self.prev_log_index + self.entries.len() <= u64::MAX
        &&& forall|i: int|
            #![trigger self.entries[i]]
            0 <= i < self.entries.len() ==> self.entries[i].index == self.prev_log_index + 1 + i
    }
}

impl Clone for AppendEntriesArgs {
    fn clone(&self) -> (copy: Self)
        ensures
            copy@ == self@,
    {
        AppendEntriesArgs {
            term: self.term,
            leader_id: self.leader_id,
            prev_log_index: self.prev_log_index,
            prev_log_term: self.prev_log_term,
            entries: super::types::copy_entries(self.entries.as_slice()),
            leader_commit: self.leader_commit,
        }
    }
}

#[derive(Debug, Clone, Copy, PartialEq, Eq, Structural)]
pub struct AppendEntriesReply {
    pub term: Term,
    pub success: bool,
}

/// InstallSnapshot (§7): sent instead of AppendEntries when a follower's
/// next_index falls at or below the leader's snapshot boundary; the entries
/// it needs no longer exist as entries. Where a chunk size is set it travels as
/// [`SnapshotChunkArgs`], and is installed once it is whole.
#[derive(Debug, PartialEq)]
#[verifier::reject_recursive_types(P)]
pub struct InstallSnapshotArgs<P> {
    pub term: Term,
    pub leader_id: NodeId,
    pub snapshot: Snapshot<P>,
}

/// What an InstallSnapshot message says.
#[verifier::ext_equal]
#[verifier::reject_recursive_types(D)]
pub struct InstallModel<D> {
    pub term: Term,
    pub leader_id: NodeId,
    pub snapshot: SnapshotModel<D>,
}

impl<P> View for InstallSnapshotArgs<P> {
    type V = InstallModel<P>;

    open spec fn view(&self) -> InstallModel<P> {
        InstallModel { term: self.term, leader_id: self.leader_id, snapshot: self.snapshot@ }
    }
}

impl<P> Clone for InstallSnapshotArgs<P> {
    fn clone(&self) -> (copy: Self)
        ensures
            copy@ == self@,
    {
        InstallSnapshotArgs {
            term: self.term,
            leader_id: self.leader_id,
            snapshot: self.snapshot.clone(),
        }
    }
}

/// Per Figure 13 the reply carries only the follower's term: a higher term
/// deposes the leader as usual; otherwise the leader may assume the follower
/// now holds everything through the snapshot's boundary (a duplicate the
/// follower ignored included: the boundary was then already committed there).
#[derive(Debug, Clone, Copy, PartialEq, Eq, Structural)]
pub struct InstallSnapshotReply {
    pub term: Term,
}

/// Which snapshot a chunk is a piece of.
#[derive(Debug, Clone, Copy, PartialEq, Eq, Structural)]
pub struct TransferId {
    pub term: Term,
    pub leader_id: NodeId,
    pub last_included_index: LogIndex,
    pub last_included_term: Term,
}

/// One piece of a snapshot's encoded form.
#[derive(Debug, PartialEq)]
pub struct SnapshotChunkArgs {
    pub transfer: TransferId,
    /// Where the piece starts.
    pub offset: u64,
    pub data: Vec<u8>,
    /// Whether it is the last one.
    pub done: bool,
}

/// What a chunk says, with its bytes as a sequence.
#[verifier::ext_equal]
pub struct ChunkModel {
    pub transfer: TransferId,
    pub offset: u64,
    pub data: Seq<u8>,
    pub done: bool,
}

impl View for SnapshotChunkArgs {
    type V = ChunkModel;

    open spec fn view(&self) -> ChunkModel {
        ChunkModel {
            transfer: self.transfer,
            offset: self.offset,
            data: self.data@,
            done: self.done,
        }
    }
}

impl Clone for SnapshotChunkArgs {
    fn clone(&self) -> (copy: Self)
        ensures
            copy@ == self@,
    {
        let data = self.data.clone();
        assert(data@ =~= self.data@);
        SnapshotChunkArgs { transfer: self.transfer, offset: self.offset, data, done: self.done }
    }
}

/// How much of the snapshot the follower has, so that the leader goes on from
/// there; the last piece is answered as the InstallSnapshot that it completes.
#[derive(Debug, Clone, Copy, PartialEq, Eq, Structural)]
pub struct SnapshotChunkReply {
    pub term: Term,
    pub received: u64,
}

#[derive(Debug, PartialEq)]
#[verifier::reject_recursive_types(P)]
pub enum RpcRequest<P> {
    RequestVote(RequestVoteArgs),
    AppendEntries(AppendEntriesArgs),
    /// A pre-vote probe (§9.6): "would you vote for me for `term`?". Same
    /// payload as RequestVote, where `term` is the *prospective* term, one
    /// above the asker's current term; granting one records nothing and
    /// binds nobody.
    PreVote(RequestVoteArgs),
    InstallSnapshot(InstallSnapshotArgs<P>),
    SnapshotChunk(SnapshotChunkArgs),
}

/// What a request says.
#[verifier::ext_equal]
#[verifier::reject_recursive_types(D)]
pub enum RequestModel<D> {
    RequestVote(RequestVoteArgs),
    AppendEntries(AppendModel),
    PreVote(RequestVoteArgs),
    InstallSnapshot(InstallModel<D>),
    SnapshotChunk(ChunkModel),
}

impl<P> View for RpcRequest<P> {
    type V = RequestModel<P>;

    open spec fn view(&self) -> RequestModel<P> {
        match self {
            RpcRequest::RequestVote(args) => RequestModel::RequestVote(*args),
            RpcRequest::AppendEntries(args) => RequestModel::AppendEntries(args@),
            RpcRequest::PreVote(args) => RequestModel::PreVote(*args),
            RpcRequest::InstallSnapshot(args) => RequestModel::InstallSnapshot(args@),
            RpcRequest::SnapshotChunk(args) => RequestModel::SnapshotChunk(args@),
        }
    }
}

impl<P> Clone for RpcRequest<P> {
    fn clone(&self) -> (copy: Self)
        ensures
            copy@ == self@,
    {
        match self {
            RpcRequest::RequestVote(args) => RpcRequest::RequestVote(*args),
            RpcRequest::AppendEntries(args) => RpcRequest::AppendEntries(args.clone()),
            RpcRequest::PreVote(args) => RpcRequest::PreVote(*args),
            RpcRequest::InstallSnapshot(args) => RpcRequest::InstallSnapshot(args.clone()),
            RpcRequest::SnapshotChunk(args) => RpcRequest::SnapshotChunk(args.clone()),
        }
    }
}

#[derive(Debug, Clone, Copy, PartialEq, Eq, Structural)]
pub enum RpcResponse {
    RequestVote(RequestVoteReply),
    AppendEntries(AppendEntriesReply),
    PreVote(RequestVoteReply),
    InstallSnapshot(InstallSnapshotReply),
    SnapshotChunk(SnapshotChunkReply),
}

} // verus!
