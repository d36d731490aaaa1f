//! The node as mathematics: what each message, timer and request does to the
//! node's state, and which effects it lets out.
//!
//! Every transition is a function of the state; a node's behaviour is the
//! composition of the transitions its events select. Effects and disk writes
//! accumulate in the state, in the order in which they were decided.

use std::sync::Arc;

use vstd::prelude::*;

use super::batch::batch;
use super::chunks::{assembly_after, completes, reached, AssemblyModel};
use super::machine::{run, StateMachine};
use super::membership::{config_of, single_change, Membership};
use super::peers::elapsed;
use super::quorum::quorum_value;
use super::rpc::{
    AppendEntriesReply, AppendModel, ChunkModel, InstallModel, InstallSnapshotReply, RequestModel,
    RequestVoteArgs, RequestVoteReply, RpcResponse, SnapshotChunkReply, TransferId,
};
use super::storage::{numbered_from, Durable, WriteModel};
use super::transport::TransportError;
use super::types::{Command, HardState, LogEntry, LogIndex, NodeId, Term};
use crate::rng::{advance, mix, reduce};

verus! {

/// What an outbound RPC was sent with; handed back with its reply, so that a
/// stale or reordered reply can be interpreted safely.
#[derive(Debug, Clone, Copy, PartialEq, Eq, Structural)]
pub enum ReplyTag {
    /// `sent_term` is the *prospective* term the probe asked for, a term the
    /// node has not adopted.
    PreVote { sent_term: Term },
    Vote { sent_term: Term },
    Append {
        sent_term: Term,
        /// prev_log_index of the AppendEntries.
        sent_prev_index: LogIndex,
        /// How many entries it carried.
        sent_entries: u64,
        /// The leader's heartbeat_seq when it was sent.
        sent_seq: u64,
    },
    InstallSnapshot {
        sent_term: Term,
        /// The boundary of the snapshot: on success the follower holds
        /// everything through it.
        last_included_index: LogIndex,
    },
    /// A piece of a snapshot that is not the last one.
    SnapshotChunk { sent_term: Term },
}

/// A proposal whose commit outcome is still unknown.
#[derive(Debug, Clone, Copy, PartialEq, Eq, Structural)]
pub struct PendingProposal {
    pub term: Term,
    pub index: LogIndex,
    pub ticket: u64,
}

/// A registered read awaiting leadership confirmation + apply (§6.4).
#[derive(Debug, Clone, Copy, PartialEq, Eq, Structural)]
pub struct PendingRead {
    /// Confirmed once a majority has answered an AppendEntries sent at
    /// seq >= this.
    pub needed_seq: u64,
    /// The state the read must reflect; granted only once last_applied
    /// reaches it. Captured once at registration.
    pub read_index: LogIndex,
    pub ticket: u64,
}

/// Why a proposal was not accepted.
#[derive(Debug, Clone, Copy, PartialEq, Eq, Structural)]
pub enum ProposeError {
    /// This node is not the leader; retry against `leader_hint` if present.
    NotLeader { leader_hint: Option<NodeId> },
    /// The configuration change was refused; it was not appended.
    InvalidConfigChange { reason: ConfigFault },
    /// The node has shut down.
    Shutdown,
}

/// Why a configuration change is refused.
#[derive(Debug, Clone, Copy, PartialEq, Eq, Structural)]
pub enum ConfigFault {
    /// The no-op of the leader's term has not committed.
    NoopUncommitted,
    /// Another change has not committed.
    ChangeInFlight,
    /// Nobody would be left.
    Empty,
    /// Not exactly one member more or one member fewer.
    NotSingleServer,
    /// Fewer members than a majority of the new configuration were heard from
    /// lately.
    MajorityUnreachable,
}

/// A write accepted into the leader's log (durably appended, NOT committed).
#[derive(Debug, Clone, Copy, PartialEq, Eq, Structural)]
pub struct Proposal {
    pub term: Term,
    pub index: LogIndex,
}

/// Something the node wants done, by what it means.
#[verifier::ext_equal]
#[verifier::reject_recursive_types(D)]
pub enum EffectModel<D> {
    /// Send `request` to `to` and report the reply under `tag`.
    Send { to: NodeId, request: RequestModel<D>, tag: ReplyTag },
    /// The proposal's outcome is known.
    Resolve { ticket: u64, committed: bool },
    /// The proposal's outcome can no longer be told.
    DropProposal { ticket: u64 },
    /// The read may be served from the local state machine.
    GrantRead { ticket: u64 },
    /// The read must be retried against the new leader.
    DropRead { ticket: u64 },
    /// A snapshot has come in whole: decode it, and hand it in as the
    /// InstallSnapshot that it is.
    Assembled { transfer: TransferId, bytes: Seq<u8> },
}

/// The fixed parameters of a node.
#[verifier::ext_equal]
pub struct Settings {
    pub id: NodeId,
    /// The configuration that holds until the log sets one.
    pub bootstrap: Arc<Membership>,
    pub election_timeout_min: u64,
    pub election_timeout_max: u64,
    pub heartbeat_interval: u64,
    pub snapshot_threshold: Option<u64>,
    pub snapshot_trailing: u64,
    /// The most bytes of entries in one AppendEntries, where there is a limit.
    pub max_append_bytes: Option<usize>,
}

/// A state captured for compaction, waiting for the trailing window to pass.
#[verifier::ext_equal]
#[verifier::reject_recursive_types(D)]
pub struct CaptureModel<D> {
    pub index: LogIndex,
    pub state: D,
}

/// A leader's bookkeeping.
#[verifier::ext_equal]
pub struct LeaderModel {
    /// Next log index to send to each peer (§5.3).
    pub next_index: Map<NodeId, LogIndex>,
    /// Highest log index known replicated on each peer.
    pub match_index: Map<NodeId, LogIndex>,
    /// Index of this term's leadership no-op (§8).
    pub term_start_index: LogIndex,
    /// Monotonic tag on outbound AppendEntries within this leadership.
    pub heartbeat_seq: u64,
    /// Highest sent_seq each peer has answered (at our term).
    pub acked_seq: Map<NodeId, u64>,
    /// When each peer last answered an RPC at our term.
    pub last_contact: Map<NodeId, u64>,
    /// Reads awaiting confirmation.
    pub pending_reads: Seq<PendingRead>,
}

#[verifier::ext_equal]
pub enum RoleModel {
    Follower,
    PreCandidate { votes: Set<NodeId> },
    Candidate { votes: Set<NodeId> },
    Leader(LeaderModel),
}

/// The whole state of a node.
#[verifier::ext_equal]
#[verifier::reject_recursive_types(S)]
pub struct NodeModel<S: StateMachine> {
    pub settings: Settings,
    pub files: Durable<S::State>,
    /// Disk writes not yet handed over.
    pub writes: Seq<WriteModel<S::State>>,
    /// The state machine's state.
    pub state: S::State,
    /// The state that index 0 stands for.
    pub origin: S::State,
    pub role: RoleModel,
    pub leader_id: Option<NodeId>,
    pub commit_index: LogIndex,
    pub last_applied: LogIndex,
    /// The state captured for the next compaction.
    pub captured: Option<CaptureModel<S::State>>,
    /// The snapshot that is coming in, in chunks.
    pub incoming: Option<AssemblyModel>,
    pub pending: Seq<PendingProposal>,
    pub last_leader_contact: Option<u64>,
    pub election_deadline: u64,
    pub next_heartbeat: u64,
    /// The election jitter generator's state.
    pub rng: u64,
    /// Effects not yet handed over.
    pub effects: Seq<EffectModel<S::State>>,
}

/// The value that `table` holds for `id`, or `default`.
pub open spec fn lookup(table: Map<NodeId, u64>, id: NodeId, default: u64) -> u64 {
    if table.contains_key(id) {
        table[id]
    } else {
        default
    }
}

/// The same value for each of `peers`.
pub open spec fn all_at(peers: Seq<NodeId>, value: u64) -> Map<NodeId, u64> {
    Map::new(|id: NodeId| peers.contains(id), |id: NodeId| value)
}

pub open spec fn larger(a: u64, b: u64) -> u64 {
    if a >= b {
        a
    } else {
        b
    }
}

pub open spec fn smaller(a: u64, b: u64) -> u64 {
    if a <= b {
        a
    } else {
        b
    }
}

impl<S: StateMachine> NodeModel<S> {
    pub open spec fn term(self) -> Term {
        self.files.hard_state.current_term
    }

    pub open spec fn is_leader(self) -> bool {
        self.role is Leader
    }

    /// The configuration in effect: the last one appended to the log, else
    /// the snapshot's, else the one the node was started with.
    pub open spec fn membership(self) -> Arc<Membership> {
        match self.files.membership() {
            Some(members) => members,
            None => self.settings.bootstrap,
        }
    }

    /// The members' ids, in order.
    pub open spec fn members(self) -> Seq<NodeId> {
        self.membership().ids()
    }

    /// Whether this node is a member.
    pub open spec fn is_member(self) -> bool {
        self.members().contains(self.settings.id)
    }

    /// The other members, in order.
    pub open spec fn peers(self) -> Seq<NodeId> {
        self.members().filter(|id: NodeId| id != self.settings.id)
    }

    /// Whether `id` is another member.
    pub open spec fn is_peer(self, id: NodeId) -> bool {
        id != self.settings.id && self.members().contains(id)
    }

    /// Votes needed to win: strict majority of the full cluster.
    pub open spec fn majority(self) -> nat {
        self.members().len() / 2 + 1
    }

    /// Whether a majority of the members satisfies a test.
    pub open spec fn majority_of(self, test: spec_fn(NodeId) -> bool) -> bool {
        self.members().filter(test).len() >= self.majority()
    }

    /// Whether some configuration in the log has not committed.
    pub open spec fn change_in_flight(self) -> bool {
        exists|i: int|
            #![trigger self.files.log[i]]
            self.commit_index - self.files.snapshot_index() <= i < self.files.log.len()
                && config_of(self.files.log[i]) is Some
    }

    /// The state that the retained log starts from.
    pub open spec fn base(self) -> S::State {
        match self.files.snapshot {
            Some(snapshot) => snapshot.state,
            None => self.origin,
        }
    }

    /// The invariant that every transition keeps: the log is whole; applied
    /// runs up to committed, committed up to the end of the log; the state is
    /// exactly what applying the log up to `last_applied` gives; no proposal
    /// at or below the commit point is still waiting; a captured state is what
    /// the log up to its index gives; a leader's next indexes stay within its
    /// log.
    pub open spec fn inv(self) -> bool {
        &&& self.files.wf()
        &&& self.settings.election_timeout_min <= self.settings.election_timeout_max
        &&& self.files.snapshot_index() <= self.last_applied <= self.commit_index
            <= self.files.last_index()
        &&& self.state == run::<S>(
            self.base(),
            self.files.log.take(self.last_applied - self.files.snapshot_index()),
        )
        &&& forall|i: int|
            #![trigger self.pending[i]]
            0 <= i < self.pending.len() ==> self.pending[i].index > self.last_applied
        &&& match self.captured {
            Some(capture) => {
                &&& self.files.snapshot_index() < capture.index <= self.last_applied
                &&& capture.state == run::<S>(
                    self.base(),
                    self.files.log.take(capture.index - self.files.snapshot_index()),
                )
            },
            None => true,
        }
        &&& match self.role {
            RoleModel::Follower => true,
            RoleModel::PreCandidate { votes } => votes.finite(),
            RoleModel::Candidate { votes } => votes.finite(),
            RoleModel::Leader(leader) => leader.within_log(self.files.last_index()),
        }
    }

    /// Between events everything committed is applied.
    pub open spec fn settled(self) -> bool {
        self.inv() && self.last_applied == self.commit_index
    }

    /// Room for one more event: terms, indexes, sequence numbers and times
    /// have not run out of 64 bits.
    pub open spec fn room(self, now: u64) -> bool {
        &&& self.term() < u64::MAX
        &&& self.files.last_index() + 2 < u64::MAX
        &&& now + self.settings.election_timeout_max <= u64::MAX
        &&& now + self.settings.heartbeat_interval <= u64::MAX
        &&& match self.role {
            RoleModel::Leader(leader) => leader.heartbeat_seq < u64::MAX,
            _ => true,
        }
    }

    /// A node that has just booted: a follower that knows of no leader, with
    /// everything through the snapshot boundary committed and applied.
    pub open spec fn booted(
        settings: Settings,
        seed: u64,
        files: Durable<S::State>,
        writes: Seq<WriteModel<S::State>>,
        origin: S::State,
        now: u64,
    ) -> Self {
        NodeModel {
            settings,
            files,
            writes,
            state: match files.snapshot {
                Some(snapshot) => snapshot.state,
                None => origin,
            },
            origin,
            role: RoleModel::Follower,
            leader_id: None,
            commit_index: files.snapshot_index() as u64,
            last_applied: files.snapshot_index() as u64,
            captured: None,
            incoming: None,
            pending: Seq::empty(),
            last_leader_contact: None,
            election_deadline: now,
            next_heartbeat: now,
            rng: seed,
            effects: Seq::empty(),
        }.reset_timer(now)
    }

    // ---- building blocks ----

    pub open spec fn emit(self, effects: Seq<EffectModel<S::State>>) -> Self {
        NodeModel { effects: self.effects + effects, ..self }
    }

    pub open spec fn save(self, hs: HardState) -> Self {
        NodeModel {
            files: self.files.with_hard_state(hs),
            writes: self.writes.push(WriteModel::HardState(hs)),
            ..self
        }
    }

    /// Appends entries that continue the log.
    pub open spec fn append(self, entries: Seq<LogEntry>) -> Self {
        if entries.len() == 0 {
            self
        } else {
            NodeModel {
                files: self.files.appended(entries),
                writes: self.writes.push(WriteModel::AppendLog(entries)),
                ..self
            }
        }
    }

    /// Drops the log from `index` (which is retained) on.
    pub open spec fn truncate(self, index: int) -> Self {
        NodeModel {
            files: self.files.truncated(index),
            writes: self.writes.push(WriteModel::RewriteLog(self.files.truncated(index).log)),
            ..self
        }
    }

    /// A fresh randomized election deadline; one draw.
    pub open spec fn reset_timer(self, now: u64) -> Self {
        let rng = advance(self.rng);
        NodeModel {
            rng,
            election_deadline: (now + reduce(
                self.settings.election_timeout_min,
                self.settings.election_timeout_max,
                mix(rng),
            )) as u64,
            ..self
        }
    }

    /// The reads that a leader gives up when it stops leading.
    pub open spec fn dropped_reads(self) -> Seq<EffectModel<S::State>> {
        match self.role {
            RoleModel::Leader(leader) => leader.pending_reads.map_values(
                |read: PendingRead| EffectModel::DropRead { ticket: read.ticket },
            ),
            _ => Seq::empty(),
        }
    }

    /// Follower at `term` (at least the current one): a higher term is
    /// adopted with no vote cast in it, pending reads are given up, and a
    /// full randomized timeout starts.
    pub open spec fn become_follower(self, term: Term, leader_id: Option<NodeId>, now: u64) -> Self {
        let adopted = if term > self.term() {
            self.save(HardState { current_term: term, voted_for: None })
        } else {
            self
        };
        NodeModel {
            role: RoleModel::Follower,
            leader_id,
            ..adopted.emit(self.dropped_reads())
        }.reset_timer(now)
    }

    // ---- voting ----

    /// §5.4.1: a log ending in (`last_term`, `last_index`) is at least as
    /// up-to-date as ours.
    pub open spec fn up_to_date(self, args: RequestVoteArgs) -> bool {
        args.last_log_term > self.files.last_term() || (args.last_log_term
            == self.files.last_term() && args.last_log_index >= self.files.last_index())
    }

    pub open spec fn can_vote_for(self, candidate: NodeId) -> bool {
        match self.files.hard_state.voted_for {
            None => true,
            Some(id) => id == candidate,
        }
    }

    /// §5.2 + the §5.4.1 election restriction.
    pub open spec fn on_request_vote(self, args: RequestVoteArgs, now: u64) -> (
        Self,
        RequestVoteReply,
    ) {
        let heard = if args.term > self.term() {
            self.become_follower(args.term, None, now)
        } else {
            self
        };
        if args.term >= heard.term() && heard.can_vote_for(args.candidate_id) && heard.up_to_date(
            args,
        ) {
            (
                heard.save(
                    HardState { current_term: heard.term(), voted_for: Some(args.candidate_id) },
                ).reset_timer(now),
                RequestVoteReply { term: heard.term(), vote_granted: true },
            )
        } else {
            (heard, RequestVoteReply { term: heard.term(), vote_granted: false })
        }
    }

    /// Whether this node has reason to believe a valid leader exists.
    pub open spec fn leader_is_live(self, now: u64) -> bool {
        self.is_leader() || match self.last_leader_contact {
            Some(at) => elapsed(now, at) < self.settings.election_timeout_min,
            None => false,
        }
    }

    /// PreVote (§9.6): "would you vote for me for `args.term`?".
    pub open spec fn pre_vote_reply(self, args: RequestVoteArgs, now: u64) -> RequestVoteReply {
        RequestVoteReply {
            term: self.term(),
            vote_granted: args.term > self.term() && self.up_to_date(args)
                && !self.leader_is_live(now),
        }
    }

    // ---- applying committed entries ----

    /// Whether the outcome of a proposal is known.
    pub open spec fn decided(self, p: PendingProposal) -> bool {
        self.files.term_at(p.index as int) != Some(p.term) || self.commit_index >= p.index
    }

    /// What is told of a decided proposal: committed exactly if the log still
    /// holds it.
    pub open spec fn verdict(self, p: PendingProposal) -> EffectModel<S::State> {
        EffectModel::Resolve {
            ticket: p.ticket,
            committed: self.files.term_at(p.index as int) == Some(p.term),
        }
    }

    /// Settles proposal waiters whose outcome is known; the others wait on.
    pub open spec fn resolve_pending(self) -> Self {
        NodeModel {
            pending: self.pending.filter(|p: PendingProposal| !self.decided(p)),
            ..self
        }.emit(
            self.pending.filter(|p: PendingProposal| self.decided(p)).map_values(
                |p: PendingProposal| self.verdict(p),
            ),
        )
    }

    /// Whether `id` has acknowledged this leadership at `seq` or later; this
    /// node always has.
    pub open spec fn acked(self, acked_seq: Map<NodeId, u64>, seq: u64, id: NodeId) -> bool {
        id == self.settings.id || (acked_seq.contains_key(id) && acked_seq[id] >= seq)
    }

    /// Whether a read is leadership-confirmed (a majority answered an
    /// AppendEntries sent at or after its registration) and reflected in the
    /// applied state.
    pub open spec fn servable(self, acked_seq: Map<NodeId, u64>, read: PendingRead) -> bool {
        &&& self.majority_of(|id: NodeId| self.acked(acked_seq, read.needed_seq, id))
        &&& self.last_applied >= read.read_index
    }

    /// Grants every servable read. No-op on non-leaders.
    pub open spec fn resolve_reads(self) -> Self {
        match self.role {
            RoleModel::Leader(leader) => {
                NodeModel {
                    role: RoleModel::Leader(
                        LeaderModel {
                            pending_reads: leader.pending_reads.filter(
                                |read: PendingRead| !self.servable(leader.acked_seq, read),
                            ),
                            ..leader
                        },
                    ),
                    ..self
                }.emit(
                    leader.pending_reads.filter(
                        |read: PendingRead| self.servable(leader.acked_seq, read),
                    ).map_values(|read: PendingRead| EffectModel::GrantRead { ticket: read.ticket }),
                )
            },
            _ => self,
        }
    }

    /// Captures the state once the applied prefix outgrows the threshold,
    /// always at `last_applied`.
    pub open spec fn maybe_capture(self) -> Self {
        match (self.settings.snapshot_threshold, self.captured) {
            (Some(threshold), None) => {
                if self.last_applied - self.files.snapshot_index() < larger(threshold, 1) {
                    self
                } else {
                    NodeModel {
                        captured: Some(
                            CaptureModel { index: self.last_applied, state: self.state },
                        ),
                        ..self
                    }
                }
            },
            _ => self,
        }
    }

    /// Compacts to a captured state once it lies the trailing window behind.
    pub open spec fn compact_captured(self) -> Self {
        match self.captured {
            Some(capture) => {
                if self.last_applied - capture.index < self.settings.snapshot_trailing {
                    self
                } else {
                    let files = self.files.compacted(capture.index, capture.state);
                    NodeModel {
                        files,
                        writes: self.writes.push(
                            WriteModel::Snapshot(
                                self.files.compaction(capture.index, capture.state),
                            ),
                        ).push(WriteModel::RewriteLog(files.log)),
                        captured: None,
                        ..self
                    }
                }
            },
            None => self,
        }
    }

    /// Captures, then compacts. Without a trailing window this compacts at
    /// `last_applied` as soon as the applied prefix outgrows the threshold.
    pub open spec fn maybe_compact(self) -> Self {
        self.maybe_capture().compact_captured()
    }

    /// The entries committed but not applied.
    pub open spec fn backlog(self) -> Seq<LogEntry> {
        self.files.log.subrange(
            self.last_applied - self.files.snapshot_index(),
            self.commit_index - self.files.snapshot_index(),
        )
    }

    pub open spec fn apply_backlog(self) -> Self {
        NodeModel {
            state: run::<S>(self.state, self.backlog()),
            last_applied: self.commit_index,
            ..self
        }
    }

    /// Applies everything committed, in log order, then settles proposal and
    /// read waiters, then compacts.
    pub open spec fn apply_committed(self) -> Self {
        self.apply_backlog().resolve_pending().resolve_reads().maybe_compact()
    }

    pub open spec fn commit_to(self, index: LogIndex) -> Self {
        NodeModel { commit_index: index, ..self }.apply_committed()
    }

    // ---- inbound replication ----

    /// The log-matching consistency check. An index below the snapshot
    /// boundary vacuously matches: compacted means committed.
    pub open spec fn prev_matches(self, args: AppendModel) -> bool {
        match self.files.term_at(args.prev_log_index as int) {
            Some(term) => term == args.prev_log_term,
            None => args.prev_log_index < self.files.snapshot_index(),
        }
    }

    /// Whether an entry is already here: compacted, or held with its term.
    pub open spec fn has_entry(self, entry: LogEntry) -> bool {
        entry.index <= self.files.snapshot_index() || self.files.term_at(entry.index as int)
            == Some(entry.term)
    }

    /// Whether `entries[i]` is the first one that is not here.
    pub open spec fn is_first_new(self, entries: Seq<LogEntry>, i: int) -> bool {
        &&& 0 <= i < entries.len()
        &&& !self.has_entry(entries[i])
        &&& forall|j: int| #![trigger entries[j]] 0 <= j < i ==> self.has_entry(entries[j])
    }

    pub open spec fn has_all(self, entries: Seq<LogEntry>) -> bool {
        forall|i: int| #![trigger entries[i]] 0 <= i < entries.len() ==> self.has_entry(entries[i])
    }

    /// The position of the first entry that is not here.
    pub open spec fn first_new(self, entries: Seq<LogEntry>) -> int {
        choose|i: int| self.is_first_new(entries, i)
    }

    /// Makes room for `entry`: a conflicting suffix is dropped, and the
    /// proposals in it are told.
    pub open spec fn make_room(self, entry: LogEntry) -> Self {
        if self.files.holds(entry.index as int) {
            self.truncate(entry.index as int).resolve_pending()
        } else {
            self
        }
    }

    /// How far into the batch its first new entry says it stands.
    pub open spec fn offset(self, args: AppendModel) -> int {
        args.entries[self.first_new(args.entries)].index - args.prev_log_index - 1
    }

    /// Takes over a batch: what is here stays, the log is cut at the first
    /// conflict, the rest is appended.
    pub open spec fn merge(self, args: AppendModel) -> Self {
        if self.has_all(args.entries) {
            self
        } else {
            let entry = args.entries[self.first_new(args.entries)];
            self.make_room(entry).append(args.entries.skip(self.offset(args)))
        }
    }

    /// Whether a batch can be taken over: no committed entry is cut, and what
    /// is appended continues the log within 64-bit indexes.
    pub open spec fn takes(self, args: AppendModel) -> bool {
        self.has_all(args.entries) || {
            let entry = args.entries[self.first_new(args.entries)];
            let offset = self.offset(args);
            let last = self.make_room(entry).files.last_index();
            &&& self.files.holds(entry.index as int) ==> entry.index > self.commit_index
            &&& 0 <= offset <= args.entries.len()
            &&& numbered_from(args.entries.skip(offset), last + 1)
            &&& offset < args.entries.len() ==> last + args.entries.len() - offset < u64::MAX
        }
    }

    /// Whether taking over the batch leaves the committed prefix alone.
    pub open spec fn spares_committed(self, entries: Seq<LogEntry>) -> bool {
        self.has_all(entries) || entries[self.first_new(entries)].index > self.commit_index
    }

    /// The commit point that a successful AppendEntries gives: only what the
    /// RPC verified to match the leader.
    pub open spec fn verified_commit(args: AppendModel) -> LogIndex {
        smaller(args.leader_commit, (args.prev_log_index + args.entries.len()) as u64)
    }

    /// The follower that hears a leader of its term or a later one.
    pub open spec fn hear_leader(self, term: Term, leader: NodeId, now: u64) -> Self {
        NodeModel {
            last_leader_contact: Some(now),
            ..self.become_follower(term, Some(leader), now)
        }
    }

    /// Full §5.3 AppendEntries.
    pub open spec fn on_append_entries(self, args: AppendModel, now: u64) -> (
        Self,
        AppendEntriesReply,
    ) {
        if args.term < self.term() {
            (self, AppendEntriesReply { term: self.term(), success: false })
        } else {
            let heard = self.hear_leader(args.term, args.leader_id, now);
            if !heard.prev_matches(args) {
                (heard, AppendEntriesReply { term: heard.term(), success: false })
            } else {
                let merged = heard.merge(args);
                let commit = Self::verified_commit(args);
                (
                    if commit > merged.commit_index {
                        merged.commit_to(commit)
                    } else {
                        merged
                    },
                    AppendEntriesReply { term: heard.term(), success: true },
                )
            }
        }
    }

    /// Whether an AppendEntries can be taken. A stale one, or one that does not
    /// match, is answered whatever it carries. One that matches must not drop
    /// a committed entry (two leaders would have to disagree on one), nor
    /// leave a gap in the log, nor commit what is not in it.
    pub open spec fn admits_append(self, args: AppendModel) -> bool {
        args.term >= self.term() && self.prev_matches(args) ==> {
            &&& args.prev_log_index + args.entries.len() <= u64::MAX
            &&& self.takes(args)
            &&& self.commits_held(args)
        }
    }

    /// Whether the commit point that a batch gives lies in the log that it
    /// leaves.
    pub open spec fn commits_held(self, args: AppendModel) -> bool {
        Self::verified_commit(args) <= self.commit_index || Self::verified_commit(args)
            <= self.merge(args).files.last_index()
    }

    /// Proposals at or below `boundary`, whose fate a snapshot hides.
    pub open spec fn drop_hidden(self, boundary: LogIndex) -> Self {
        NodeModel {
            pending: self.pending.filter(|p: PendingProposal| p.index > boundary),
            ..self
        }.emit(
            self.pending.filter(|p: PendingProposal| p.index <= boundary).map_values(
                |p: PendingProposal| EffectModel::DropProposal { ticket: p.ticket },
            ),
        )
    }

    /// InstallSnapshot (§7): replaces our compacted-away past with the
    /// leader's snapshot. What is already committed here is not replaced.
    pub open spec fn on_install_snapshot(self, args: InstallModel<S::State>, now: u64) -> (
        Self,
        InstallSnapshotReply,
    ) {
        if args.term < self.term() {
            (self, InstallSnapshotReply { term: self.term() })
        } else {
            let heard = self.hear_leader(args.term, args.leader_id, now);
            let reply = InstallSnapshotReply { term: heard.term() };
            let boundary = args.snapshot.last_included_index;
            if boundary <= heard.commit_index {
                (heard, reply)
            } else {
                let files = heard.files.installed(args.snapshot);
                (
                    NodeModel {
                        files,
                        writes: heard.writes.push(WriteModel::Snapshot(args.snapshot)).push(
                            WriteModel::RewriteLog(files.log),
                        ),
                        state: args.snapshot.state,
                        commit_index: boundary,
                        last_applied: boundary,
                        captured: None,
                        ..heard
                    }.drop_hidden(boundary).resolve_pending(),
                    reply,
                )
            }
        }
    }

    /// A piece of a snapshot: contact with a valid leader, and taken in where
    /// it continues what has come in. Nothing is installed before the last
    /// piece is there.
    pub open spec fn on_snapshot_chunk(self, args: ChunkModel, now: u64) -> (
        Self,
        SnapshotChunkReply,
    ) {
        if args.transfer.term < self.term() {
            (self, SnapshotChunkReply { term: self.term(), received: 0 })
        } else {
            let heard = self.hear_leader(args.transfer.term, args.transfer.leader_id, now);
            let taken = NodeModel { incoming: assembly_after(self.incoming, args), ..heard };
            (
                if completes(self.incoming, args) {
                    taken.emit(
                        seq![
                            EffectModel::Assembled {
                                transfer: args.transfer,
                                bytes: reached(self.incoming, args),
                            },
                        ],
                    )
                } else {
                    taken
                },
                SnapshotChunkReply {
                    term: heard.term(),
                    received: reached(self.incoming, args).len() as u64,
                },
            )
        }
    }

    // ---- leader replication ----

    /// What a leader sends `peer` next: a batch of what follows its next index
    /// (an empty one doubles as the heartbeat), or the snapshot if the peer
    /// needs entries that are compacted away.
    pub open spec fn replication(self, leader: LeaderModel, peer: NodeId) -> EffectModel<S::State> {
        let next = lookup(leader.next_index, peer, (self.files.last_index() + 1) as u64);
        if next <= self.files.snapshot_index() {
            EffectModel::Send {
                to: peer,
                request: RequestModel::InstallSnapshot(
                    InstallModel {
                        term: self.term(),
                        leader_id: self.settings.id,
                        snapshot: self.files.snapshot->0,
                    },
                ),
                tag: ReplyTag::InstallSnapshot {
                    sent_term: self.term(),
                    last_included_index: self.files.snapshot_index() as u64,
                },
            }
        } else {
            let entries = batch(
                self.files.entries_from(next as int),
                self.settings.max_append_bytes,
            );
            EffectModel::Send {
                to: peer,
                request: RequestModel::AppendEntries(
                    AppendModel {
                        term: self.term(),
                        leader_id: self.settings.id,
                        prev_log_index: (next - 1) as u64,
                        prev_log_term: self.files.term_at(next - 1)->0,
                        entries,
                        leader_commit: self.commit_index,
                    },
                ),
                tag: ReplyTag::Append {
                    sent_term: self.term(),
                    sent_prev_index: (next - 1) as u64,
                    sent_entries: entries.len() as u64,
                    sent_seq: leader.heartbeat_seq,
                },
            }
        }
    }

    /// Replicates to one peer. No-op on non-leaders; a leader never sends
    /// outside the configuration.
    pub open spec fn send_append(self, peer: NodeId) -> Self {
        match self.role {
            RoleModel::Leader(leader) if self.is_peer(peer) => self.emit(
                seq![self.replication(leader, peer)],
            ),
            _ => self,
        }
    }

    /// Replicates to every peer, in order. No-op on non-leaders.
    pub open spec fn broadcast(self) -> Self {
        match self.role {
            RoleModel::Leader(leader) => self.emit(
                self.peers().map_values(|peer: NodeId| self.replication(leader, peer)),
            ),
            _ => self,
        }
    }

    /// How far each member of the cluster is known to hold the log; this node
    /// trivially holds its own whole log.
    pub open spec fn replicated(self, leader: LeaderModel) -> Seq<u64> {
        self.members().map_values(
            |id: NodeId|
                if id == self.settings.id {
                    self.files.last_index() as u64
                } else {
                    lookup(leader.match_index, id, 0)
                },
        )
    }

    /// The highest index that a majority holds.
    pub open spec fn quorum_index(self, leader: LeaderModel) -> LogIndex {
        quorum_value(self.replicated(leader), self.majority())
    }

    /// A leader that its own committed configuration leaves out steps down.
    pub open spec fn retire(self, now: u64) -> Self {
        if self.is_leader() && !self.is_member() && !self.change_in_flight() {
            self.become_follower(self.term(), None, now)
        } else {
            self
        }
    }

    /// Advances the commit point to the highest index replicated on a
    /// majority, but only for an entry of the current term (§5.4.2);
    /// prior-term entries commit transitively.
    pub open spec fn maybe_advance_commit(self, now: u64) -> Self {
        match self.role {
            RoleModel::Leader(leader) => {
                let index = self.quorum_index(leader);
                if self.members().len() > 0 && index > self.commit_index && self.files.term_at(
                    index as int,
                ) == Some(self.term()) {
                    self.commit_to(index).retire(now)
                } else {
                    self
                }
            },
            _ => self,
        }
    }

    /// Whether `id` was heard from within the longest election timeout; this
    /// node always is.
    pub open spec fn heard(self, leader: LeaderModel, now: u64, id: NodeId) -> bool {
        id == self.settings.id || (leader.last_contact.contains_key(id) && elapsed(
            now,
            leader.last_contact[id],
        ) < self.settings.election_timeout_max)
    }

    /// CheckQuorum: whether a majority was heard from lately.
    pub open spec fn hears_majority(self, leader: LeaderModel, now: u64) -> bool {
        self.majority_of(|id: NodeId| self.heard(leader, now, id))
    }

    pub open spec fn schedule_heartbeat(self, now: u64) -> Self {
        NodeModel { next_heartbeat: (now + self.settings.heartbeat_interval) as u64, ..self }
    }

    /// A leader out of touch with the majority steps down at its current
    /// term; otherwise it replicates to everyone.
    pub open spec fn on_heartbeat_tick(self, now: u64) -> Self {
        match self.role {
            RoleModel::Leader(leader) => {
                if self.hears_majority(leader, now) {
                    self.broadcast().schedule_heartbeat(now)
                } else {
                    self.become_follower(self.term(), None, now)
                }
            },
            _ => self.schedule_heartbeat(now),
        }
    }

    // ---- elections ----

    /// The vote request that this node's log supports for `term`.
    pub open spec fn ballot(self, term: Term) -> RequestVoteArgs {
        RequestVoteArgs {
            term,
            candidate_id: self.settings.id,
            last_log_index: self.files.last_index() as u64,
            last_log_term: self.files.last_term(),
        }
    }

    /// A fresh leader's bookkeeping.
    pub open spec fn fresh_leader(self, now: u64) -> LeaderModel {
        let next = (self.files.last_index() + 1) as u64;
        LeaderModel {
            next_index: all_at(self.peers(), next),
            match_index: all_at(self.peers(), 0),
            term_start_index: next,
            heartbeat_seq: 0,
            acked_seq: Map::empty(),
            last_contact: all_at(self.peers(), now),
            pending_reads: Seq::empty(),
        }
    }

    /// The leadership no-op (§8).
    pub open spec fn noop(self) -> LogEntry {
        LogEntry {
            term: self.term(),
            index: (self.files.last_index() + 1) as u64,
            command: Command::Noop,
        }
    }

    pub open spec fn become_leader(self, now: u64) -> Self {
        NodeModel {
            role: RoleModel::Leader(self.fresh_leader(now)),
            leader_id: Some(self.settings.id),
            ..self
        }.append(seq![self.noop()]).maybe_advance_commit(now).on_heartbeat_tick(now)
    }

    /// A candidate with a majority of votes becomes leader.
    pub open spec fn maybe_become_leader(self, now: u64) -> Self {
        match self.role {
            RoleModel::Candidate { votes } if self.majority_of(|id: NodeId| votes.contains(id)) => {
                self.become_leader(now)
            },
            _ => self,
        }
    }

    /// A durable candidacy for the next term, with a vote for itself, before
    /// any vote came in.
    pub open spec fn candidacy(self, now: u64) -> Self {
        let term = (self.term() + 1) as u64;
        let candidate = NodeModel {
            role: RoleModel::Candidate { votes: Set::empty().insert(self.settings.id) },
            leader_id: None,
            ..self.save(
                HardState { current_term: term, voted_for: Some(self.settings.id) },
            )
        }.reset_timer(now);
        candidate.emit(
            self.peers().map_values(
                |peer: NodeId|
                    EffectModel::Send {
                        to: peer,
                        request: RequestModel::RequestVote(self.ballot(term)),
                        tag: ReplyTag::Vote { sent_term: term },
                    },
            ),
        )
    }

    /// The real election (§5.2).
    pub open spec fn start_election(self, now: u64) -> Self {
        self.candidacy(now).maybe_become_leader(now)
    }

    /// A pre-candidate with a majority of pre-votes starts the real election.
    pub open spec fn maybe_start_election(self, now: u64) -> Self {
        match self.role {
            RoleModel::PreCandidate { votes } if self.majority_of(|id: NodeId| votes.contains(id)) => {
                self.start_election(now)
            },
            _ => self,
        }
    }

    /// A pre-campaign (§9.6) before any pre-vote came in: nothing durable
    /// changes and the term does not move.
    pub open spec fn pre_campaign(self, now: u64) -> Self {
        let prospective = (self.term() + 1) as u64;
        NodeModel {
            role: RoleModel::PreCandidate { votes: Set::empty().insert(self.settings.id) },
            leader_id: None,
            ..self
        }.reset_timer(now).emit(
            self.peers().map_values(
                |peer: NodeId|
                    EffectModel::Send {
                        to: peer,
                        request: RequestModel::PreVote(self.ballot(prospective)),
                        tag: ReplyTag::PreVote { sent_term: prospective },
                    },
            ),
        )
    }

    /// A member starts a pre-campaign; a node outside the configuration (a
    /// joiner, or one that was removed) only waits on.
    pub open spec fn on_election_timeout(self, now: u64) -> Self {
        if self.is_member() {
            self.pre_campaign(now).maybe_start_election(now)
        } else {
            self.reset_timer(now)
        }
    }

    // ---- client requests ----

    /// What stands against changing the configuration to `proposed`.
    pub open spec fn config_fault(
        self,
        leader: LeaderModel,
        proposed: Arc<Membership>,
        now: u64,
    ) -> Option<ConfigFault> {
        if self.commit_index < leader.term_start_index {
            Some(ConfigFault::NoopUncommitted)
        } else if self.change_in_flight() {
            Some(ConfigFault::ChangeInFlight)
        } else if proposed.ids().len() == 0 {
            Some(ConfigFault::Empty)
        } else if !single_change(self.membership().addrs(), proposed.addrs()) {
            Some(ConfigFault::NotSingleServer)
        } else if proposed.ids().filter(|id: NodeId| self.heard(leader, now, id)).len()
            < proposed.ids().len() / 2 + 1 {
            Some(ConfigFault::MajorityUnreachable)
        } else {
            None
        }
    }

    /// Why a write is refused, if it is.
    pub open spec fn refusal(self, command: Command, now: u64) -> Option<ProposeError> {
        match self.role {
            RoleModel::Leader(leader) => match command {
                Command::ConfigChange { members } => match self.config_fault(
                    leader,
                    members,
                    now,
                ) {
                    Some(reason) => Some(ProposeError::InvalidConfigChange { reason }),
                    None => None,
                },
                _ => None,
            },
            _ => Some(ProposeError::NotLeader { leader_hint: self.leader_id }),
        }
    }

    /// The leader with one more entry in its log, and `ticket` waiting for it.
    pub open spec fn accept(self, command: Command, ticket: u64) -> Self {
        let term = self.term();
        let index = (self.files.last_index() + 1) as u64;
        let appended = self.append(seq![LogEntry { term, index, command }]);
        NodeModel {
            pending: appended.pending.push(PendingProposal { term, index, ticket }),
            ..appended
        }
    }

    /// A write: appended and replicated by a leader, refused by anyone else.
    pub open spec fn on_propose(self, command: Command, ticket: u64, now: u64) -> (
        Self,
        Result<Proposal, ProposeError>,
    ) {
        match self.refusal(command, now) {
            Some(e) => (self, Err(e)),
            None => (
                self.accept(command, ticket).maybe_advance_commit(now).broadcast(),
                Ok(
                    Proposal {
                        term: self.term(),
                        index: (self.files.last_index() + 1) as u64,
                    },
                ),
            ),
        }
    }

    /// The leader after registering a read: its sequence number moves, so
    /// that only later acknowledgements confirm the read.
    pub open spec fn register_read(self, leader: LeaderModel, ticket: u64) -> Self {
        let seq = (leader.heartbeat_seq + 1) as u64;
        NodeModel {
            role: RoleModel::Leader(
                LeaderModel {
                    heartbeat_seq: seq,
                    pending_reads: leader.pending_reads.push(
                        PendingRead {
                            needed_seq: seq,
                            read_index: larger(self.commit_index, leader.term_start_index),
                            ticket,
                        },
                    ),
                    ..leader
                },
            ),
            ..self
        }
    }

    /// A linearizable read (§6.4 ReadIndex).
    pub open spec fn on_read(self, ticket: u64) -> (Self, Result<(), ProposeError>) {
        match self.role {
            RoleModel::Leader(leader) => (
                self.register_read(leader, ticket).broadcast().resolve_reads(),
                Ok(()),
            ),
            _ => (self, Err(ProposeError::NotLeader { leader_hint: self.leader_id })),
        }
    }

    // ---- inbound RPCs and timers ----

    /// One RPC from a peer, and its answer.
    pub open spec fn on_request(self, request: RequestModel<S::State>, now: u64) -> (
        Self,
        RpcResponse,
    ) {
        match request {
            RequestModel::RequestVote(args) => {
                let (after, reply) = self.on_request_vote(args, now);
                (after, RpcResponse::RequestVote(reply))
            },
            RequestModel::AppendEntries(args) => {
                let (after, reply) = self.on_append_entries(args, now);
                (after, RpcResponse::AppendEntries(reply))
            },
            RequestModel::PreVote(args) => (
                self,
                RpcResponse::PreVote(self.pre_vote_reply(args, now)),
            ),
            RequestModel::InstallSnapshot(args) => {
                let (after, reply) = self.on_install_snapshot(args, now);
                (after, RpcResponse::InstallSnapshot(reply))
            },
            RequestModel::SnapshotChunk(args) => {
                let (after, reply) = self.on_snapshot_chunk(args, now);
                (after, RpcResponse::SnapshotChunk(reply))
            },
        }
    }

    /// The timer that the role waits for.
    pub open spec fn next_deadline(self) -> u64 {
        if self.is_leader() {
            self.next_heartbeat
        } else {
            self.election_deadline
        }
    }

    /// That timer has run out.
    pub open spec fn on_timer(self, now: u64) -> Self {
        if self.is_leader() {
            self.on_heartbeat_tick(now)
        } else {
            self.on_election_timeout(now)
        }
    }

    // ---- replies ----

    /// The leader after `from` answered an AppendEntries: any answer at our
    /// term acknowledges our authority as of its sending, and is contact.
    pub open spec fn acknowledge(leader: LeaderModel, from: NodeId, seq: u64, now: u64) -> LeaderModel {
        LeaderModel {
            acked_seq: leader.acked_seq.insert(from, larger(lookup(leader.acked_seq, from, 0), seq)),
            last_contact: leader.last_contact.insert(from, now),
            ..leader
        }
    }

    pub open spec fn with_leader(self, leader: LeaderModel) -> Self {
        NodeModel { role: RoleModel::Leader(leader), ..self }
    }

    /// An accepted AppendEntries: the peer matches us through `confirmed`.
    /// Replies can arrive reordered, so progress never moves back.
    pub open spec fn on_append_accepted(
        self,
        leader: LeaderModel,
        from: NodeId,
        confirmed: u64,
        now: u64,
    ) -> Self {
        if confirmed > lookup(leader.match_index, from, 0) {
            let moved = self.with_leader(
                LeaderModel {
                    match_index: leader.match_index.insert(from, confirmed),
                    next_index: leader.next_index.insert(from, (confirmed + 1) as u64),
                    ..leader
                },
            ).maybe_advance_commit(now);
            if confirmed < self.files.last_index() {
                moved.send_append(from)
            } else {
                moved
            }
        } else {
            self.with_leader(
                LeaderModel {
                    match_index: leader.match_index.insert(
                        from,
                        lookup(leader.match_index, from, 0),
                    ),
                    ..leader
                },
            ).maybe_advance_commit(now)
        }
    }

    /// A rejected AppendEntries (§5.3): step below what was sent and retry at
    /// once; a stale rejection never undoes progress.
    pub open spec fn on_append_rejected(
        self,
        leader: LeaderModel,
        from: NodeId,
        sent_prev_index: LogIndex,
    ) -> Self {
        self.with_leader(
            LeaderModel {
                next_index: leader.next_index.insert(
                    from,
                    smaller(lookup(leader.next_index, from, 1), larger(sent_prev_index, 1)),
                ),
                ..leader
            },
        ).send_append(from)
    }

    /// An answered InstallSnapshot: the peer holds everything through the
    /// boundary. Contact, but never a read acknowledgement.
    pub open spec fn on_snapshot_installed(
        self,
        leader: LeaderModel,
        from: NodeId,
        boundary: LogIndex,
        now: u64,
    ) -> Self {
        let moved = self.with_leader(
            LeaderModel {
                last_contact: leader.last_contact.insert(from, now),
                match_index: leader.match_index.insert(
                    from,
                    larger(lookup(leader.match_index, from, 0), boundary),
                ),
                next_index: leader.next_index.insert(
                    from,
                    larger(lookup(leader.next_index, from, 1), (boundary + 1) as u64),
                ),
                ..leader
            },
        ).maybe_advance_commit(now);
        if boundary < self.files.last_index() {
            moved.send_append(from)
        } else {
            moved
        }
    }

    pub open spec fn count_pre_vote(self, from: NodeId, now: u64) -> Self {
        match self.role {
            RoleModel::PreCandidate { votes } => NodeModel {
                role: RoleModel::PreCandidate { votes: votes.insert(from) },
                ..self
            }.maybe_start_election(now),
            _ => self,
        }
    }

    pub open spec fn count_vote(self, from: NodeId, now: u64) -> Self {
        match self.role {
            RoleModel::Candidate { votes } => NodeModel {
                role: RoleModel::Candidate { votes: votes.insert(from) },
                ..self
            }.maybe_become_leader(now),
            _ => self,
        }
    }

    /// A reply to one of our RPCs. Failures, replies of the wrong kind and
    /// replies to RPCs of an earlier term change nothing; a higher term is
    /// adopted.
    pub open spec fn on_reply(
        self,
        from: NodeId,
        tag: ReplyTag,
        result: Result<RpcResponse, TransportError>,
        now: u64,
    ) -> Self {
        match (tag, result) {
            (ReplyTag::PreVote { sent_term }, Ok(RpcResponse::PreVote(reply))) => {
                if reply.term > self.term() {
                    self.become_follower(reply.term, None, now)
                } else if sent_term == self.term() + 1 && reply.vote_granted {
                    self.count_pre_vote(from, now)
                } else {
                    self
                }
            },
            (ReplyTag::Vote { sent_term }, Ok(RpcResponse::RequestVote(reply))) => {
                if reply.term > self.term() {
                    self.become_follower(reply.term, None, now)
                } else if sent_term == self.term() && reply.vote_granted {
                    self.count_vote(from, now)
                } else {
                    self
                }
            },
            (
                ReplyTag::Append { sent_term, sent_prev_index, sent_entries, sent_seq },
                Ok(RpcResponse::AppendEntries(reply)),
            ) => {
                if reply.term > self.term() {
                    self.become_follower(reply.term, None, now)
                } else if sent_term != self.term() {
                    self
                } else {
                    match self.role {
                        RoleModel::Leader(leader) => {
                            let heard = Self::acknowledge(leader, from, sent_seq, now);
                            if reply.success {
                                self.on_append_accepted(
                                    heard,
                                    from,
                                    (sent_prev_index + sent_entries) as u64,
                                    now,
                                ).resolve_reads()
                            } else {
                                self.on_append_rejected(
                                    heard,
                                    from,
                                    sent_prev_index,
                                ).resolve_reads()
                            }
                        },
                        _ => self,
                    }
                }
            },
            (
                ReplyTag::InstallSnapshot { sent_term, last_included_index },
                Ok(RpcResponse::InstallSnapshot(reply)),
            ) => {
                if reply.term > self.term() {
                    self.become_follower(reply.term, None, now)
                } else if sent_term != self.term() {
                    self
                } else {
                    match self.role {
                        RoleModel::Leader(leader) => self.on_snapshot_installed(
                            leader,
                            from,
                            last_included_index,
                            now,
                        ),
                        _ => self,
                    }
                }
            },
            (ReplyTag::SnapshotChunk { sent_term }, Ok(RpcResponse::SnapshotChunk(reply))) => {
                if reply.term > self.term() {
                    self.become_follower(reply.term, None, now)
                } else if sent_term != self.term() {
                    self
                } else {
                    self.on_chunk_answered(from, now)
                }
            },
            _ => self,
        }
    }

    /// An answered chunk is contact, and nothing more.
    pub open spec fn on_chunk_answered(self, from: NodeId, now: u64) -> Self {
        match self.role {
            RoleModel::Leader(leader) => self.with_leader(
                LeaderModel { last_contact: leader.last_contact.insert(from, now), ..leader },
            ),
            _ => self,
        }
    }

    /// Whether `tag` can be one that this node has handed out: it was not
    /// sent in a later term, and what a leader sent in its term lies within
    /// its log.
    pub open spec fn issued(self, tag: ReplyTag) -> bool {
        match tag {
            ReplyTag::PreVote { .. } => true,
            ReplyTag::Vote { .. } => true,
            ReplyTag::Append { sent_term, sent_prev_index, sent_entries, .. } => {
                self.covers(sent_term, sent_prev_index + sent_entries)
            },
            ReplyTag::InstallSnapshot { sent_term, last_included_index } => {
                self.covers(sent_term, last_included_index as int)
            },
            ReplyTag::SnapshotChunk { .. } => true,
        }
    }

    /// Whether replication through `index` can have been sent at `sent_term`.
    pub open spec fn covers(self, sent_term: Term, index: int) -> bool {
        &&& sent_term <= self.term()
        &&& sent_term == self.term() ==> !(self.role is Candidate)
        &&& sent_term == self.term() && self.is_leader() ==> index <= self.files.last_index()
    }
}

/// Everything that can happen to a node.
#[verifier::ext_equal]
#[verifier::reject_recursive_types(D)]
pub enum NodeEvent<D> {
    /// A client's write.
    Propose { command: Command, ticket: u64 },
    /// A client's linearizable read.
    Read { ticket: u64 },
    /// A peer's RPC.
    Request(RequestModel<D>),
    /// The reply to one of our RPCs, or its failure.
    Reply { from: NodeId, tag: ReplyTag, result: Result<RpcResponse, TransportError> },
    /// The timer that the role waits for has run out.
    Timer,
}

impl<S: StateMachine> NodeModel<S> {
    /// The node after an event at time `now`.
    pub open spec fn step(self, event: NodeEvent<S::State>, now: u64) -> Self {
        match event {
            NodeEvent::Propose { command, ticket } => self.on_propose(command, ticket, now).0,
            NodeEvent::Read { ticket } => self.on_read(ticket).0,
            NodeEvent::Request(request) => self.on_request(request, now).0,
            NodeEvent::Reply { from, tag, result } => self.on_reply(from, tag, result, now),
            NodeEvent::Timer => self.on_timer(now),
        }
    }

    /// Whether an event can happen: there is room for it, an AppendEntries
    /// does not contradict what is committed, and a reply answers an RPC that
    /// was sent.
    pub open spec fn admits(self, event: NodeEvent<S::State>, now: u64) -> bool {
        &&& self.room(now)
        &&& match event {
            NodeEvent::Request(RequestModel::AppendEntries(args)) => self.admits_append(args),
            NodeEvent::Reply { tag, .. } => self.issued(tag),
            _ => true,
        }
    }
}

impl LeaderModel {
    /// Next indexes stay within a log that ends at `last_index`.
    pub open spec fn within_log(self, last_index: int) -> bool {
        forall|id: NodeId| #[trigger]
            self.next_index.contains_key(id) ==> 1 <= self.next_index[id] <= last_index + 1
    }
}

} // verus!
