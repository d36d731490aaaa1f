//! The Raft node: leader election and log replication (§5.1–5.4), PreVote
//! (§9.6), CheckQuorum, linearizable reads (§6.4 ReadIndex), snapshotting
//! and InstallSnapshot (§7).
//!
//! One node owns all consensus state: storage, role, timers, replication
//! bookkeeping and the state machine. It never touches a clock, a socket or a
//! file. Each event comes in as a call, with the time it happened; what must
//! leave the node accumulates as [`Effect`]s and disk writes. The driver
//! performs the writes durably, in order, before it lets the effects (and the
//! call's own answer) out.
//!
//! Determinism: a node's behaviour is a function of its configuration and the
//! sequence of its events; the only randomness is the seeded election jitter.

use std::sync::Arc;

use vstd::prelude::*;

use super::batch::batch_len;
use super::chunks::Assembly;
use super::durability::compaction_keeps_the_answers;
use super::machine::run;
use super::membership::{
    ascending, config_of, find_last_config, last_config_of_parts, AddrModel, MemberAddr,
    Membership,
};
use super::model::{
    larger, lookup, smaller, CaptureModel, EffectModel, LeaderModel, NodeModel, RoleModel,
    Settings,
};
use super::peers::{PeerTable, VoteSet};
use super::quorum::quorum_index;
use super::rpc::{
    AppendEntriesArgs, AppendEntriesReply, InstallModel, InstallSnapshotArgs, InstallSnapshotReply,
    RequestModel, RequestVoteArgs, RequestVoteReply, RpcRequest, RpcResponse, SnapshotChunkArgs,
    SnapshotChunkReply, TransferId,
};
use super::storage::{numbered_from, DiskWrite, Durable, Storage, WriteModel};
use super::transport::TransportError;
use super::types::{
    copy_entries, share, Command, HardState, LogEntry, LogIndex, NodeId, Snapshot, SnapshotModel,
    Term,
};
use super::upkeep::{
    append_keeps, apply_committed_settles, become_leader_keeps, candidacy_keeps, commit_to_settles,
    first_new_unique, maybe_advance_commit_keeps, maybe_compact_keeps, merge_keeps,
    on_append_entries_keeps, on_election_timeout_keeps, on_install_snapshot_keeps,
    on_propose_keeps, on_read_keeps, on_reply_keeps, on_snapshot_chunk_keeps, truncate_keeps,
};
use crate::rng::SplitMix64;

pub use super::machine::StateMachine;
pub use super::model::{ConfigFault, PendingProposal, PendingRead, Proposal, ProposeError, ReplyTag};

verus! {

/// The fixed parameters of a node. Times are in microseconds.
#[derive(Debug, Clone)]
pub struct RaftConfig {
    pub id: NodeId,
    /// The other members of the cluster that the node is started with.
    pub peers: Vec<NodeId>,
    pub election_timeout_min: u64,
    pub election_timeout_max: u64,
    pub heartbeat_interval: u64,
    /// Seeds this node's election-timeout jitter; part of what makes a
    /// simulated scenario reproducible.
    pub timeout_seed: u64,
    /// Compact the log once `last_applied` runs this many entries past the
    /// snapshot boundary; 0 counts as 1. `None` disables snapshotting.
    pub snapshot_threshold: Option<u64>,
    /// Keep the snapshot boundary at least this many applied entries behind.
    pub snapshot_trailing: u64,
    /// Byte budget for one AppendEntries batch; a single entry is sent
    /// whatever its size. `None` sends the whole tail.
    pub max_append_bytes: Option<usize>,
    /// Chunk size for snapshots on their way out, for whoever sends them.
    /// `None` sends them whole.
    pub snapshot_chunk_bytes: Option<usize>,
    /// Start outside of any configuration, waiting to be added to a running
    /// cluster.
    pub join: bool,
    /// Addresses for the configuration that the node is started with.
    pub bootstrap_addrs: Membership,
}

/// The addresses of a member without any.
pub open spec fn no_addr() -> AddrModel {
    AddrModel { raft: Seq::empty(), client: Seq::empty() }
}

impl RaftConfig {
    /// Whether `members` is the configuration that the node is started with:
    /// the node and its peers, or nobody for a joiner.
    pub open spec fn starts_with(&self, members: Membership) -> bool {
        members.addrs() == if self.join {
            Map::empty()
        } else {
            Map::new(
                |id: NodeId| id == self.id || self.peers@.contains(id),
                |id: NodeId|
                    if self.bootstrap_addrs.addrs().contains_key(id) {
                        self.bootstrap_addrs.addrs()[id]
                    } else {
                        no_addr()
                    },
            )
        }
    }

    /// The parameters, with the configuration that the node is started with.
    pub open spec fn settings(&self, bootstrap: Arc<Membership>) -> Settings {
        Settings {
            id: self.id,
            bootstrap,
            election_timeout_min: self.election_timeout_min,
            election_timeout_max: self.election_timeout_max,
            heartbeat_interval: self.heartbeat_interval,
            snapshot_threshold: self.snapshot_threshold,
            snapshot_trailing: self.snapshot_trailing,
            max_append_bytes: self.max_append_bytes,
        }
    }

    /// Timeouts of 150 to 300 ms, a heartbeat every 50 ms, jitter seeded by
    /// the id, no snapshotting, a member of the cluster from the start.
    pub fn new(id: NodeId, peers: Vec<NodeId>) -> (config: Self)
        ensures
            config.id == id,
            config.peers == peers,
            config.election_timeout_min == 150_000,
            config.election_timeout_max == 300_000,
            config.heartbeat_interval == 50_000,
            config.timeout_seed == id,
            config.snapshot_threshold is None,
            config.snapshot_trailing == 0,
            config.max_append_bytes is None,
            config.snapshot_chunk_bytes is None,
            !config.join,
            config.bootstrap_addrs.addrs() == Map::<NodeId, AddrModel>::empty(),
    {
        Self {
            id,
            peers,
            election_timeout_min: 150_000,
            election_timeout_max: 300_000,
            heartbeat_interval: 50_000,
            timeout_seed: id,
            snapshot_threshold: None,
            snapshot_trailing: 0,
            max_append_bytes: None,
            snapshot_chunk_bytes: None,
            join: false,
            bootstrap_addrs: Membership::new(),
        }
    }

    /// The address of `id` in the bootstrap address book, or a blank one.
    fn bootstrap_addr(&self, id: NodeId) -> (addr: MemberAddr)
        ensures
            addr@ == if self.bootstrap_addrs.addrs().contains_key(id) {
                self.bootstrap_addrs.addrs()[id]
            } else {
                no_addr()
            },
    {
        match self.bootstrap_addrs.get(id) {
            Some(addr) => addr.clone(),
            None => {
                let addr = MemberAddr { raft: String::new(), client: String::new() };
                assert(addr@ =~= no_addr());
                addr
            },
        }
    }

    /// The configuration that the node is started with.
    pub fn bootstrap(&self) -> (members: Membership)
        ensures
            self.starts_with(members),
            ascending(members.ids()),
    {
        let mut members = Membership::new();
        if self.join {
            return members;
        }
        let own = self.bootstrap_addr(self.id);
        members.insert(self.id, own);
        let ghost book = |id: NodeId|
            if self.bootstrap_addrs.addrs().contains_key(id) {
                self.bootstrap_addrs.addrs()[id]
            } else {
                no_addr()
            };
        let mut i: usize = 0;
        assert(members.addrs() =~= Map::new(
            |id: NodeId| id == self.id || self.peers@.take(0).contains(id),
            book,
        ));
        while i < self.peers.len()
            invariant
                i <= self.peers.len(),
                book == (|id: NodeId|
                    if self.bootstrap_addrs.addrs().contains_key(id) {
                        self.bootstrap_addrs.addrs()[id]
                    } else {
                        no_addr()
                    }),
                members.addrs() == Map::new(
                    |id: NodeId| id == self.id || self.peers@.take(i as int).contains(id),
                    book,
                ),
                ascending(members.ids()),
            decreases self.peers.len() - i,
        {
            let id: u64 = self.peers[i];
            let addr = self.bootstrap_addr(id);
            members.insert(id, addr);
            proof {
                let next = self.peers@.take(i + 1);
                let prev = self.peers@.take(i as int);
                assert(next =~= prev.push(id));
                assert forall|k: NodeId| #[trigger] next.contains(k) <==> prev.contains(k) || k
                    == id by {
                    if prev.contains(k) {
                        let j = choose|j: int| 0 <= j < prev.len() && prev[j] == k;
                        assert(next[j] == k);
                    }
                    assert(next[i as int] == id);
                }
                assert(members.addrs() =~= Map::new(
                    |id: NodeId| id == self.id || next.contains(id),
                    book,
                ));
            }
            i += 1;
        }
        assert(self.peers@.take(self.peers.len() as int) =~= self.peers@);
        members
    }
}

#[derive(Debug, Clone, Copy, PartialEq, Eq, Structural)]
pub enum RoleKind {
    Follower,
    /// Probing for a pre-vote majority (§9.6); still at its old term.
    PreCandidate,
    Candidate,
    Leader,
}

/// A snapshot of a node's externally visible consensus state.
#[derive(Debug, Clone, Copy, PartialEq, Eq, Structural)]
pub struct Status {
    pub id: NodeId,
    pub term: Term,
    pub role: RoleKind,
    /// Who this node believes leads its current term (itself, if leader).
    pub leader_id: Option<NodeId>,
    /// Highest log index known committed (volatile; re-learned after restart).
    pub commit_index: LogIndex,
    pub last_log_index: LogIndex,
}

/// A leader's bookkeeping.
#[derive(Debug)]
pub struct LeaderState {
    next_index: PeerTable,
    match_index: PeerTable,
    /// Reads never serve below it (§6.4): a fresh leader doesn't yet know how
    /// far its predecessor committed.
    term_start_index: LogIndex,
    /// Bumped when a read registers, so later acks prove later authority.
    heartbeat_seq: u64,
    acked_seq: PeerTable,
    /// Initialized to leadership start so a fresh leader isn't deposed before
    /// its first acks can possibly arrive.
    last_contact: PeerTable,
    /// Deliberately inside the role: losing leadership drops them, unlike
    /// pending proposals, which survive step-down.
    pending_reads: Vec<PendingRead>,
}

impl LeaderState {
    closed spec fn wf(&self) -> bool {
        &&& self.next_index.wf()
        &&& self.match_index.wf()
        &&& self.acked_seq.wf()
        &&& self.last_contact.wf()
    }

    closed spec fn model(&self) -> LeaderModel {
        LeaderModel {
            next_index: self.next_index@,
            match_index: self.match_index@,
            term_start_index: self.term_start_index,
            heartbeat_seq: self.heartbeat_seq,
            acked_seq: self.acked_seq@,
            last_contact: self.last_contact@,
            pending_reads: self.pending_reads@,
        }
    }
}

#[derive(Debug)]
pub enum Role {
    Follower,
    /// Counting non-binding pre-votes for the prospective term.
    PreCandidate { votes: VoteSet },
    Candidate { votes: VoteSet },
    Leader(LeaderState),
}

impl Role {
    closed spec fn wf(&self) -> bool {
        match self {
            Role::Follower => true,
            Role::PreCandidate { votes } => votes.wf(),
            Role::Candidate { votes } => votes.wf(),
            Role::Leader(leader) => leader.wf(),
        }
    }

    closed spec fn model(&self) -> RoleModel {
        match self {
            Role::Follower => RoleModel::Follower,
            Role::PreCandidate { votes } => RoleModel::PreCandidate { votes: votes@ },
            Role::Candidate { votes } => RoleModel::Candidate { votes: votes@ },
            Role::Leader(leader) => RoleModel::Leader(leader.model()),
        }
    }
}

/// Something the node wants done. Let out only after the disk writes that
/// were queued with it are durable.
#[verifier::reject_recursive_types(P)]
pub enum Effect<P> {
    /// Send `request` to `to` and report the reply under `tag`.
    Send { to: NodeId, request: RpcRequest<P>, tag: ReplyTag },
    /// The proposal's outcome is known: `true` once the entry is committed
    /// and applied on this node, `false` if it was replaced by another leader
    /// and can never commit as proposed.
    Resolve { ticket: u64, committed: bool },
    /// The proposal's outcome can no longer be told.
    DropProposal { ticket: u64 },
    /// The read may be served from the local state machine.
    GrantRead { ticket: u64 },
    /// The read must be retried against the new leader.
    DropRead { ticket: u64 },
    /// A snapshot has come in whole: decode it, and hand it in as the
    /// InstallSnapshot that it is.
    Assembled { transfer: TransferId, bytes: Vec<u8> },
}

/// A snapshot, by the state that its payload captures.
pub open spec fn snapshot_of<S: StateMachine>(s: SnapshotModel<S::Payload>) -> SnapshotModel<
    S::State,
> {
    SnapshotModel {
        last_included_index: s.last_included_index,
        last_included_term: s.last_included_term,
        membership: s.membership,
        state: S::captured(s.state),
    }
}

/// The files, by the state that their snapshot captures.
pub open spec fn files_of<S: StateMachine>(d: Durable<S::Payload>) -> Durable<S::State> {
    Durable {
        hard_state: d.hard_state,
        snapshot: match d.snapshot {
            Some(s) => Some(snapshot_of::<S>(s)),
            None => None,
        },
        log: d.log,
    }
}

/// A disk write, by the state that its snapshot captures.
pub open spec fn write_of<S: StateMachine>(w: WriteModel<S::Payload>) -> WriteModel<S::State> {
    match w {
        WriteModel::HardState(hs) => WriteModel::HardState(hs),
        WriteModel::AppendLog(entries) => WriteModel::AppendLog(entries),
        WriteModel::Snapshot(snapshot) => WriteModel::Snapshot(snapshot_of::<S>(snapshot)),
        WriteModel::RewriteLog(entries) => WriteModel::RewriteLog(entries),
        WriteModel::TrimLog(len) => WriteModel::TrimLog(len),
    }
}

/// Disk writes, by the states that their snapshots capture.
pub open spec fn writes_of<S: StateMachine>(ws: Seq<WriteModel<S::Payload>>) -> Seq<
    WriteModel<S::State>,
> {
    ws.map_values(|w: WriteModel<S::Payload>| write_of::<S>(w))
}

/// An InstallSnapshot, by the state that its snapshot captures.
pub open spec fn install_of<S: StateMachine>(args: InstallModel<S::Payload>) -> InstallModel<
    S::State,
> {
    InstallModel {
        term: args.term,
        leader_id: args.leader_id,
        snapshot: snapshot_of::<S>(args.snapshot),
    }
}

/// A request, by the state that its snapshot captures.
pub open spec fn request_of<S: StateMachine>(request: RequestModel<S::Payload>) -> RequestModel<
    S::State,
> {
    match request {
        RequestModel::RequestVote(args) => RequestModel::RequestVote(args),
        RequestModel::AppendEntries(args) => RequestModel::AppendEntries(args),
        RequestModel::PreVote(args) => RequestModel::PreVote(args),
        RequestModel::InstallSnapshot(args) => RequestModel::InstallSnapshot(
            install_of::<S>(args),
        ),
        RequestModel::SnapshotChunk(args) => RequestModel::SnapshotChunk(args),
    }
}

/// An effect, by what it means.
pub open spec fn effect_of<S: StateMachine>(effect: Effect<S::Payload>) -> EffectModel<S::State> {
    match effect {
        Effect::Send { to, request, tag } => EffectModel::Send {
            to,
            request: request_of::<S>(request@),
            tag,
        },
        Effect::Resolve { ticket, committed } => EffectModel::Resolve { ticket, committed },
        Effect::DropProposal { ticket } => EffectModel::DropProposal { ticket },
        Effect::GrantRead { ticket } => EffectModel::GrantRead { ticket },
        Effect::DropRead { ticket } => EffectModel::DropRead { ticket },
        Effect::Assembled { transfer, bytes } => EffectModel::Assembled { transfer, bytes: bytes@ },
    }
}

/// Effects, by what they mean.
pub open spec fn effects_of<S: StateMachine>(effects: Seq<Effect<S::Payload>>) -> Seq<
    EffectModel<S::State>,
> {
    effects.map_values(|e: Effect<S::Payload>| effect_of::<S>(e))
}

/// Tests that agree everywhere filter a sequence alike.
proof fn lemma_same_test(ids: Seq<NodeId>, a: spec_fn(NodeId) -> bool, b: spec_fn(NodeId) -> bool)
    requires
        forall|id: NodeId| #[trigger] a(id) == b(id),
    ensures
        ids.filter(a) == ids.filter(b),
    decreases ids.len(),
{
    reveal(Seq::filter);
    if ids.len() > 0 {
        lemma_same_test(ids.drop_last(), a, b);
        assert(a(ids.last()) == b(ids.last()));
    }
}

/// A node, with the state machine it drives.
#[verifier::reject_recursive_types(S)]
pub struct RaftNode<S: StateMachine> {
    config: RaftConfig,
    storage: Storage<S::Payload>,
    state_machine: S,
    origin: Ghost<S::State>,
    /// The configuration that holds until the log sets one.
    bootstrap: Arc<Membership>,
    /// The configuration in effect.
    membership: Arc<Membership>,
    /// Its members' ids.
    members: Vec<NodeId>,
    role: Role,
    leader_id: Option<NodeId>,
    /// Volatile; re-learned from the leader (or majority) after restart.
    commit_index: LogIndex,
    /// Everything up to here has been applied to the state machine.
    last_applied: LogIndex,
    /// The state captured for the next compaction, and its index.
    captured: Option<(LogIndex, S::Payload)>,
    /// The snapshot that is coming in, in chunks. Volatile.
    incoming: Assembly,
    /// Local proposals awaiting their commit outcome. Survives step-down (a
    /// deposed leader's entry may still commit under its successor).
    pending: Vec<PendingProposal>,
    /// When the last valid AppendEntries (current-or-higher term) arrived.
    /// Volatile: a restarted node grants pre-votes again.
    last_leader_contact: Option<u64>,
    election_deadline: u64,
    next_heartbeat: u64,
    rng: SplitMix64,
    effects: Vec<Effect<S::Payload>>,
}

impl<S: StateMachine> View for RaftNode<S> {
    type V = NodeModel<S>;

    closed spec fn view(&self) -> NodeModel<S> {
        NodeModel {
            settings: self.config.settings(self.bootstrap),
            files: files_of::<S>(self.storage@),
            writes: writes_of::<S>(self.storage.pending()),
            state: self.state_machine.state(),
            origin: self.origin@,
            role: self.role.model(),
            leader_id: self.leader_id,
            commit_index: self.commit_index,
            last_applied: self.last_applied,
            captured: match self.captured {
                Some((index, payload)) => Some(
                    CaptureModel { index, state: S::captured(payload) },
                ),
                None => None,
            },
            incoming: self.incoming@,
            pending: self.pending@,
            last_leader_contact: self.last_leader_contact,
            election_deadline: self.election_deadline,
            next_heartbeat: self.next_heartbeat,
            rng: self.rng@,
            effects: effects_of::<S>(self.effects@),
        }
    }
}

impl<S: StateMachine> RaftNode<S> {
    /// The parts are in order.
    pub closed spec fn sound(&self) -> bool {
        &&& self.storage.wf()
        &&& self.state_machine.valid()
        &&& self.role.wf()
        &&& self.membership == self@.membership()
        &&& self.members@ == self@.members()
    }

    /// The node's invariant.
    pub open spec fn wf(&self) -> bool {
        self.sound() && self@.settled()
    }

    // ---- helpers ----

    fn current_term(&self) -> (term: Term)
        ensures
            term == self@.term(),
    {
        self.storage.hard_state().current_term
    }

    /// Whether this node leads its current term.
    pub fn is_leader(&self) -> (leads: bool)
        ensures
            leads == self@.is_leader(),
    {
        match self.role {
            Role::Leader(_) => true,
            _ => false,
        }
    }

    fn role_kind(&self) -> (kind: RoleKind)
        ensures
            kind == match self@.role {
                RoleModel::Follower => RoleKind::Follower,
                RoleModel::PreCandidate { .. } => RoleKind::PreCandidate,
                RoleModel::Candidate { .. } => RoleKind::Candidate,
                RoleModel::Leader(_) => RoleKind::Leader,
            },
    {
        match self.role {
            Role::Follower => RoleKind::Follower,
            Role::PreCandidate { .. } => RoleKind::PreCandidate,
            Role::Candidate { .. } => RoleKind::Candidate,
            Role::Leader(_) => RoleKind::Leader,
        }
    }

    /// Votes needed to win: strict majority of the full cluster.
    fn majority(&self) -> (votes: usize)
        requires
            self.sound(),
        ensures
            votes == self@.majority(),
            votes >= 1,
    {
        self.members.len() / 2 + 1
    }

    /// Whether this node is a member of the configuration in effect.
    fn is_member(&self) -> (member: bool)
        requires
            self.sound(),
        ensures
            member == self@.is_member(),
    {
        self.has_member(self.config.id)
    }

    /// Whether `id` is a member.
    fn has_member(&self, id: NodeId) -> (member: bool)
        requires
            self.sound(),
        ensures
            member == self@.members().contains(id),
    {
        let mut i: usize = 0;
        while i < self.members.len()
            invariant
                i <= self.members.len(),
                self.sound(),
                forall|j: int| 0 <= j < i ==> self.members@[j] != id,
            decreases self.members.len() - i,
        {
            if self.members[i] == id {
                assert(self.members@[i as int] == id);
                assert(self.members@.contains(id));
                return true;
            }
            i += 1;
        }
        false
    }

    /// The other members, in order.
    fn peer_ids(&self) -> (peers: Vec<NodeId>)
        requires
            self.sound(),
        ensures
            peers@ == self@.peers(),
    {
        let own: u64 = self.config.id;
        let ghost other = |id: NodeId| id != self@.settings.id;
        let mut peers: Vec<NodeId> = Vec::new();
        let mut i: usize = 0;
        proof {
            reveal(Seq::filter);
        }
        while i < self.members.len()
            invariant
                i <= self.members.len(),
                own == self@.settings.id,
                other == (|id: NodeId| id != self@.settings.id),
                peers@ == self.members@.take(i as int).filter(other),
            decreases self.members.len() - i,
        {
            proof {
                reveal(Seq::filter);
                assert(self.members@.take(i + 1).drop_last() =~= self.members@.take(i as int));
            }
            if self.members[i] != own {
                peers.push(self.members[i]);
            }
            i += 1;
        }
        assert(self.members@.take(self.members.len() as int) =~= self.members@);
        peers
    }

    /// Whether a majority of the members is among `votes`.
    fn wins(&self, votes: &VoteSet) -> (wins: bool)
        requires
            self.sound(),
        ensures
            wins == self@.majority_of(|id: NodeId| votes@.contains(id)),
    {
        let ghost test = |id: NodeId| votes@.contains(id);
        let mut count: usize = 0;
        let mut i: usize = 0;
        proof {
            reveal(Seq::filter);
        }
        while i < self.members.len()
            invariant
                i <= self.members.len(),
                count <= i,
                test == (|id: NodeId| votes@.contains(id)),
                count == self.members@.take(i as int).filter(test).len(),
            decreases self.members.len() - i,
        {
            proof {
                reveal(Seq::filter);
                assert(self.members@.take(i + 1).drop_last() =~= self.members@.take(i as int));
            }
            if votes.contains(self.members[i]) {
                count += 1;
            }
            i += 1;
        }
        assert(self.members@.take(self.members.len() as int) =~= self.members@);
        count >= self.majority()
    }

    /// Whether a majority of the members has acknowledged this leadership at
    /// `seq` or later.
    fn acked_by_majority(&self, leader: &LeaderState, seq: u64) -> (acked: bool)
        requires
            self.sound(),
            leader.wf(),
        ensures
            acked == self@.majority_of(
                |id: NodeId| self@.acked(leader.model().acked_seq, seq, id),
            ),
    {
        let ghost test = |id: NodeId| self@.acked(leader.model().acked_seq, seq, id);
        let mut count: usize = 0;
        let mut i: usize = 0;
        proof {
            reveal(Seq::filter);
        }
        while i < self.members.len()
            invariant
                i <= self.members.len(),
                count <= i,
                leader.wf(),
                test == (|id: NodeId| self@.acked(leader.model().acked_seq, seq, id)),
                count == self.members@.take(i as int).filter(test).len(),
            decreases self.members.len() - i,
        {
            proof {
                reveal(Seq::filter);
                assert(self.members@.take(i + 1).drop_last() =~= self.members@.take(i as int));
            }
            let id: u64 = self.members[i];
            let counts = id == self.config.id || match leader.acked_seq.get(id) {
                Some(at) => at >= seq,
                None => false,
            };
            assert(counts == test(id));
            if counts {
                count += 1;
            }
            i += 1;
        }
        assert(self.members@.take(self.members.len() as int) =~= self.members@);
        count >= self.majority()
    }

    /// How many of `ids` were heard from within the longest election timeout,
    /// this node always counted.
    fn count_heard(&self, leader: &LeaderState, ids: &Vec<NodeId>, now: u64) -> (count: usize)
        requires
            leader.wf(),
        ensures
            count == ids@.filter(|id: NodeId| self@.heard(leader.model(), now, id)).len(),
    {
        let ghost test = |id: NodeId| self@.heard(leader.model(), now, id);
        let mut count: usize = 0;
        let mut i: usize = 0;
        proof {
            reveal(Seq::filter);
        }
        while i < ids.len()
            invariant
                i <= ids.len(),
                count <= i,
                leader.wf(),
                test == (|id: NodeId| self@.heard(leader.model(), now, id)),
                count == ids@.take(i as int).filter(test).len(),
            decreases ids.len() - i,
        {
            proof {
                reveal(Seq::filter);
                assert(ids@.take(i + 1).drop_last() =~= ids@.take(i as int));
            }
            let id: u64 = ids[i];
            let counts = id == self.config.id || match leader.last_contact.get(id) {
                Some(at) => now.saturating_sub(at) < self.config.election_timeout_max,
                None => false,
            };
            assert(counts == test(id));
            if counts {
                count += 1;
            }
            i += 1;
        }
        assert(ids@.take(ids.len() as int) =~= ids@);
        count
    }

    /// Whether some configuration in the log has not committed.
    fn change_in_flight(&self) -> (waiting: bool)
        requires
            self.sound(),
            self@.inv(),
        ensures
            waiting == self@.change_in_flight(),
    {
        let entries = self.storage.entries();
        let start: u64 = self.commit_index - self.storage.snapshot_index();
        assert(start <= entries.len());
        let mut i: usize = start as usize;
        while i < entries.len()
            invariant
                start <= i <= entries.len(),
                entries@ == self@.files.log,
                start == self@.commit_index - self@.files.snapshot_index(),
                forall|j: int|
                    #![trigger self@.files.log[j]]
                    start <= j < i ==> config_of(self@.files.log[j]) is None,
            decreases entries.len() - i,
        {
            assert(entries@[i as int] == self@.files.log[i as int]);
            if let Command::ConfigChange { .. } = &entries[i].command {
                return true;
            }
            i += 1;
        }
        false
    }

    /// Adopts a configuration.
    fn adopt(&mut self, members: Arc<Membership>)
        ensures
            final(self).storage == old(self).storage,
            final(self).state_machine == old(self).state_machine,
            final(self).role == old(self).role,
            final(self)@ == old(self)@,
            final(self).membership == members,
            final(self).members@ == members.ids(),
    {
        self.members = members.to_ids();
        self.membership = members;
    }

    /// Works out the configuration in effect anew.
    fn refresh_membership(&mut self)
        ensures
            final(self).storage == old(self).storage,
            final(self).state_machine == old(self).state_machine,
            final(self).role == old(self).role,
            final(self)@ == old(self)@,
            final(self).membership == old(self)@.membership(),
            final(self).members@ == old(self)@.members(),
    {
        let members = match self.storage.membership() {
            Some(members) => members,
            None => share(&self.bootstrap),
        };
        assert(members == self@.membership()) by {
            assert(self@.files.log.take(self@.files.log.len() as int) =~= self@.files.log);
        }
        self.adopt(members);
    }

    /// Adds one effect.
    fn emit(&mut self, effect: Effect<S::Payload>)
        requires
            old(self).sound(),
        ensures
            final(self).sound(),
            final(self)@ == old(self)@.emit(seq![effect_of::<S>(effect)]),
    {
        self.effects.push(effect);
        assert(self@.effects =~= old(self)@.effects + seq![effect_of::<S>(effect)]);
        assert(self@ =~= old(self)@.emit(seq![effect_of::<S>(effect)]));
    }

    /// Changes the durable term and vote.
    fn save(&mut self, hs: HardState)
        requires
            old(self).sound(),
        ensures
            final(self).sound(),
            final(self)@ == old(self)@.save(hs),
    {
        let _saved = self.storage.save_hard_state(hs);
        assert(self@.writes =~= old(self)@.writes.push(WriteModel::HardState(hs)));
        assert(self@ =~= old(self)@.save(hs));
    }

    /// Appends entries that continue the log.
    fn append(&mut self, entries: &[LogEntry])
        requires
            old(self).sound(),
            numbered_from(entries@, old(self)@.files.last_index() + 1),
            old(self)@.files.last_index() + entries.len() <= u64::MAX,
        ensures
            final(self).sound(),
            final(self)@ == old(self)@.append(entries@),
    {
        let _appended = self.storage.append(entries);
        proof {
            if let Err(_) = _appended {
                let i = choose|i: int|
                    #![trigger entries[i]]
                    0 <= i < entries.len() && entries[i].index != old(self)@.files.last_index() + 1
                        + i;
                assert(entries[i].index == old(self)@.files.last_index() + 1 + i);
            }
        }
        if entries.len() == 0 {
            assert(self@.files.log =~= old(self)@.files.log);
            assert(self@ =~= old(self)@.append(entries@));
            return;
        }
        assert(self@.writes =~= old(self)@.writes.push(WriteModel::AppendLog(entries@)));
        assert(self@ =~= old(self)@.append(entries@));
        proof {
            let before = old(self)@.files.log;
            last_config_of_parts(before, entries@);
            assert(before.take(before.len() as int) =~= before);
            let after = self@.files.log;
            assert(after.take(after.len() as int) =~= after);
            assert(entries@.take(entries.len() as int) =~= entries@);
        }
        // A configuration is in effect from the moment it is appended.
        if let Some(members) = find_last_config(entries, entries.len()) {
            self.adopt(members);
        }
    }

    fn reset_election_timer(&mut self, now: u64)
        requires
            old(self).sound(),
            old(self)@.settings.election_timeout_min <= old(self)@.settings.election_timeout_max,
            now + old(self)@.settings.election_timeout_max <= u64::MAX,
        ensures
            final(self).sound(),
            final(self)@ == old(self)@.reset_timer(now),
    {
        let min: u64 = self.config.election_timeout_min;
        let max: u64 = self.config.election_timeout_max;
        let timeout: u64 = self.rng.next_range(std::ops::RangeInclusive::new(min, max));
        self.election_deadline = now + timeout;
        assert(self@ =~= old(self)@.reset_timer(now));
    }

    /// Takes the role out, leaving a follower behind.
    fn take_role(&mut self) -> (role: Role)
        requires
            old(self).sound(),
        ensures
            final(self).sound(),
            role.wf(),
            role.model() == old(self)@.role,
            final(self)@ == (NodeModel { role: RoleModel::Follower, ..old(self)@ }),
    {
        let mut role = Role::Follower;
        std::mem::swap(&mut self.role, &mut role);
        role
    }

    /// Puts a role in.
    fn set_role(&mut self, role: Role)
        requires
            old(self).sound(),
            role.wf(),
        ensures
            final(self).sound(),
            final(self)@ == (NodeModel { role: role.model(), ..old(self)@ }),
    {
        self.role = role;
    }

    // ---- role transitions ----

    fn become_follower(&mut self, term: Term, leader_id: Option<NodeId>, now: u64)
        requires
            old(self).sound(),
            term >= old(self)@.term(),
            old(self)@.settings.election_timeout_min <= old(self)@.settings.election_timeout_max,
            now + old(self)@.settings.election_timeout_max <= u64::MAX,
        ensures
            final(self).sound(),
            final(self)@ == old(self)@.become_follower(term, leader_id, now),
    {
        if term > self.current_term() {
            self.save(HardState { current_term: term, voted_for: None });
        }
        // Replacing the role gives up any pending reads: their waiters get an
        // error, never a hang or a stale value.
        let ghost adopted = self@;
        let role = self.take_role();
        let ghost dropped = old(self)@.dropped_reads();
        match role {
            Role::Leader(leader) => {
                let mut i: usize = 0;
                let ghost all = leader.pending_reads@;
                assert(self@ =~= (NodeModel { role: RoleModel::Follower, ..adopted }.emit(
                    dropped.take(0),
                )));
                while i < leader.pending_reads.len()
                    invariant
                        i <= leader.pending_reads.len(),
                        self.sound(),
                        dropped == leader.pending_reads@.map_values(
                            |read: PendingRead|
                                EffectModel::<S::State>::DropRead { ticket: read.ticket },
                        ),
                        self@ == (NodeModel { role: RoleModel::Follower, ..adopted }.emit(
                            dropped.take(i as int),
                        )),
                    decreases leader.pending_reads.len() - i,
                {
                    let ticket: u64 = leader.pending_reads[i].ticket;
                    self.emit(Effect::DropRead { ticket });
                    assert(adopted.effects + dropped.take(i as int) + seq![
                        EffectModel::<S::State>::DropRead { ticket },
                    ] =~= adopted.effects + dropped.take(i + 1));
                    i += 1;
                }
                assert(dropped.take(dropped.len() as int) =~= dropped);
            },
            _ => {
                assert(self@ =~= (NodeModel { role: RoleModel::Follower, ..adopted }.emit(
                    dropped,
                )));
            },
        }
        self.leader_id = leader_id;
        // A deposed leader or candidate waits a full randomized timeout before
        // running again.
        self.reset_election_timer(now);
        assert(self@ =~= old(self)@.become_follower(term, leader_id, now));
    }

    // ---- applying committed entries ----

    /// Settles proposal waiters: `true` once committed (and, via
    /// [`Self::apply_committed`]'s ordering, already applied locally),
    /// `false` if the entry was replaced and can never commit.
    fn resolve_pending(&mut self)
        requires
            old(self).sound(),
        ensures
            final(self).sound(),
            final(self)@ == old(self)@.resolve_pending(),
    {
        let ghost start = old(self)@;
        let ghost undecided = |p: PendingProposal| !start.decided(p);
        let ghost known = |p: PendingProposal| start.decided(p);
        let ghost verdicts = |p: PendingProposal| start.verdict(p);
        let mut waiting: Vec<PendingProposal> = Vec::new();
        std::mem::swap(&mut self.pending, &mut waiting);
        let mut i: usize = 0;
        proof {
            reveal(Seq::filter);
            assert(waiting@.take(0).filter(known).map_values(verdicts) =~= Seq::empty());
            assert(self@ =~= NodeModel {
                pending: waiting@.take(0).filter(undecided),
                ..start
            }.emit(waiting@.take(0).filter(known).map_values(verdicts)));
        }
        while i < waiting.len()
            invariant
                i <= waiting.len(),
                self.sound(),
                undecided == (|p: PendingProposal| !start.decided(p)),
                known == (|p: PendingProposal| start.decided(p)),
                verdicts == (|p: PendingProposal| start.verdict(p)),
                waiting@ == start.pending,
                self@ == (NodeModel {
                    pending: waiting@.take(i as int).filter(undecided),
                    ..start
                }.emit(waiting@.take(i as int).filter(known).map_values(verdicts))),
            decreases waiting.len() - i,
        {
            let p: PendingProposal = waiting[i];
            let ghost before = self@;
            proof {
                reveal(Seq::filter);
                let next = waiting@.take(i + 1);
                assert(next.drop_last() =~= waiting@.take(i as int));
                assert(next.last() == p);
            }
            let held = match self.storage.term(p.index) {
                Some(term) => term == p.term,
                None => false,
            };
            if !held {
                self.emit(Effect::Resolve { ticket: p.ticket, committed: false });
                assert(before.effects + seq![
                    EffectModel::<S::State>::Resolve { ticket: p.ticket, committed: false },
                ] =~= start.effects + waiting@.take(i + 1).filter(known).map_values(verdicts));
            } else if self.commit_index >= p.index {
                self.emit(Effect::Resolve { ticket: p.ticket, committed: true });
                assert(before.effects + seq![
                    EffectModel::<S::State>::Resolve { ticket: p.ticket, committed: true },
                ] =~= start.effects + waiting@.take(i + 1).filter(known).map_values(verdicts));
            } else {
                self.pending.push(p);
            }
            i += 1;
        }
        assert(waiting@.take(waiting.len() as int) =~= waiting@);
        assert(self@ =~= start.resolve_pending());
    }

    /// Grants every pending read that is both leadership-confirmed (a
    /// majority answered an AppendEntries sent at seq >= needed_seq) and
    /// applied (last_applied >= read_index). No-op on non-leaders.
    fn resolve_reads(&mut self)
        requires
            old(self).sound(),
        ensures
            final(self).sound(),
            final(self)@ == old(self)@.resolve_reads(),
    {
        let ghost start = old(self)@;
        let last_applied: u64 = self.last_applied;
        let role = self.take_role();
        match role {
            Role::Leader(leader) => {
                let mut leader = leader;
                let ghost was = leader.model();
                let ghost served = |read: PendingRead| start.servable(was.acked_seq, read);
                let ghost kept = |read: PendingRead| !start.servable(was.acked_seq, read);
                let ghost grants = |read: PendingRead|
                    EffectModel::<S::State>::GrantRead { ticket: read.ticket };
                let mut waiting: Vec<PendingRead> = Vec::new();
                std::mem::swap(&mut leader.pending_reads, &mut waiting);
                let mut i: usize = 0;
                let ghost idle = NodeModel { role: RoleModel::Follower, ..start };
                proof {
                    reveal(Seq::filter);
                    assert(waiting@.take(0).filter(served).map_values(grants) =~= Seq::empty());
                    assert(self@ =~= idle.emit(
                        waiting@.take(0).filter(served).map_values(grants),
                    ));
                    assert(leader.pending_reads@ =~= waiting@.take(0).filter(kept));
                }
                while i < waiting.len()
                    invariant
                        i <= waiting.len(),
                        last_applied == start.last_applied,
                        idle == (NodeModel { role: RoleModel::Follower, ..start }),
                        self.sound(),
                        leader.wf(),
                        waiting@ == was.pending_reads,
                        served == (|read: PendingRead| start.servable(was.acked_seq, read)),
                        kept == (|read: PendingRead| !start.servable(was.acked_seq, read)),
                        grants == (|read: PendingRead|
                            EffectModel::<S::State>::GrantRead { ticket: read.ticket }),
                        leader.model() == (LeaderModel {
                            pending_reads: waiting@.take(i as int).filter(kept),
                            ..was
                        }),
                        self@ == idle.emit(
                            waiting@.take(i as int).filter(served).map_values(grants),
                        ),
                    decreases waiting.len() - i,
                {
                    let read: PendingRead = waiting[i];
                    let ghost before = self@;
                    proof {
                        reveal(Seq::filter);
                        let next = waiting@.take(i + 1);
                        assert(next.drop_last() =~= waiting@.take(i as int));
                        assert(next.last() == read);
                    }
                    let confirmed = self.acked_by_majority(&leader, read.needed_seq);
                    proof {
                        let seq = read.needed_seq;
                        let here = |id: NodeId| self@.acked(was.acked_seq, seq, id);
                        let there = |id: NodeId| start.acked(was.acked_seq, seq, id);
                        assert forall|id: NodeId| #[trigger] here(id) == there(id) by {}
                        lemma_same_test(start.members(), here, there);
                    }
                    if confirmed && last_applied >= read.read_index {
                        assert(served(read));
                        self.emit(Effect::GrantRead { ticket: read.ticket });
                        assert(before.effects + seq![
                            EffectModel::<S::State>::GrantRead { ticket: read.ticket },
                        ] =~= start.effects + waiting@.take(i + 1).filter(served).map_values(
                            grants,
                        ));
                    } else {
                        assert(kept(read));
                        leader.pending_reads.push(read);
                    }
                    i += 1;
                }
                assert(waiting@.take(waiting.len() as int) =~= waiting@);
                self.set_role(Role::Leader(leader));
                assert(self@ =~= start.resolve_reads());
            },
            other => {
                self.set_role(other);
                assert(self@ =~= start.resolve_reads());
            },
        }
    }

    /// Captures the state once the applied prefix outgrows
    /// `snapshot_threshold`. Called after every apply batch, so with a fixed
    /// threshold the capture points are a pure function of the applied log.
    /// Always at `last_applied`: commit_index may run ahead of what the state
    /// machine actually contains.
    fn maybe_capture(&mut self)
        requires
            old(self).sound(),
            old(self)@.inv(),
        ensures
            final(self).sound(),
            final(self)@ == old(self)@.maybe_capture(),
    {
        if self.captured.is_some() {
            return;
        }
        let threshold: u64 = match self.config.snapshot_threshold {
            None => {
                return;
            },
            Some(threshold) => if threshold >= 1 {
                threshold
            } else {
                1
            },
        };
        if self.last_applied - self.storage.snapshot_index() < threshold {
            return;
        }
        let state = self.state_machine.snapshot();
        self.captured = Some((self.last_applied, state));
        assert(self@ =~= old(self)@.maybe_capture());
    }

    /// Compacts to the captured state once `last_applied` has moved the
    /// trailing window past it, so that slightly lagging peers still find the
    /// entries they need.
    fn compact_captured(&mut self)
        requires
            old(self).sound(),
            old(self)@.inv(),
        ensures
            final(self).sound(),
            final(self)@ == old(self)@.compact_captured(),
    {
        let index: u64 = match &self.captured {
            Some(capture) => capture.0,
            None => {
                return;
            },
        };
        if self.last_applied - index < self.config.snapshot_trailing {
            return;
        }
        let mut captured: Option<(LogIndex, S::Payload)> = None;
        std::mem::swap(&mut self.captured, &mut captured);
        if let Some((_, state)) = captured {
            let _compacted = self.storage.compact_to(index, state);
            proof {
                let before = old(self)@;
                let capture = before.captured->0;
                assert(old(self).storage@.holds(index as int));
                let after = before.files.compacted(index, capture.state);
                assert(self@.files.log =~= after.log);
                assert(old(self).storage@.membership_through(index as int)
                    == before.files.membership_through(index as int));
                assert(self@.files =~= after);
                assert(self@.writes =~= before.compact_captured().writes);
                assert(self@ =~= before.compact_captured());
                compaction_keeps_the_answers(before.files, index, capture.state);
            }
        }
    }

    /// Captures and compacts where that is due.
    fn maybe_compact(&mut self)
        requires
            old(self).sound(),
            old(self)@.inv(),
        ensures
            final(self).sound(),
            final(self)@ == old(self)@.maybe_compact(),
    {
        proof {
            maybe_compact_keeps(self@);
        }
        self.maybe_capture();
        self.compact_captured();
    }

    /// Applies everything in (last_applied, commit_index] to the state
    /// machine, in log order, then settles proposal waiters.
    fn apply_committed(&mut self)
        requires
            old(self).sound(),
            old(self)@.inv(),
        ensures
            final(self).sound(),
            final(self)@ == old(self)@.apply_committed(),
    {
        let ghost start = old(self)@;
        let ghost first = start.last_applied - start.files.snapshot_index();
        let ghost log = start.files.log;
        assert(log.subrange(first, first) =~= Seq::empty());
        while self.last_applied < self.commit_index
            invariant
                self.sound(),
                start.inv(),
                log == start.files.log,
                first == start.last_applied - start.files.snapshot_index(),
                start.last_applied <= self.last_applied <= self.commit_index,
                self@ == (NodeModel {
                    state: run::<S>(
                        start.state,
                        log.subrange(first, self.last_applied - start.files.snapshot_index()),
                    ),
                    last_applied: self.last_applied,
                    ..start
                }),
            decreases self.commit_index - self.last_applied,
        {
            let ghost done = log.subrange(
                first,
                self.last_applied - start.files.snapshot_index(),
            );
            self.last_applied = self.last_applied + 1;
            assert(self.storage@.holds(self.last_applied as int));
            match self.storage.entry(self.last_applied) {
                Some(entry) => {
                    proof {
                        let next = log.subrange(
                            first,
                            self.last_applied - start.files.snapshot_index(),
                        );
                        assert(next.drop_last() =~= done);
                        assert(next.last() == *entry);
                    }
                    self.state_machine.apply(entry);
                },
                None => {},
            }
        }
        assert(self@ =~= start.apply_backlog());
        proof {
            apply_committed_settles(start);
        }
        self.resolve_pending();
        // last_applied advanced: pending reads may now be servable.
        self.resolve_reads();
        // After resolve_pending, so nothing pending ever sits below the new
        // boundary (its outcome was decidable before the terms vanished).
        self.maybe_compact();
    }

    /// Moves the commit point and applies what that commits.
    fn commit_to(&mut self, index: LogIndex)
        requires
            old(self).sound(),
            old(self)@.inv(),
            old(self)@.commit_index <= index <= old(self)@.files.last_index(),
        ensures
            final(self).sound(),
            final(self)@ == old(self)@.commit_to(index),
    {
        self.commit_index = index;
        proof {
            commit_to_settles(old(self)@, index);
            assert(self@ =~= (NodeModel { commit_index: index, ..old(self)@ }));
        }
        self.apply_committed();
    }

    // ---- leader replication ----

    /// The message that brings `peer` forward: a batch from its next_index on
    /// (an empty one doubles as the heartbeat), or the current snapshot if
    /// that lies at or below the snapshot boundary.
    fn replication(&self, leader: &LeaderState, peer: NodeId) -> (effect: Effect<S::Payload>)
        requires
            self.sound(),
            leader.wf(),
            leader.model().within_log(self@.files.last_index()),
            self@.files.last_index() < u64::MAX,
        ensures
            effect_of::<S>(effect) == self@.replication(leader.model(), peer),
    {
        let next: u64 = match leader.next_index.get(peer) {
            Some(next) => next,
            None => self.storage.last_index() + 1,
        };
        assert(next == lookup(leader.model().next_index, peer, (self@.files.last_index() + 1) as u64));
        let term: u64 = self.current_term();
        // The peer needs entries we compacted away: only a snapshot can catch
        // it up. Re-sent at heartbeat pace while the peer lags; duplicates are
        // no-ops on the follower.
        if let Some(snapshot) = self.storage.snapshot() {
            if next <= snapshot.last_included_index {
                return self.send_install_snapshot(snapshot, peer, term);
            }
        }
        let prev_log_index: u64 = next - 1;
        let prev_log_term: u64 = match self.storage.term(prev_log_index) {
            Some(term) => term,
            None => 0,
        };
        assert(self@.files.term_at(prev_log_index as int) == self.storage@.term_at(
            prev_log_index as int,
        ));
        let tail = self.storage.entries_from(next);
        let count: usize = batch_len(tail, self.config.max_append_bytes);
        let entries = copy_entries(vstd::slice::slice_subrange(tail, 0, count));
        assert(entries@ =~= tail@.take(count as int));
        let sent_entries: u64 = entries.len() as u64;
        let effect = Effect::Send {
            to: peer,
            request: RpcRequest::AppendEntries(
                AppendEntriesArgs {
                    term,
                    leader_id: self.config.id,
                    prev_log_index,
                    prev_log_term,
                    entries,
                    leader_commit: self.commit_index,
                },
            ),
            tag: ReplyTag::Append {
                sent_term: term,
                sent_prev_index: prev_log_index,
                sent_entries,
                sent_seq: leader.heartbeat_seq,
            },
        };
        assert(effect_of::<S>(effect) =~= self@.replication(leader.model(), peer));
        effect
    }

    /// A snapshot, addressed to a peer whose next_index fell at or below its
    /// boundary.
    fn send_install_snapshot(&self, snapshot: &Snapshot<S::Payload>, peer: NodeId, term: Term) -> (
        effect: Effect<S::Payload>)
        ensures
            effect_of::<S>(effect) == (EffectModel::Send {
                to: peer,
                request: RequestModel::InstallSnapshot(
                    InstallModel {
                        term,
                        leader_id: self@.settings.id,
                        snapshot: snapshot_of::<S>(snapshot@),
                    },
                ),
                tag: ReplyTag::InstallSnapshot {
                    sent_term: term,
                    last_included_index: snapshot@.last_included_index,
                },
            }),
    {
        let last_included_index: u64 = snapshot.last_included_index;
        Effect::Send {
            to: peer,
            request: RpcRequest::InstallSnapshot(
                InstallSnapshotArgs {
                    term,
                    leader_id: self.config.id,
                    snapshot: snapshot.clone(),
                },
            ),
            tag: ReplyTag::InstallSnapshot { sent_term: term, last_included_index },
        }
    }

    /// Sends `peer` what it needs next. No-op on non-leaders, and towards
    /// anyone outside the configuration.
    fn send_append(&mut self, peer: NodeId)
        requires
            old(self).sound(),
            old(self)@.inv(),
            old(self)@.files.last_index() < u64::MAX,
        ensures
            final(self).sound(),
            final(self)@ == old(self)@.send_append(peer),
    {
        if peer == self.config.id || !self.has_member(peer) {
            return;
        }
        match &self.role {
            Role::Leader(leader) => {
                let effect = self.replication(leader, peer);
                self.emit(effect);
            },
            _ => {},
        }
    }

    /// Sends every peer what it needs next, in order. No-op on non-leaders.
    fn broadcast(&mut self)
        requires
            old(self).sound(),
            old(self)@.inv(),
            old(self)@.files.last_index() < u64::MAX,
        ensures
            final(self).sound(),
            final(self)@ == old(self)@.broadcast(),
    {
        let ghost start = self@;
        if !self.is_leader() {
            return;
        }
        let ghost all = start.peers().map_values(
            |peer: NodeId| start.replication(start.role->Leader_0, peer),
        );
        let peers = self.peer_ids();
        let mut i: usize = 0;
        assert(self@ =~= start.emit(all.take(0)));
        while i < peers.len()
            invariant
                i <= peers.len(),
                peers@ == start.peers(),
                start.inv(),
                start.files.last_index() < u64::MAX,
                start.role is Leader,
                self.sound(),
                self@ == start.emit(all.take(i as int)),
                all == start.peers().map_values(
                    |peer: NodeId| start.replication(start.role->Leader_0, peer),
                ),
            decreases peers.len() - i,
        {
            let peer: u64 = peers[i];
            proof {
                super::upkeep::peers_are_members(start, i as int);
            }
            self.send_append(peer);
            proof {
                let leader = start.role->Leader_0;
                assert(start.emit(all.take(i as int)).replication(leader, peer)
                    == start.replication(leader, peer));
                assert(all.take(i as int) + seq![start.replication(leader, peer)] =~= all.take(
                    i + 1,
                ));
                assert(start.effects + all.take(i as int) + seq![start.replication(leader, peer)]
                    =~= start.effects + all.take(i + 1));
            }
            i += 1;
        }
        assert(all.take(all.len() as int) =~= all);
        assert(self@ =~= start.broadcast());
    }

    /// Steps down once a configuration that leaves this node out has
    /// committed.
    fn retire(&mut self, now: u64)
        requires
            old(self).sound(),
            old(self)@.inv(),
            now + old(self)@.settings.election_timeout_max <= u64::MAX,
        ensures
            final(self).sound(),
            final(self)@ == old(self)@.retire(now),
    {
        if self.is_leader() && !self.is_member() && !self.change_in_flight() {
            let term: u64 = self.current_term();
            self.become_follower(term, None, now);
        }
    }

    /// Advances commit_index to the highest index replicated on a majority,
    /// but only for entries of the current term (§5.4.2): prior-term entries
    /// commit transitively.
    fn maybe_advance_commit(&mut self, now: u64)
        requires
            old(self).sound(),
            old(self)@.inv(),
            now + old(self)@.settings.election_timeout_max <= u64::MAX,
        ensures
            final(self).sound(),
            final(self)@ == old(self)@.maybe_advance_commit(now),
    {
        if self.members.len() == 0 {
            return;
        }
        let last_index: u64 = self.storage.last_index();
        let candidate: u64 = match &self.role {
            Role::Leader(leader) => {
                let ghost held = |id: NodeId|
                    if id == self@.settings.id {
                        self@.files.last_index() as u64
                    } else {
                        lookup(leader.model().match_index, id, 0)
                    };
                let mut replicated: Vec<u64> = Vec::new();
                let mut i: usize = 0;
                while i < self.members.len()
                    invariant
                        i <= self.members.len(),
                        leader.wf(),
                        last_index == self@.files.last_index(),
                        held == (|id: NodeId|
                            if id == self@.settings.id {
                                self@.files.last_index() as u64
                            } else {
                                lookup(leader.model().match_index, id, 0)
                            }),
                        replicated@ == self.members@.take(i as int).map_values(held),
                    decreases self.members.len() - i,
                {
                    let id: u64 = self.members[i];
                    // The leader trivially holds its own whole log; it counts
                    // only as long as it is a member.
                    let through: u64 = if id == self.config.id {
                        last_index
                    } else {
                        match leader.match_index.get(id) {
                            Some(index) => index,
                            None => 0,
                        }
                    };
                    assert(through == held(id));
                    replicated.push(through);
                    i += 1;
                    assert(replicated@ =~= self.members@.take(i as int).map_values(held));
                }
                assert(self.members@.take(self.members.len() as int) =~= self.members@);
                assert(replicated@ =~= self@.replicated(leader.model()));
                quorum_index(&replicated, self.majority())
            },
            _ => {
                return;
            },
        };
        if candidate > self.commit_index {
            let current = match self.storage.term(candidate) {
                Some(term) => term == self.current_term(),
                None => false,
            };
            assert(self@.files.term_at(candidate as int) == self.storage@.term_at(
                candidate as int,
            ));
            if current {
                proof {
                    commit_to_settles(self@, candidate);
                }
                self.commit_to(candidate);
                self.retire(now);
            }
        }
    }

    /// Replication pace. CheckQuorum first: a leader that hasn't heard from a
    /// majority (itself plus peers whose last reply is within
    /// election_timeout_max) steps down at its CURRENT term and goes quiet,
    /// letting the reachable side's stickiness expire and elect.
    fn on_heartbeat_tick(&mut self, now: u64)
        requires
            old(self).sound(),
            old(self)@.inv(),
            old(self)@.files.last_index() < u64::MAX,
            now + old(self)@.settings.election_timeout_max <= u64::MAX,
            now + old(self)@.settings.heartbeat_interval <= u64::MAX,
        ensures
            final(self).sound(),
            final(self)@ == old(self)@.on_heartbeat_tick(now),
    {
        if let Role::Leader(leader) = &self.role {
            let heard: usize = self.count_heard(leader, &self.members, now);
            if heard < self.majority() {
                let term: u64 = self.current_term();
                self.become_follower(term, None, now);
                return;
            }
        }
        self.broadcast();
        self.next_heartbeat = now + self.config.heartbeat_interval;
        assert(self@ =~= old(self)@.on_heartbeat_tick(now));
    }

    // ---- elections ----

    /// The vote request that this node's log supports for `term`.
    fn ballot(&self, term: Term) -> (args: RequestVoteArgs)
        requires
            self.sound(),
        ensures
            args == self@.ballot(term),
    {
        RequestVoteArgs {
            term,
            candidate_id: self.config.id,
            last_log_index: self.storage.last_index(),
            last_log_term: self.storage.last_term(),
        }
    }

    fn maybe_become_leader(&mut self, now: u64)
        requires
            old(self).sound(),
            old(self)@.settled(),
            old(self)@.files.last_index() + 2 < u64::MAX,
            now + old(self)@.settings.election_timeout_max <= u64::MAX,
            now + old(self)@.settings.heartbeat_interval <= u64::MAX,
        ensures
            final(self).sound(),
            final(self)@ == old(self)@.maybe_become_leader(now),
    {
        let won = match &self.role {
            Role::Candidate { votes } => self.wins(votes),
            _ => false,
        };
        if !won {
            return;
        }
        let term: u64 = self.current_term();
        // next_index points at the pre-no-op tail so the no-op ships in the
        // very first heartbeat without a backtracking round-trip.
        let next: u64 = self.storage.last_index() + 1;
        let peers = self.peer_ids();
        let leader = LeaderState {
            next_index: PeerTable::filled(&peers, next),
            match_index: PeerTable::filled(&peers, 0),
            term_start_index: next,
            heartbeat_seq: 0,
            acked_seq: PeerTable::new(),
            last_contact: PeerTable::filled(&peers, now),
            pending_reads: Vec::new(),
        };
        assert(leader.model() =~= old(self)@.fresh_leader(now));
        self.set_role(Role::Leader(leader));
        self.leader_id = Some(self.config.id);
        // §8: commit a no-op at the start of the term. Under the §5.4.2 rule
        // this is what lets prior-term entries commit promptly even with no
        // client traffic.
        let noop = LogEntry { term, index: next, command: Command::Noop };
        let mut batch: Vec<LogEntry> = Vec::new();
        batch.push(noop);
        assert(batch@ =~= seq![old(self)@.noop()]);
        proof {
            become_leader_keeps(old(self)@, now);
            assert(self@ =~= (NodeModel {
                role: RoleModel::Leader(old(self)@.fresh_leader(now)),
                leader_id: Some(old(self)@.settings.id),
                ..old(self)@
            }));
        }
        self.append(batch.as_slice());
        proof {
            maybe_advance_commit_keeps(self@, now);
        }
        // A single-node cluster commits it immediately.
        self.maybe_advance_commit(now);
        // Assert authority immediately; also schedules the next heartbeat.
        self.on_heartbeat_tick(now);
    }

    /// The real election (§5.2): durably bump the term with a self-vote and
    /// solicit binding votes. Reached only through a pre-vote majority.
    fn start_election(&mut self, now: u64)
        requires
            old(self).sound(),
            old(self)@.settled(),
            old(self)@.term() < u64::MAX,
            old(self)@.files.last_index() + 2 < u64::MAX,
            now + old(self)@.settings.election_timeout_max <= u64::MAX,
            now + old(self)@.settings.heartbeat_interval <= u64::MAX,
        ensures
            final(self).sound(),
            final(self)@ == old(self)@.start_election(now),
    {
        let ghost start = self@;
        let term: u64 = self.current_term() + 1;
        let args = self.ballot(term);
        self.save(HardState { current_term: term, voted_for: Some(self.config.id) });
        self.set_role(Role::Candidate { votes: VoteSet::of(self.config.id) });
        self.leader_id = None;
        self.reset_election_timer(now);
        let ghost quiet = self@;
        let ghost calls = start.peers().map_values(
            |peer: NodeId|
                EffectModel::<S::State>::Send {
                    to: peer,
                    request: RequestModel::RequestVote(args),
                    tag: ReplyTag::Vote { sent_term: term },
                },
        );
        let peers = self.peer_ids();
        let mut i: usize = 0;
        assert(self@ =~= quiet.emit(calls.take(0)));
        while i < peers.len()
            invariant
                i <= peers.len(),
                self.sound(),
                peers@ == start.peers(),
                calls == start.peers().map_values(
                    |peer: NodeId|
                        EffectModel::<S::State>::Send {
                            to: peer,
                            request: RequestModel::RequestVote(args),
                            tag: ReplyTag::Vote { sent_term: term },
                        },
                ),
                self@ == quiet.emit(calls.take(i as int)),
            decreases peers.len() - i,
        {
            let peer: u64 = peers[i];
            self.emit(
                Effect::Send {
                    to: peer,
                    request: RpcRequest::RequestVote(args),
                    tag: ReplyTag::Vote { sent_term: term },
                },
            );
            assert(quiet.effects + calls.take(i as int) + seq![calls[i as int]]
                =~= quiet.effects + calls.take(i + 1));
            i += 1;
        }
        proof {
            assert(calls.take(calls.len() as int) =~= calls);
            assert(self@ =~= start.candidacy(now));
            candidacy_keeps(start, now);
        }
        // A single-node cluster wins its election immediately.
        self.maybe_become_leader(now);
    }

    /// Promotes a pre-candidate holding a pre-vote majority to a real
    /// candidacy. No-op otherwise.
    fn maybe_start_election(&mut self, now: u64)
        requires
            old(self).sound(),
            old(self)@.settled(),
            old(self)@.term() < u64::MAX,
            old(self)@.files.last_index() + 2 < u64::MAX,
            now + old(self)@.settings.election_timeout_max <= u64::MAX,
            now + old(self)@.settings.heartbeat_interval <= u64::MAX,
        ensures
            final(self).sound(),
            final(self)@ == old(self)@.maybe_start_election(now),
    {
        let won = match &self.role {
            Role::PreCandidate { votes } => self.wins(votes),
            _ => false,
        };
        if won {
            self.start_election(now);
        }
    }

    /// Election timeout → pre-campaign (§9.6): probe for a pre-vote majority
    /// at the prospective term `current_term + 1`. Nothing is persisted and
    /// our own term does not move; only a majority of grants starts the real
    /// election.
    pub fn on_election_timeout(&mut self, now: u64)
        requires
            old(self).wf(),
            old(self)@.room(now),
        ensures
            final(self).wf(),
            final(self)@ == old(self)@.on_election_timeout(now),
    {
        let ghost start = self@;
        if !self.is_member() {
            // Outside the configuration: a joiner, or a removed server.
            self.reset_election_timer(now);
            return;
        }
        let prospective: u64 = self.current_term() + 1;
        let args = self.ballot(prospective);
        self.set_role(Role::PreCandidate { votes: VoteSet::of(self.config.id) });
        self.leader_id = None;
        // Re-arm so a failed pre-campaign retries; one draw per timeout.
        self.reset_election_timer(now);
        let ghost quiet = self@;
        let ghost calls = start.peers().map_values(
            |peer: NodeId|
                EffectModel::<S::State>::Send {
                    to: peer,
                    request: RequestModel::PreVote(args),
                    tag: ReplyTag::PreVote { sent_term: prospective },
                },
        );
        let peers = self.peer_ids();
        let mut i: usize = 0;
        assert(self@ =~= quiet.emit(calls.take(0)));
        while i < peers.len()
            invariant
                i <= peers.len(),
                self.sound(),
                peers@ == start.peers(),
                calls == start.peers().map_values(
                    |peer: NodeId|
                        EffectModel::<S::State>::Send {
                            to: peer,
                            request: RequestModel::PreVote(args),
                            tag: ReplyTag::PreVote { sent_term: prospective },
                        },
                ),
                self@ == quiet.emit(calls.take(i as int)),
            decreases peers.len() - i,
        {
            let peer: u64 = peers[i];
            self.emit(
                Effect::Send {
                    to: peer,
                    request: RpcRequest::PreVote(args),
                    tag: ReplyTag::PreVote { sent_term: prospective },
                },
            );
            assert(quiet.effects + calls.take(i as int) + seq![calls[i as int]]
                =~= quiet.effects + calls.take(i + 1));
            i += 1;
        }
        proof {
            assert(calls.take(calls.len() as int) =~= calls);
            assert(self@ =~= start.pre_campaign(now));
            on_election_timeout_keeps(start, now);
        }
        // A single-node cluster is its own pre-vote majority.
        self.maybe_start_election(now);
    }

    // ---- inbound RPCs ----

    /// §5.4.1: whether a candidate's log is at least as up-to-date as ours
    /// (compare last terms, then last indexes).
    fn up_to_date(&self, args: &RequestVoteArgs) -> (fit: bool)
        requires
            self.sound(),
        ensures
            fit == self@.up_to_date(*args),
    {
        let last_term: u64 = self.storage.last_term();
        args.last_log_term > last_term || (args.last_log_term == last_term && args.last_log_index
            >= self.storage.last_index())
    }

    /// §5.2 + the §5.4.1 election restriction. Real votes are not sticky and
    /// adopt higher terms.
    pub fn handle_request_vote(&mut self, args: RequestVoteArgs, now: u64) -> (reply:
        RequestVoteReply)
        requires
            old(self).wf(),
            now + old(self)@.settings.election_timeout_max <= u64::MAX,
        ensures
            final(self).wf(),
            (final(self)@, reply) == old(self)@.on_request_vote(args, now),
    {
        if args.term > self.current_term() {
            // This resets our election timer even if the vote is then
            // refused. PreVote makes that mostly moot: a candidate only gets
            // here after winning a pre-vote round.
            self.become_follower(args.term, None, now);
        }
        let term: u64 = self.current_term();
        if args.term < term {
            return RequestVoteReply { term, vote_granted: false };
        }
        let can_vote = match self.storage.hard_state().voted_for {
            None => true,
            Some(id) => id == args.candidate_id,
        };
        if can_vote && self.up_to_date(&args) {
            self.save(HardState { current_term: term, voted_for: Some(args.candidate_id) });
            self.reset_election_timer(now);
            RequestVoteReply { term, vote_granted: true }
        } else {
            RequestVoteReply { term, vote_granted: false }
        }
    }

    /// PreVote (§9.6): "would you vote for me for `args.term`?". Granted only
    /// if the prospective term is beyond ours, the candidate's log passes the
    /// same §5.4.1 check as a real vote, and we have no reason to believe a
    /// valid leader exists (leader stickiness). Unlike a real vote this
    /// changes nothing, and may be granted to any number of askers.
    pub fn handle_pre_vote(&self, args: RequestVoteArgs, now: u64) -> (reply: RequestVoteReply)
        requires
            self.sound(),
        ensures
            reply == self@.pre_vote_reply(args, now),
    {
        let term: u64 = self.current_term();
        // The leader itself always denies (it IS the valid leader), and
        // everyone it reached within election_timeout_min denies too, so a
        // disruptor can never assemble a majority.
        let leader_is_live = self.is_leader() || match self.last_leader_contact {
            Some(at) => now.saturating_sub(at) < self.config.election_timeout_min,
            None => false,
        };
        let vote_granted = args.term > term && self.up_to_date(&args) && !leader_is_live;
        RequestVoteReply { term, vote_granted }
    }

    /// Follows the leader of `term`, which is ours or a later one.
    fn hear_leader(&mut self, term: Term, leader_id: NodeId, now: u64)
        requires
            old(self).sound(),
            term >= old(self)@.term(),
            old(self)@.settings.election_timeout_min <= old(self)@.settings.election_timeout_max,
            now + old(self)@.settings.election_timeout_max <= u64::MAX,
        ensures
            final(self).sound(),
            final(self)@ == old(self)@.hear_leader(term, leader_id, now),
    {
        self.become_follower(term, Some(leader_id), now);
        // Leader stickiness (§9.6): pre-votes are denied while this is fresh.
        self.last_leader_contact = Some(now);
    }

    /// InstallSnapshot (§7): replaces our compacted-away past with the
    /// leader's snapshot.
    pub fn handle_install_snapshot(
        &mut self,
        args: InstallSnapshotArgs<S::Payload>,
        now: u64,
    ) -> (reply: InstallSnapshotReply)
        requires
            old(self).wf(),
            now + old(self)@.settings.election_timeout_max <= u64::MAX,
        ensures
            final(self).wf(),
            (final(self)@, reply) == old(self)@.on_install_snapshot(install_of::<S>(args@), now),
    {
        proof {
            on_install_snapshot_keeps(self@, install_of::<S>(args@), now);
        }
        let current: u64 = self.current_term();
        if args.term < current {
            return InstallSnapshotReply { term: current };
        }
        self.hear_leader(args.term, args.leader_id, now);
        let ghost heard = self@;
        let term: u64 = self.current_term();
        let boundary: u64 = args.snapshot.last_included_index;
        // Everything through the boundary is already committed here, so
        // re-installing (a duplicated or reordered delivery) would rewind
        // nothing. Success as a no-op: the reply's meaning ("I hold everything
        // through the boundary") is true.
        if boundary <= self.commit_index {
            return InstallSnapshotReply { term };
        }
        let _installed = self.storage.install_snapshot(&args.snapshot);
        self.refresh_membership();
        self.state_machine.restore(&args.snapshot.state);
        self.commit_index = boundary;
        self.last_applied = boundary;
        self.captured = None;
        let ghost bare = self@;
        proof {
            let model = snapshot_of::<S>(args.snapshot@);
            assert(bare.files.log =~= heard.files.installed(model).log);
            assert(bare.files =~= heard.files.installed(model));
            assert(bare.writes =~= heard.writes.push(WriteModel::Snapshot(model)).push(
                WriteModel::RewriteLog(bare.files.log),
            ));
        }
        // Local proposals at or below the boundary are now unverifiable: the
        // compacted history may or may not hold them (their terms are gone).
        // Their waiters get the retryable "unknown" error, never a false
        // "definitely didn't commit".
        self.drop_hidden(boundary);
        // Anything beyond the boundary resolves normally: if the suffix was
        // cleared (divergent), those entries can never commit.
        self.resolve_pending();
        InstallSnapshotReply { term }
    }

    /// A piece of a snapshot (§7 offset/done). Taken in where it continues what
    /// has come in; once the last piece is there, the whole is let out to be
    /// decoded and handed in.
    pub fn handle_snapshot_chunk(&mut self, args: SnapshotChunkArgs, now: u64) -> (reply:
        SnapshotChunkReply)
        requires
            old(self).wf(),
            now + old(self)@.settings.election_timeout_max <= u64::MAX,
        ensures
            final(self).wf(),
            (final(self)@, reply) == old(self)@.on_snapshot_chunk(args@, now),
    {
        proof {
            on_snapshot_chunk_keeps(self@, args@, now);
        }
        let current: u64 = self.current_term();
        let transfer: TransferId = args.transfer;
        if transfer.term < current {
            return SnapshotChunkReply { term: current, received: 0 };
        }
        self.hear_leader(transfer.term, transfer.leader_id, now);
        let term: u64 = self.current_term();
        let taken = self.incoming.take(args);
        let received: u64 = taken.received;
        if let Some(bytes) = taken.whole {
            self.emit(Effect::Assembled { transfer, bytes });
        }
        SnapshotChunkReply { term, received }
    }

    /// Gives up the proposals at or below `boundary`.
    fn drop_hidden(&mut self, boundary: LogIndex)
        requires
            old(self).sound(),
        ensures
            final(self).sound(),
            final(self)@ == old(self)@.drop_hidden(boundary),
    {
        let ghost start = old(self)@;
        let ghost above = |p: PendingProposal| p.index > boundary;
        let ghost hidden = |p: PendingProposal| p.index <= boundary;
        let ghost drops = |p: PendingProposal|
            EffectModel::<S::State>::DropProposal { ticket: p.ticket };
        let mut waiting: Vec<PendingProposal> = Vec::new();
        std::mem::swap(&mut self.pending, &mut waiting);
        let mut i: usize = 0;
        proof {
            reveal(Seq::filter);
            assert(waiting@.take(0).filter(hidden).map_values(drops) =~= Seq::empty());
            assert(self@ =~= NodeModel {
                pending: waiting@.take(0).filter(above),
                ..start
            }.emit(waiting@.take(0).filter(hidden).map_values(drops)));
        }
        while i < waiting.len()
            invariant
                i <= waiting.len(),
                self.sound(),
                above == (|p: PendingProposal| p.index > boundary),
                hidden == (|p: PendingProposal| p.index <= boundary),
                drops == (|p: PendingProposal|
                    EffectModel::<S::State>::DropProposal { ticket: p.ticket }),
                waiting@ == start.pending,
                self@ == (NodeModel {
                    pending: waiting@.take(i as int).filter(above),
                    ..start
                }.emit(waiting@.take(i as int).filter(hidden).map_values(drops))),
            decreases waiting.len() - i,
        {
            let p: PendingProposal = waiting[i];
            let ghost before = self@;
            proof {
                reveal(Seq::filter);
                let next = waiting@.take(i + 1);
                assert(next.drop_last() =~= waiting@.take(i as int));
                assert(next.last() == p);
            }
            if p.index > boundary {
                self.pending.push(p);
            } else {
                self.emit(Effect::DropProposal { ticket: p.ticket });
                assert(before.effects + seq![
                    EffectModel::<S::State>::DropProposal { ticket: p.ticket },
                ] =~= start.effects + waiting@.take(i + 1).filter(hidden).map_values(drops));
            }
            i += 1;
        }
        assert(waiting@.take(waiting.len() as int) =~= waiting@);
        assert(self@ =~= start.drop_hidden(boundary));
    }

    /// Whether an entry is already here: compacted, or held with its term.
    fn has_entry(&self, entry: &LogEntry) -> (here: bool)
        requires
            self.sound(),
        ensures
            here == self@.has_entry(*entry),
    {
        if entry.index <= self.storage.snapshot_index() {
            // Compacted means committed: identical to what we applied.
            return true;
        }
        assert(self@.files.term_at(entry.index as int) == self.storage@.term_at(
            entry.index as int,
        ));
        match self.storage.term(entry.index) {
            Some(term) => term == entry.term,
            None => false,
        }
    }

    /// Where the first entry stands that is not here, if there is one.
    fn first_new(&self, entries: &Vec<LogEntry>) -> (first: Option<usize>)
        requires
            self.sound(),
        ensures
            match first {
                Some(i) => {
                    &&& self@.is_first_new(entries@, i as int)
                    &&& self@.first_new(entries@) == i
                    &&& !self@.has_all(entries@)
                },
                None => self@.has_all(entries@),
            },
    {
        let mut i: usize = 0;
        while i < entries.len()
            invariant
                i <= entries.len(),
                self.sound(),
                forall|j: int| #![trigger entries[j]] 0 <= j < i ==> self@.has_entry(entries[j]),
            decreases entries.len() - i,
        {
            if !self.has_entry(&entries[i]) {
                proof {
                    assert(self@.is_first_new(entries@, i as int));
                    first_new_unique(self@, entries@, i as int);
                }
                return Some(i);
            }
            i += 1;
        }
        None
    }

    /// The log-matching consistency check.
    fn prev_matches(&self, args: &AppendEntriesArgs) -> (matches: bool)
        requires
            self.sound(),
        ensures
            matches == self@.prev_matches(args@),
    {
        assert(self@.files.term_at(args.prev_log_index as int) == self.storage@.term_at(
            args.prev_log_index as int,
        ));
        match self.storage.term(args.prev_log_index) {
            Some(term) => term == args.prev_log_term,
            None => args.prev_log_index < self.storage.snapshot_index(),
        }
    }

    /// Whether an AppendEntries can be taken. One that cannot would break the
    /// log's numbering or drop a committed entry: whoever hands it in stops
    /// the node instead.
    pub fn admits_append(&self, args: &AppendEntriesArgs) -> (admitted: bool)
        requires
            self.wf(),
        ensures
            admitted == self@.admits_append(args@),
    {
        if args.term < self.current_term() || !self.prev_matches(args) {
            return true;
        }
        let len: u64 = args.entries.len() as u64;
        if args.prev_log_index > u64::MAX - len {
            return false;
        }
        let verified: u64 = args.prev_log_index + len;
        let commit: u64 = if args.leader_commit <= verified {
            args.leader_commit
        } else {
            verified
        };
        let last: u64 = self.storage.last_index();
        let first = match self.first_new(&args.entries) {
            None => {
                return commit <= self.commit_index || commit <= last;
            },
            Some(i) => i,
        };
        let index: u64 = args.entries[first].index;
        let held = index <= last;
        assert(held == self@.files.holds(index as int));
        if held && index <= self.commit_index {
            return false;
        }
        if index <= args.prev_log_index || index - args.prev_log_index - 1 > len {
            return false;
        }
        let offset: usize = (index - args.prev_log_index - 1) as usize;
        let kept: u64 = if held {
            index - 1
        } else {
            last
        };
        assert(kept == self@.make_room(args.entries@[first as int]).files.last_index());
        let rest: u64 = len - offset as u64;
        if rest > 0 && rest >= u64::MAX - kept {
            return false;
        }
        let ghost tail = args@.entries.skip(offset as int);
        let mut i: usize = offset;
        while i < args.entries.len()
            invariant
                self.sound(),
                args.term >= self@.term(),
                self@.prev_matches(args@),
                !self@.has_all(args@.entries),
                offset <= i <= args.entries.len() == len,
                offset == self@.offset(args@),
                tail == args@.entries.skip(offset as int),
                kept == self@.make_room(
                    args@.entries[self@.first_new(args@.entries)],
                ).files.last_index(),
                offset < len ==> kept + len - offset < u64::MAX,
                forall|j: int| #![trigger tail[j]] 0 <= j < i - offset ==> tail[j].index == kept + 1 + j,
            decreases args.entries.len() - i,
        {
            assert(tail[i - offset] == args.entries@[i as int]);
            if args.entries[i].index != kept + 1 + (i - offset) as u64 {
                assert(!numbered_from(tail, kept + 1));
                return false;
            }
            i += 1;
        }
        assert(self@.merge(args@).files.last_index() == kept + rest);
        commit <= self.commit_index || commit <= kept + rest
    }

    /// Full §5.3 AppendEntries: consistency check, duplicate-tolerant entry
    /// processing with conflict truncation, and commit advancement.
    pub fn handle_append_entries(&mut self, args: AppendEntriesArgs, now: u64) -> (reply:
        AppendEntriesReply)
        requires
            old(self).wf(),
            old(self)@.admits_append(args@),
            now + old(self)@.settings.election_timeout_max <= u64::MAX,
        ensures
            final(self).wf(),
            (final(self)@, reply) == old(self)@.on_append_entries(args@, now),
    {
        proof {
            on_append_entries_keeps(self@, args@, now);
        }
        let current: u64 = self.current_term();
        if args.term < current {
            return AppendEntriesReply { term: current, success: false };
        }
        // AppendEntries at our term (or above) comes from the legitimate
        // leader of that term: adopt it and (re)become follower. Even a
        // log-mismatch rejection below is contact with a valid leader.
        self.hear_leader(args.term, args.leader_id, now);
        let term: u64 = self.current_term();
        let ghost heard = self@;
        if !self.prev_matches(&args) {
            return AppendEntriesReply { term, success: false };
        }
        proof {
            merge_keeps(heard, args@);
        }
        self.merge(&args);
        // Commit only up to what this RPC verified matches the leader.
        let last_verified: u64 = args.prev_log_index + args.entries.len() as u64;
        let new_commit: u64 = if args.leader_commit <= last_verified {
            args.leader_commit
        } else {
            last_verified
        };
        if new_commit > self.commit_index {
            self.commit_to(new_commit);
        }
        AppendEntriesReply { term, success: true }
    }

    /// Takes over a batch: skip what we already hold (duplicate/reordered
    /// delivery), cut our suffix at the first conflict, then append the rest.
    fn merge(&mut self, args: &AppendEntriesArgs)
        requires
            old(self).sound(),
            old(self)@.inv(),
            !old(self)@.is_leader(),
            old(self)@.takes(args@),
        ensures
            final(self).sound(),
            final(self)@ == old(self)@.merge(args@),
    {
        let ghost start = self@;
        match self.first_new(&args.entries) {
            None => {},
            Some(i) => {
                let index: u64 = args.entries[i].index;
                assert((index <= start.files.last_index()) == start.files.holds(index as int));
                if index <= self.storage.last_index() {
                    proof {
                        truncate_keeps(start, index as int);
                    }
                    let _truncated = self.storage.truncate_from(index);
                    // The dropped suffix may have held the configuration.
                    self.refresh_membership();
                    proof {
                        assert(self@.files =~= start.files.truncated(index as int));
                        assert(self@.writes =~= start.truncate(index as int).writes);
                        assert(self@ =~= start.truncate(index as int));
                    }
                    // Any of our own proposals in the dropped suffix can now
                    // never commit as proposed: tell their waiters.
                    self.resolve_pending();
                }
                assert(self@ == start.make_room(args.entries@[i as int]));
                let offset: usize = (index - args.prev_log_index - 1) as usize;
                let rest = vstd::slice::slice_subrange(
                    args.entries.as_slice(),
                    offset,
                    args.entries.len(),
                );
                assert(rest@ =~= args.entries@.skip(offset as int));
                self.append(rest);
            },
        }
    }

    /// One RPC from a peer, and its answer.
    pub fn handle_inbound(&mut self, request: RpcRequest<S::Payload>, now: u64) -> (response:
        RpcResponse)
        requires
            old(self).wf(),
            now + old(self)@.settings.election_timeout_max <= u64::MAX,
            match request@ {
                RequestModel::AppendEntries(args) => old(self)@.admits_append(args),
                _ => true,
            },
        ensures
            final(self).wf(),
            (final(self)@, response) == old(self)@.on_request(request_of::<S>(request@), now),
    {
        match request {
            RpcRequest::RequestVote(args) => RpcResponse::RequestVote(
                self.handle_request_vote(args, now),
            ),
            RpcRequest::AppendEntries(args) => RpcResponse::AppendEntries(
                self.handle_append_entries(args, now),
            ),
            RpcRequest::PreVote(args) => RpcResponse::PreVote(self.handle_pre_vote(args, now)),
            RpcRequest::InstallSnapshot(args) => RpcResponse::InstallSnapshot(
                self.handle_install_snapshot(args, now),
            ),
            RpcRequest::SnapshotChunk(args) => RpcResponse::SnapshotChunk(
                self.handle_snapshot_chunk(args, now),
            ),
        }
    }

    // ---- client requests ----

    /// What stands against changing the configuration to `proposed`: only one
    /// server at a time, one change at a time, nothing before this term's
    /// no-op commits, never down to nobody, and never to a configuration whose
    /// majority is out of reach (a member not yet added counts as unreachable).
    fn config_fault(&self, leader: &LeaderState, proposed: &Arc<Membership>, now: u64) -> (fault:
        Option<ConfigFault>)
        requires
            self.sound(),
            self@.inv(),
            leader.wf(),
        ensures
            fault == self@.config_fault(leader.model(), *proposed, now),
    {
        if self.commit_index < leader.term_start_index {
            return Some(ConfigFault::NoopUncommitted);
        }
        if self.change_in_flight() {
            return Some(ConfigFault::ChangeInFlight);
        }
        if proposed.len() == 0 {
            return Some(ConfigFault::Empty);
        }
        if !self.membership.is_single_change(proposed) {
            return Some(ConfigFault::NotSingleServer);
        }
        let ids = proposed.to_ids();
        if self.count_heard(leader, &ids, now) < ids.len() / 2 + 1 {
            return Some(ConfigFault::MajorityUnreachable);
        }
        None
    }

    /// Why a write is refused, if it is.
    fn refusal(&self, command: &Command, now: u64) -> (refusal: Option<ProposeError>)
        requires
            self.sound(),
            self@.inv(),
        ensures
            refusal == self@.refusal(*command, now),
    {
        match &self.role {
            Role::Leader(leader) => match command {
                Command::ConfigChange { members } => match self.config_fault(
                    leader,
                    members,
                    now,
                ) {
                    Some(reason) => Some(ProposeError::InvalidConfigChange { reason }),
                    None => None,
                },
                _ => None,
            },
            _ => Some(ProposeError::NotLeader { leader_hint: self.leader_id }),
        }
    }

    /// A write. On success the entry is appended on the leader; `ticket` is
    /// resolved by a later effect. Outcomes may never come while the node is
    /// cut off from a majority: callers own the timeout.
    pub fn handle_propose(&mut self, command: Command, ticket: u64, now: u64) -> (accepted: Result<
        Proposal,
        ProposeError,
    >)
        requires
            old(self).wf(),
            old(self)@.room(now),
        ensures
            final(self).wf(),
            (final(self)@, accepted) == old(self)@.on_propose(command, ticket, now),
    {
        if let Some(e) = self.refusal(&command, now) {
            return Err(e);
        }
        proof {
            on_propose_keeps(self@, command, ticket, now);
        }
        let term: u64 = self.current_term();
        let index: u64 = self.storage.last_index() + 1;
        let mut batch: Vec<LogEntry> = Vec::new();
        batch.push(LogEntry { term, index, command });
        assert(batch@ =~= seq![LogEntry { term, index, command }]);
        proof {
            append_keeps(self@, batch@);
        }
        self.append(batch.as_slice());
        self.pending.push(PendingProposal { term, index, ticket });
        proof {
            assert(self@ =~= old(self)@.accept(command, ticket));
            maybe_advance_commit_keeps(self@, now);
        }
        // A single-node cluster commits immediately; otherwise replicate now.
        self.maybe_advance_commit(now);
        self.broadcast();
        Ok(Proposal { term, index })
    }

    /// Registers a linearizable read (§6.4 ReadIndex). `ticket` is granted
    /// once this node has (a) confirmed it is still leader by hearing from a
    /// majority after the read was registered and (b) applied everything the
    /// read must reflect; it is dropped if leadership is lost first.
    pub fn handle_read(&mut self, ticket: u64) -> (registered: Result<(), ProposeError>)
        requires
            old(self).wf(),
            old(self)@.files.last_index() < u64::MAX,
            old(self)@.role is Leader ==> old(self)@.role->Leader_0.heartbeat_seq < u64::MAX,
        ensures
            final(self).wf(),
            (final(self)@, registered) == old(self)@.on_read(ticket),
    {
        proof {
            on_read_keeps(self@, ticket);
        }
        let ghost start = self@;
        let commit_index: u64 = self.commit_index;
        let role = self.take_role();
        match role {
            Role::Leader(leader) => {
                let mut leader = leader;
                let ghost was = leader.model();
                // §6.4: never serve below this term's no-op.
                let read_index: u64 = if commit_index >= leader.term_start_index {
                    commit_index
                } else {
                    leader.term_start_index
                };
                // Bump before broadcasting: an ack only proves authority as of
                // the seq its RPC was sent with.
                leader.heartbeat_seq = leader.heartbeat_seq + 1;
                let needed_seq: u64 = leader.heartbeat_seq;
                leader.pending_reads.push(PendingRead { needed_seq, read_index, ticket });
                self.set_role(Role::Leader(leader));
                assert(self@ =~= start.register_read(was, ticket));
                self.broadcast();
                // A single-node cluster is its own majority; grant immediately.
                self.resolve_reads();
                Ok(())
            },
            other => {
                self.set_role(other);
                assert(self@ =~= start);
                Err(ProposeError::NotLeader { leader_hint: self.leader_id })
            },
        }
    }

    // ---- timers ----

    /// When the node next wants [`Self::on_timer`] to be called.
    pub fn next_deadline(&self) -> (deadline: u64)
        ensures
            deadline == self@.next_deadline(),
    {
        if self.is_leader() {
            self.next_heartbeat
        } else {
            self.election_deadline
        }
    }

    /// The timer that the role waits for has run out.
    pub fn on_timer(&mut self, now: u64)
        requires
            old(self).wf(),
            old(self)@.room(now),
        ensures
            final(self).wf(),
            final(self)@ == old(self)@.on_timer(now),
    {
        if self.is_leader() {
            self.on_heartbeat_tick(now);
        } else {
            self.on_election_timeout(now);
        }
    }

    // ---- replies ----

    /// The reply to an RPC that went out under `tag`, or its failure. A reply
    /// of the wrong kind counts as none.
    pub fn handle_event(
        &mut self,
        from: NodeId,
        tag: ReplyTag,
        result: Result<RpcResponse, TransportError>,
        now: u64,
    )
        requires
            old(self).wf(),
            old(self)@.room(now),
            old(self)@.issued(tag),
        ensures
            final(self).wf(),
            final(self)@ == old(self)@.on_reply(from, tag, result, now),
    {
        proof {
            on_reply_keeps(self@, from, tag, result, now);
        }
        let response = match result {
            Ok(response) => response,
            Err(_) => {
                return;
            },
        };
        match (tag, response) {
            (ReplyTag::PreVote { sent_term }, RpcResponse::PreVote(reply)) => {
                if reply.term > self.current_term() {
                    // A denial carrying a newer term: adopt it (this is how a
                    // pre-candidate whose term fell behind catches up).
                    self.become_follower(reply.term, None, now);
                } else if sent_term == self.current_term() + 1 && reply.vote_granted {
                    // Only grants for THIS pre-campaign count: the prospective
                    // term is still one beyond our (unmoved) current term.
                    self.count_pre_vote(from, now);
                }
            },
            (ReplyTag::Vote { sent_term }, RpcResponse::RequestVote(reply)) => {
                if reply.term > self.current_term() {
                    self.become_follower(reply.term, None, now);
                } else if sent_term == self.current_term() && reply.vote_granted {
                    self.count_vote(from, now);
                }
            },
            (
                ReplyTag::Append { sent_term, sent_prev_index, sent_entries, sent_seq },
                RpcResponse::AppendEntries(reply),
            ) => {
                if reply.term > self.current_term() {
                    self.become_follower(reply.term, None, now);
                } else if sent_term == self.current_term() && self.is_leader() {
                    self.acknowledge(from, sent_seq, now);
                    if reply.success {
                        self.on_append_accepted(from, sent_prev_index + sent_entries, now);
                    } else {
                        self.on_append_rejected(from, sent_prev_index);
                    }
                    // Acks advanced even if commit didn't: reads may confirm.
                    self.resolve_reads();
                }
            },
            (
                ReplyTag::InstallSnapshot { sent_term, last_included_index },
                RpcResponse::InstallSnapshot(reply),
            ) => {
                if reply.term > self.current_term() {
                    self.become_follower(reply.term, None, now);
                } else if sent_term == self.current_term() && self.is_leader() {
                    self.on_snapshot_installed(from, last_included_index, now);
                }
            },
            (ReplyTag::SnapshotChunk { sent_term }, RpcResponse::SnapshotChunk(reply)) => {
                if reply.term > self.current_term() {
                    self.become_follower(reply.term, None, now);
                } else if sent_term == self.current_term() {
                    self.on_chunk_answered(from, now);
                }
            },
            _ => {},
        }
    }

    /// An answered chunk is contact. No-op on non-leaders.
    fn on_chunk_answered(&mut self, from: NodeId, now: u64)
        requires
            old(self).sound(),
            old(self)@.inv(),
        ensures
            final(self).sound(),
            final(self)@ == old(self)@.on_chunk_answered(from, now),
    {
        let role = self.take_role();
        match role {
            Role::Leader(leader) => {
                let mut leader = leader;
                let ghost was = leader.model();
                leader.last_contact.set(from, now);
                assert(leader.model() =~= LeaderModel {
                    last_contact: was.last_contact.insert(from, now),
                    ..was
                });
                self.set_role(Role::Leader(leader));
                assert(self@ =~= old(self)@.on_chunk_answered(from, now));
            },
            other => {
                self.set_role(other);
                assert(self@ =~= old(self)@);
            },
        }
    }

    /// One more pre-vote; a majority of them starts the real election.
    fn count_pre_vote(&mut self, from: NodeId, now: u64)
        requires
            old(self).sound(),
            old(self)@.settled(),
            old(self)@.term() < u64::MAX,
            old(self)@.files.last_index() + 2 < u64::MAX,
            now + old(self)@.settings.election_timeout_max <= u64::MAX,
            now + old(self)@.settings.heartbeat_interval <= u64::MAX,
        ensures
            final(self).sound(),
            final(self)@ == old(self)@.count_pre_vote(from, now),
    {
        let role = self.take_role();
        match role {
            Role::PreCandidate { votes } => {
                let mut votes = votes;
                votes.insert(from);
                self.set_role(Role::PreCandidate { votes });
                self.maybe_start_election(now);
            },
            other => {
                self.set_role(other);
                assert(self@ =~= old(self)@);
            },
        }
    }

    /// One more vote; a majority of them makes this node leader.
    fn count_vote(&mut self, from: NodeId, now: u64)
        requires
            old(self).sound(),
            old(self)@.settled(),
            old(self)@.files.last_index() + 2 < u64::MAX,
            now + old(self)@.settings.election_timeout_max <= u64::MAX,
            now + old(self)@.settings.heartbeat_interval <= u64::MAX,
        ensures
            final(self).sound(),
            final(self)@ == old(self)@.count_vote(from, now),
    {
        let role = self.take_role();
        match role {
            Role::Candidate { votes } => {
                let mut votes = votes;
                votes.insert(from);
                self.set_role(Role::Candidate { votes });
                self.maybe_become_leader(now);
            },
            other => {
                self.set_role(other);
                assert(self@ =~= old(self)@);
            },
        }
    }

    /// Any reply at our term, success or log-mismatch rejection, acknowledges
    /// our authority as of the RPC's sending (§6.4), and is contact for
    /// CheckQuorum.
    fn acknowledge(&mut self, from: NodeId, sent_seq: u64, now: u64)
        requires
            old(self).sound(),
            old(self)@.is_leader(),
        ensures
            final(self).sound(),
            final(self)@ == old(self)@.with_leader(
                NodeModel::<S>::acknowledge(old(self)@.role->Leader_0, from, sent_seq, now),
            ),
    {
        let role = self.take_role();
        match role {
            Role::Leader(leader) => {
                let mut leader = leader;
                let acked: u64 = match leader.acked_seq.get(from) {
                    Some(seq) => seq,
                    None => 0,
                };
                leader.acked_seq.set(
                    from,
                    if acked >= sent_seq {
                        acked
                    } else {
                        sent_seq
                    },
                );
                leader.last_contact.set(from, now);
                self.set_role(Role::Leader(leader));
                assert(self@ =~= old(self)@.with_leader(
                    NodeModel::<S>::acknowledge(old(self)@.role->Leader_0, from, sent_seq, now),
                ));
            },
            other => {
                self.set_role(other);
            },
        }
    }

    /// The peer confirmed it matches us through `confirmed`; commit what that
    /// makes a majority hold, and keep pushing if the peer is still behind.
    fn on_append_accepted(&mut self, from: NodeId, confirmed: u64, now: u64)
        requires
            old(self).sound(),
            old(self)@.settled(),
            old(self)@.is_leader(),
            confirmed <= old(self)@.files.last_index(),
            old(self)@.files.last_index() < u64::MAX,
            now + old(self)@.settings.election_timeout_max <= u64::MAX,
        ensures
            final(self).sound(),
            final(self)@ == old(self)@.on_append_accepted(
                old(self)@.role->Leader_0,
                from,
                confirmed,
                now,
            ),
    {
        let ghost start = self@;
        let last_index: u64 = self.storage.last_index();
        let mut resend = false;
        let role = self.take_role();
        match role {
            Role::Leader(leader) => {
                let mut leader = leader;
                let ghost was = leader.model();
                let matched: u64 = match leader.match_index.get(from) {
                    Some(index) => index,
                    None => 0,
                };
                // Replies can arrive reordered: only ever move forward.
                if confirmed > matched {
                    leader.match_index.set(from, confirmed);
                    leader.next_index.set(from, confirmed + 1);
                    resend = confirmed < last_index;
                } else {
                    leader.match_index.set(from, matched);
                }
                let ghost moved = leader.model();
                self.set_role(Role::Leader(leader));
                proof {
                    assert(moved =~= if confirmed > matched {
                        LeaderModel {
                            match_index: was.match_index.insert(from, confirmed),
                            next_index: was.next_index.insert(from, (confirmed + 1) as u64),
                            ..was
                        }
                    } else {
                        LeaderModel { match_index: was.match_index.insert(from, matched), ..was }
                    });
                    assert(self@ =~= start.with_leader(moved));
                    assert(self@.inv());
                    maybe_advance_commit_keeps(self@, now);
                }
            },
            other => {
                self.set_role(other);
            },
        }
        self.maybe_advance_commit(now);
        if resend {
            self.send_append(from);
        }
    }

    /// §5.3 backtracking: the peer diverges at or before `sent_prev_index`;
    /// step below it and retry immediately. Stale rejections never undo
    /// progress.
    fn on_append_rejected(&mut self, from: NodeId, sent_prev_index: LogIndex)
        requires
            old(self).sound(),
            old(self)@.settled(),
            old(self)@.is_leader(),
            old(self)@.files.last_index() < u64::MAX,
        ensures
            final(self).sound(),
            final(self)@ == old(self)@.on_append_rejected(
                old(self)@.role->Leader_0,
                from,
                sent_prev_index,
            ),
    {
        let ghost start = self@;
        let role = self.take_role();
        match role {
            Role::Leader(leader) => {
                let mut leader = leader;
                let ghost was = leader.model();
                let next: u64 = match leader.next_index.get(from) {
                    Some(next) => next,
                    None => 1,
                };
                let below: u64 = if sent_prev_index >= 1 {
                    sent_prev_index
                } else {
                    1
                };
                leader.next_index.set(
                    from,
                    if next <= below {
                        next
                    } else {
                        below
                    },
                );
                let ghost moved = leader.model();
                self.set_role(Role::Leader(leader));
                proof {
                    assert(moved =~= LeaderModel {
                        next_index: was.next_index.insert(
                            from,
                            smaller(lookup(was.next_index, from, 1), larger(sent_prev_index, 1)),
                        ),
                        ..was
                    });
                    assert(self@ =~= start.with_leader(moved));
                    assert(self@.inv());
                }
            },
            other => {
                self.set_role(other);
            },
        }
        self.send_append(from);
    }

    /// The follower now holds everything through the boundary (including the
    /// duplicate case, where it already did). Contact, but deliberately not a
    /// read acknowledgement: those stay AppendEntries-seq-tagged only.
    fn on_snapshot_installed(&mut self, from: NodeId, last_included_index: LogIndex, now: u64)
        requires
            old(self).sound(),
            old(self)@.settled(),
            old(self)@.is_leader(),
            last_included_index <= old(self)@.files.last_index(),
            old(self)@.files.last_index() < u64::MAX,
            now + old(self)@.settings.election_timeout_max <= u64::MAX,
        ensures
            final(self).sound(),
            final(self)@ == old(self)@.on_snapshot_installed(
                old(self)@.role->Leader_0,
                from,
                last_included_index,
                now,
            ),
    {
        let ghost start = self@;
        let last_index: u64 = self.storage.last_index();
        let role = self.take_role();
        match role {
            Role::Leader(leader) => {
                let mut leader = leader;
                let ghost was = leader.model();
                leader.last_contact.set(from, now);
                let matched: u64 = match leader.match_index.get(from) {
                    Some(index) => index,
                    None => 0,
                };
                leader.match_index.set(
                    from,
                    if matched >= last_included_index {
                        matched
                    } else {
                        last_included_index
                    },
                );
                let next: u64 = match leader.next_index.get(from) {
                    Some(next) => next,
                    None => 1,
                };
                leader.next_index.set(
                    from,
                    if next >= last_included_index + 1 {
                        next
                    } else {
                        last_included_index + 1
                    },
                );
                let ghost moved = leader.model();
                self.set_role(Role::Leader(leader));
                proof {
                    assert(moved =~= LeaderModel {
                        last_contact: was.last_contact.insert(from, now),
                        match_index: was.match_index.insert(
                            from,
                            larger(lookup(was.match_index, from, 0), last_included_index),
                        ),
                        next_index: was.next_index.insert(
                            from,
                            larger(
                                lookup(was.next_index, from, 1),
                                (last_included_index + 1) as u64,
                            ),
                        ),
                        ..was
                    });
                    assert(self@ =~= start.with_leader(moved));
                    assert(self@.inv());
                    maybe_advance_commit_keeps(self@, now);
                }
            },
            other => {
                self.set_role(other);
            },
        }
        self.maybe_advance_commit(now);
        if last_included_index < last_index {
            self.send_append(from);
        }
    }

    // ---- life cycle ----

    /// Boots a node from its storage. Everything through the snapshot
    /// boundary is committed and applied by definition: the state machine
    /// gets the snapshot before any of the retained log replays, and
    /// commit_index/last_applied start at the boundary (0 without a snapshot).
    pub fn spawn(
        config: RaftConfig,
        storage: Storage<S::Payload>,
        state_machine: S,
        now: u64,
    ) -> (node: Self)
        requires
            storage.wf(),
            state_machine.valid(),
            config.election_timeout_min <= config.election_timeout_max,
            now + config.election_timeout_max <= u64::MAX,
        ensures
            node.wf(),
            config.starts_with(*node@.settings.bootstrap),
            ascending(node@.settings.bootstrap.ids()),
            node@ == NodeModel::<S>::booted(
                config.settings(node@.settings.bootstrap),
                config.timeout_seed,
                files_of::<S>(storage@),
                writes_of::<S>(storage.pending()),
                state_machine.state(),
                now,
            ),
    {
        let ghost origin = state_machine.state();
        let ghost files = files_of::<S>(storage@);
        let snapshot_index: u64 = storage.snapshot_index();
        let mut state_machine = state_machine;
        if let Some(snapshot) = storage.snapshot() {
            state_machine.restore(&snapshot.state);
        }
        let rng = SplitMix64::new(config.timeout_seed);
        let bootstrap = Arc::new(config.bootstrap());
        let membership = share(&bootstrap);
        let mut node = RaftNode {
            config,
            storage,
            state_machine,
            origin: Ghost(origin),
            bootstrap,
            membership,
            members: Vec::new(),
            role: Role::Follower,
            leader_id: None,
            commit_index: snapshot_index,
            last_applied: snapshot_index,
            captured: None,
            incoming: Assembly::new(),
            pending: Vec::new(),
            last_leader_contact: None,
            election_deadline: now,
            next_heartbeat: now,
            rng,
            effects: Vec::new(),
        };
        proof {
            assert(files.log.take(0) =~= Seq::empty());
            assert(node@.effects =~= Seq::empty());
            assert(node@.pending =~= Seq::empty());
        }
        node.refresh_membership();
        node.reset_election_timer(now);
        node
    }

    /// The node's externally visible state.
    pub fn status(&self) -> (status: Status)
        requires
            self.sound(),
        ensures
            status.id == self@.settings.id,
            status.term == self@.term(),
            status.role == match self@.role {
                RoleModel::Follower => RoleKind::Follower,
                RoleModel::PreCandidate { .. } => RoleKind::PreCandidate,
                RoleModel::Candidate { .. } => RoleKind::Candidate,
                RoleModel::Leader(_) => RoleKind::Leader,
            },
            status.leader_id == self@.leader_id,
            status.commit_index == self@.commit_index,
            status.last_log_index == self@.files.last_index(),
    {
        Status {
            id: self.config.id,
            term: self.current_term(),
            role: self.role_kind(),
            leader_id: self.leader_id,
            commit_index: self.commit_index,
            last_log_index: self.storage.last_index(),
        }
    }

    /// The configuration in effect on this node.
    pub fn membership(&self) -> (members: &Arc<Membership>)
        requires
            self.sound(),
        ensures
            *members == self@.membership(),
    {
        &self.membership
    }

    /// The state machine, for local reads.
    pub fn state_machine(&self) -> (machine: &S)
        requires
            self.sound(),
        ensures
            machine.valid(),
            machine.state() == self@.state,
    {
        &self.state_machine
    }

    /// Whether there is room for one more event at time `now`: terms,
    /// indexes, sequence numbers and times have not run out of 64 bits.
    pub fn has_room(&self, now: u64) -> (room: bool)
        requires
            self.sound(),
        ensures
            room == self@.room(now),
    {
        self.current_term() < u64::MAX && self.storage.last_index() < u64::MAX - 2
            && self.config.election_timeout_max <= u64::MAX - now && self.config.heartbeat_interval
            <= u64::MAX - now && match &self.role {
            Role::Leader(leader) => leader.heartbeat_seq < u64::MAX,
            _ => true,
        }
    }

    /// Whether `tag` can be one that this node has handed out. Every tag it
    /// has is one for as long as it runs.
    pub fn has_issued(&self, tag: ReplyTag) -> (issued: bool)
        requires
            self.sound(),
        ensures
            issued == self@.issued(tag),
    {
        match tag {
            ReplyTag::PreVote { .. } => true,
            ReplyTag::Vote { .. } => true,
            ReplyTag::Append { sent_term, sent_prev_index, sent_entries, .. } => {
                self.has_covered(sent_term, sent_prev_index as u128 + sent_entries as u128)
            },
            ReplyTag::InstallSnapshot { sent_term, last_included_index } => {
                self.has_covered(sent_term, last_included_index as u128)
            },
            ReplyTag::SnapshotChunk { .. } => true,
        }
    }

    /// Whether replication through `index` can have been sent at `sent_term`.
    fn has_covered(&self, sent_term: Term, index: u128) -> (covered: bool)
        requires
            self.sound(),
        ensures
            covered == self@.covers(sent_term, index as int),
    {
        let term: u64 = self.current_term();
        if sent_term != term {
            return sent_term < term;
        }
        match &self.role {
            Role::Candidate { .. } => false,
            Role::Leader(_) => index <= self.storage.last_index() as u128,
            _ => true,
        }
    }

    /// Hands over the disk writes decided since the last call, oldest first.
    /// They must be durable before any effect of the same event is let out.
    pub fn take_writes(&mut self) -> (writes: Vec<DiskWrite<S::Payload>>)
        requires
            old(self).wf(),
        ensures
            final(self).wf(),
            writes_of::<S>(super::storage::write_models(writes@)) == old(self)@.writes,
            final(self)@ == (NodeModel { writes: Seq::empty(), ..old(self)@ }),
    {
        let writes = self.storage.take_writes();
        assert(self@.writes =~= Seq::empty());
        assert(self@ =~= (NodeModel { writes: Seq::empty(), ..old(self)@ }));
        writes
    }

    /// Hands over the effects decided since the last call, oldest first.
    pub fn take_effects(&mut self) -> (effects: Vec<Effect<S::Payload>>)
        requires
            old(self).wf(),
        ensures
            final(self).wf(),
            effects_of::<S>(effects@) == old(self)@.effects,
            final(self)@ == (NodeModel { effects: Seq::empty(), ..old(self)@ }),
    {
        let mut effects: Vec<Effect<S::Payload>> = Vec::new();
        std::mem::swap(&mut self.effects, &mut effects);
        assert(self@.effects =~= Seq::empty());
        assert(self@ =~= (NodeModel { effects: Seq::empty(), ..old(self)@ }));
        effects
    }
}

} // verus!
