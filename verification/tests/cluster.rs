//! Whole clusters on the simulated network, in virtual time: every scenario
//! is a pure function of its seed.

use std::collections::{BTreeMap, HashMap};
use std::sync::Arc;

use rustkv::raft::batch::{batch_len, measure};
use rustkv::raft::chunks::{AfterChunk, Assembly, Outgoing};
use rustkv::raft::node::{
    Effect, ProposeError, Proposal, RaftConfig, RaftNode, ReplyTag, RoleKind, Status,
};
use rustkv::raft::replay::Chunk;
use rustkv::raft::rpc::{
    AppendEntriesArgs, AppendEntriesReply, InstallSnapshotReply, RequestVoteArgs,
    RequestVoteReply, RpcRequest, RpcResponse, SnapshotChunkReply, TransferId,
};
use rustkv::raft::storage::{DiskWrite, Storage};
use rustkv::raft::transport::sim::{FaultConfig, SendPlan, SimNetwork};
use rustkv::raft::transport::TransportError;
use rustkv::raft::types::{
    Command, HardState, LogEntry, LogIndex, MemberAddr, Membership, NodeId, Session, Snapshot,
    Term,
};
use rustkv::store::{KvSnapshot, KvStore, SessionState};
use serde_json::Value;

// ---- the harness ----

const MS: u64 = 1000;

fn probability(p: f64) -> u64 {
    (p * (1u64 << 53) as f64).ceil() as u64
}

fn low_loss_faults() -> FaultConfig {
    FaultConfig {
        min_delay: MS,
        max_delay: 10 * MS,
        drop_threshold: 0,
        duplicate_threshold: 0,
        rpc_timeout: 50 * MS,
    }
}

fn put(key: &str, value: u64) -> Command {
    Command::Put {
        key: key.to_string(),
        value: Value::from(value),
        session: None,
    }
}

fn put_with_token(key: &str, value: u64, client: u64, seq: u64) -> Command {
    Command::Put {
        key: key.to_string(),
        value: Value::from(value),
        session: Some(Session { client, seq }),
    }
}

fn entry(term: Term, index: LogIndex) -> LogEntry {
    LogEntry {
        term,
        index,
        command: put(&format!("k{index}"), index),
    }
}

fn member_addr(id: NodeId) -> MemberAddr {
    MemberAddr {
        raft: format!("n{id}:9080"),
        client: format!("http://n{id}:8080"),
    }
}

/// A data directory, entry by entry.
#[derive(Default)]
struct Disk {
    hard_state: Option<HardState>,
    snapshot: Option<Snapshot<KvSnapshot>>,
    log: Vec<LogEntry>,
}

impl Disk {
    fn perform(&mut self, writes: Vec<DiskWrite<KvSnapshot>>) {
        for write in writes {
            match write {
                DiskWrite::HardState(hs) => self.hard_state = Some(hs),
                DiskWrite::AppendLog(entries) => self.log.extend(entries),
                DiskWrite::Snapshot(s) => self.snapshot = Some(s),
                DiskWrite::RewriteLog(entries) => self.log = entries,
                DiskWrite::TrimLog(_) => panic!("nothing is ever torn here"),
            }
        }
    }

    fn open(&self) -> Storage<KvSnapshot> {
        let chunks: Vec<Chunk> = (0..self.log.len())
            .map(|i| Chunk {
                start: i,
                end: i + 1,
                complete: true,
            })
            .collect();
        let parsed = self.log.iter().map(|e| Ok(e.clone())).collect();
        match Storage::open(
            self.hard_state,
            self.snapshot.clone(),
            &chunks,
            parsed,
            "log.jsonl",
        ) {
            Ok(storage) => storage,
            Err(e) => panic!("{}", e.message()),
        }
    }
}

#[derive(Clone, Copy)]
struct Tuning {
    threshold: Option<u64>,
    trailing: u64,
    join: bool,
    max_append_bytes: Option<usize>,
}

struct Slot {
    node: Option<RaftNode<KvStore>>,
    disk: Disk,
    /// Counts restarts: what was meant for an earlier life is lost.
    life: u64,
    tuning: Tuning,
}

enum Happening {
    Deliver { rpc: u64, request: RpcRequest<KvSnapshot>, duplicate: bool },
    Answer { rpc: u64, response: RpcResponse },
    GiveUp { rpc: u64 },
}

struct Rpc {
    from: NodeId,
    from_life: u64,
    to: NodeId,
    tag: ReplyTag,
    plan: SendPlan,
}

struct Cluster {
    net: SimNetwork,
    seed: u64,
    originals: Vec<NodeId>,
    now: u64,
    counter: u64,
    slots: BTreeMap<NodeId, Slot>,
    queue: BTreeMap<(u64, u64), Happening>,
    rpcs: HashMap<u64, Rpc>,
    /// Outcome of each proposal: committed or lost, or dropped.
    outcomes: HashMap<u64, Option<bool>>,
    /// Outcome of each read: granted, or dropped.
    reads: HashMap<u64, bool>,
    /// A node that crashes in the middle of its next writing event, after this
    /// many of its writes.
    fuse: Option<(NodeId, usize)>,
    /// The most entries that one AppendEntries has carried.
    longest_batch: usize,
}

impl Cluster {
    fn spawn(n: u64, seed: u64, faults: FaultConfig) -> Cluster {
        Cluster::spawn_with(n, seed, faults, None, 0, |_, _| {})
    }

    fn spawn_with(
        n: u64,
        seed: u64,
        faults: FaultConfig,
        threshold: Option<u64>,
        trailing: u64,
        prepare: impl Fn(NodeId, &mut Storage<KvSnapshot>),
    ) -> Cluster {
        let mut cluster = Cluster {
            net: SimNetwork::new(seed, faults),
            seed,
            originals: (1..=n).collect(),
            now: 0,
            counter: 0,
            slots: BTreeMap::new(),
            queue: BTreeMap::new(),
            rpcs: HashMap::new(),
            outcomes: HashMap::new(),
            reads: HashMap::new(),
            fuse: None,
            longest_batch: 0,
        };
        for id in 1..=n {
            let mut disk = Disk::default();
            let mut storage = disk.open();
            prepare(id, &mut storage);
            disk.perform(storage.take_writes());
            let tuning = Tuning {
                threshold,
                trailing,
                join: false,
                max_append_bytes: None,
            };
            cluster.insert(id, disk, tuning);
        }
        cluster
    }

    fn insert(&mut self, id: NodeId, disk: Disk, tuning: Tuning) {
        self.net.register(id);
        self.slots.insert(
            id,
            Slot {
                node: None,
                disk,
                life: 0,
                tuning,
            },
        );
        self.restart(id);
    }

    fn add_node_with(&mut self, id: NodeId, threshold: Option<u64>) {
        let tuning = Tuning {
            threshold,
            trailing: 0,
            join: true,
            max_append_bytes: None,
        };
        self.insert(id, Disk::default(), tuning);
    }

    fn add_node(&mut self, id: NodeId) {
        self.add_node_with(id, None);
    }

    fn crash(&mut self, id: NodeId) {
        let slot = self.slots.get_mut(&id).unwrap();
        slot.node = None;
        slot.life += 1;
    }

    fn restart(&mut self, id: NodeId) {
        let peers = self.originals.iter().copied().filter(|&p| p != id).collect();
        let mut config = RaftConfig::new(id, peers);
        config.timeout_seed = self.seed.wrapping_mul(1000).wrapping_add(id);
        for &member in &self.originals {
            config.bootstrap_addrs.insert(member, member_addr(member));
        }
        let now = self.now;
        let slot = self.slots.get_mut(&id).unwrap();
        config.snapshot_threshold = slot.tuning.threshold;
        config.snapshot_trailing = slot.tuning.trailing;
        config.join = slot.tuning.join;
        config.max_append_bytes = slot.tuning.max_append_bytes;
        let mut storage = slot.disk.open();
        slot.disk.perform(storage.take_writes());
        slot.node = Some(RaftNode::spawn(config, storage, KvStore::new(), now));
    }

    fn node(&self, id: NodeId) -> &RaftNode<KvStore> {
        self.slots[&id].node.as_ref().expect("node is up")
    }

    fn status(&self, id: NodeId) -> Status {
        self.node(id).status()
    }

    fn get(&self, id: NodeId, key: &str) -> Option<Value> {
        self.node(id).state_machine().get(key)
    }

    fn keys(&self, id: NodeId) -> usize {
        self.node(id).state_machine().snapshot().len()
    }

    /// The whole state of a node, in a comparable order.
    fn state(&self, id: NodeId) -> (BTreeMap<String, Value>, BTreeMap<u64, (u64, u64)>) {
        let exported = self.node(id).state_machine().export();
        (
            exported.map.into_iter().collect(),
            exported
                .sessions
                .into_iter()
                .map(|(client, s)| (client, (s.max_seq, s.recent)))
                .collect(),
        )
    }

    fn disk_log(&self, id: NodeId) -> &Vec<LogEntry> {
        &self.slots[&id].disk.log
    }

    fn disk_snapshot(&self, id: NodeId) -> Option<&Snapshot<KvSnapshot>> {
        self.slots[&id].disk.snapshot.as_ref()
    }

    fn all_ids(&self) -> Vec<NodeId> {
        self.slots.keys().copied().collect()
    }

    fn others(&self, id: NodeId) -> Vec<NodeId> {
        self.all_ids().into_iter().filter(|&o| o != id).collect()
    }

    fn isolate(&mut self, id: NodeId, blocked: bool) {
        for other in self.others(id) {
            self.net.set_pair_blocked(id, other, blocked);
        }
    }

    /// What every event does: the disk first, then the world.
    fn let_out(&mut self, id: NodeId) {
        let now = self.now;
        let slot = self.slots.get_mut(&id).unwrap();
        let life = slot.life;
        let node = slot.node.as_mut().unwrap();
        let mut writes = node.take_writes();
        let effects = node.take_effects();
        let members = node.membership().to_ids();
        if let Some((victim, done)) = self.fuse {
            if victim == id && !writes.is_empty() {
                let rest = writes.split_off(done.min(writes.len()));
                slot.disk.perform(writes);
                // An append may get some of its lines down.
                if let Some(DiskWrite::AppendLog(mut entries)) = rest.into_iter().next() {
                    entries.truncate(entries.len() / 2);
                    slot.disk.perform(vec![DiskWrite::AppendLog(entries)]);
                }
                self.fuse = None;
                self.crash(id);
                return;
            }
        }
        slot.disk.perform(writes);
        for effect in effects {
            match effect {
                Effect::Send { to, request, tag } => {
                    assert!(
                        to != id && members.contains(&to),
                        "node {id} sends to {to}, outside {members:?}"
                    );
                    if let RpcRequest::AppendEntries(args) = &request {
                        self.longest_batch = self.longest_batch.max(args.entries.len());
                    }
                    let plan = self.net.plan_send(id, to, &request);
                    self.counter += 1;
                    let rpc = self.counter;
                    if plan.refusal(to).is_some() {
                        self.answer(id, life, to, tag, plan.conclude(to, None));
                        continue;
                    }
                    if plan.sends_duplicate() {
                        self.schedule(
                            now + plan.dup_delay,
                            Happening::Deliver {
                                rpc,
                                request: request.clone(),
                                duplicate: true,
                            },
                        );
                    }
                    if plan.request_arrives() {
                        self.schedule(
                            now + plan.req_delay,
                            Happening::Deliver {
                                rpc,
                                request,
                                duplicate: false,
                            },
                        );
                    }
                    self.schedule(now + plan.rpc_timeout, Happening::GiveUp { rpc });
                    self.rpcs.insert(
                        rpc,
                        Rpc {
                            from: id,
                            from_life: life,
                            to,
                            tag,
                            plan,
                        },
                    );
                }
                Effect::Resolve { ticket, committed } => {
                    assert!(self.outcomes.insert(ticket, Some(committed)).is_none());
                }
                Effect::DropProposal { ticket } => {
                    assert!(self.outcomes.insert(ticket, None).is_none());
                }
                Effect::GrantRead { ticket } => {
                    assert!(self.reads.insert(ticket, true).is_none());
                }
                Effect::DropRead { ticket } => {
                    assert!(self.reads.insert(ticket, false).is_none());
                }
                Effect::Assembled { .. } => panic!("snapshots travel whole here"),
            }
        }
    }

    fn schedule(&mut self, at: u64, happening: Happening) {
        self.counter += 1;
        self.queue.insert((at, self.counter), happening);
    }

    fn answer(
        &mut self,
        id: NodeId,
        life: u64,
        from: NodeId,
        tag: ReplyTag,
        result: Result<RpcResponse, TransportError>,
    ) {
        let now = self.now;
        let slot = self.slots.get_mut(&id).unwrap();
        if slot.life != life || slot.node.is_none() {
            return;
        }
        let node = slot.node.as_mut().unwrap();
        assert!(node.has_room(now));
        assert!(node.has_issued(tag));
        node.handle_event(from, tag, result, now);
        self.let_out(id);
    }

    /// One RPC handed straight to a node.
    fn call(&mut self, to: NodeId, request: RpcRequest<KvSnapshot>) -> RpcResponse {
        let now = self.now;
        let node = self.slots.get_mut(&to).unwrap().node.as_mut().unwrap();
        assert!(node.has_room(now));
        if let RpcRequest::AppendEntries(args) = &request {
            assert!(node.admits_append(args), "SAFETY VIOLATION");
        }
        let response = node.handle_inbound(request, now);
        self.let_out(to);
        response
    }

    fn happen(&mut self, happening: Happening) {
        match happening {
            Happening::Deliver {
                rpc,
                request,
                duplicate,
            } => {
                let to = match self.rpcs.get(&rpc) {
                    Some(r) => r.to,
                    None => return,
                };
                if self.slots.get(&to).is_none_or(|s| s.node.is_none()) {
                    return;
                }
                let response = self.call(to, request);
                if duplicate || self.slots[&to].node.is_none() {
                    return;
                }
                let Some(r) = self.rpcs.get(&rpc) else {
                    return;
                };
                // The link counts as it is when the handler answers.
                if r.plan.loss(self.net.is_blocked(r.to, r.from)).is_none() {
                    let at = self.now + r.plan.resp_delay;
                    self.schedule(at, Happening::Answer { rpc, response });
                }
            }
            Happening::Answer { rpc, response } => {
                let Some(r) = self.rpcs.remove(&rpc) else {
                    return;
                };
                let heard = r.plan.conclude(r.to, Some(response));
                self.answer(r.from, r.from_life, r.to, r.tag, heard);
            }
            Happening::GiveUp { rpc } => {
                if let Some(r) = self.rpcs.remove(&rpc) {
                    let silence = r.plan.conclude(r.to, None);
                    self.answer(r.from, r.from_life, r.to, r.tag, silence);
                }
            }
        }
    }

    /// Runs for `us` microseconds of virtual time.
    fn run(&mut self, us: u64) {
        let until = self.now + us;
        loop {
            let timer = self
                .slots
                .iter()
                .filter_map(|(id, s)| s.node.as_ref().map(|n| (n.next_deadline(), *id)))
                .min();
            let queued = self.queue.keys().next().copied();
            let timer_at = timer.map_or(u64::MAX, |t| t.0);
            let queued_at = queued.map_or(u64::MAX, |q| q.0);
            let at = timer_at.min(queued_at);
            if at > until {
                self.now = until;
                return;
            }
            self.now = self.now.max(at);
            if timer_at <= queued_at {
                let id = timer.unwrap().1;
                let now = self.now;
                let node = self.slots.get_mut(&id).unwrap().node.as_mut().unwrap();
                assert!(node.has_room(now));
                node.on_timer(now);
                self.let_out(id);
            } else {
                let happening = self.queue.remove(&queued.unwrap()).unwrap();
                self.happen(happening);
            }
        }
    }

    fn wait_until(&mut self, what: &str, mut done: impl FnMut(&Cluster) -> bool) {
        for _ in 0..12_000 {
            if done(self) {
                return;
            }
            self.run(5 * MS);
        }
        panic!("timed out (60s virtual) waiting for: {what}");
    }

    fn leaders_among(&self, ids: &[NodeId]) -> Vec<Status> {
        ids.iter()
            .filter(|id| self.slots[id].node.is_some())
            .map(|&id| self.status(id))
            .filter(|s| s.role == RoleKind::Leader)
            .collect()
    }

    fn wait_for_leader_among(&mut self, ids: &[NodeId]) -> Status {
        let ids = ids.to_vec();
        self.wait_until("a leader", |c| c.leaders_among(&ids).len() == 1);
        self.leaders_among(&ids)[0]
    }

    fn wait_for_leader(&mut self) -> Status {
        let ids = self.all_ids();
        self.wait_for_leader_among(&ids)
    }

    fn propose(&mut self, id: NodeId, command: Command) -> Result<(Proposal, u64), ProposeError> {
        self.counter += 1;
        let ticket = self.counter;
        let now = self.now;
        let node = self.slots.get_mut(&id).unwrap().node.as_mut().unwrap();
        assert!(node.has_room(now));
        let accepted = node.handle_propose(command, ticket, now);
        self.let_out(id);
        accepted.map(|p| (p, ticket))
    }

    fn read(&mut self, id: NodeId) -> Result<u64, ProposeError> {
        self.counter += 1;
        let ticket = self.counter;
        let now = self.now;
        let node = self.slots.get_mut(&id).unwrap().node.as_mut().unwrap();
        assert!(node.has_room(now));
        let registered = node.handle_read(ticket);
        self.let_out(id);
        registered.map(|()| ticket)
    }

    /// The outcome of a proposal within `us`, if one comes.
    fn outcome_within(&mut self, ticket: u64, us: u64) -> Option<Option<bool>> {
        let until = self.now + us;
        while self.now < until {
            if let Some(outcome) = self.outcomes.get(&ticket) {
                return Some(*outcome);
            }
            self.run(MS);
        }
        self.outcomes.get(&ticket).copied()
    }

    fn must_commit(&mut self, ticket: u64) {
        assert_eq!(self.outcome_within(ticket, 30_000 * MS), Some(Some(true)));
    }

    fn confirm_put(&mut self, ids: &[NodeId], key: &str, value: u64) -> LogIndex {
        let leader = self.wait_for_leader_among(ids);
        let (proposal, ticket) = self.propose(leader.id, put(key, value)).unwrap();
        self.must_commit(ticket);
        proposal.index
    }

    fn converge_among(&mut self, ids: &[NodeId]) {
        let ids = ids.to_vec();
        self.wait_until("nodes converge (equal logs, fully committed)", |c| {
            let statuses: Vec<Status> = ids.iter().map(|&id| c.status(id)).collect();
            let max_last = statuses.iter().map(|s| s.last_log_index).max().unwrap();
            statuses
                .iter()
                .all(|s| s.last_log_index == max_last && s.commit_index == max_last)
        });
    }

    fn assert_states_identical(&self, ids: &[NodeId]) {
        let reference = self.state(ids[0]);
        for &id in ids {
            assert_eq!(self.state(id), reference, "node {id}: state machine diverges");
        }
    }

    fn membership(&self, id: NodeId) -> Membership {
        Membership::clone(self.node(id).membership())
    }

    fn propose_config(
        &mut self,
        id: NodeId,
        members: Membership,
    ) -> Result<(Proposal, u64), ProposeError> {
        self.propose(
            id,
            Command::ConfigChange {
                members: Arc::new(members),
            },
        )
    }

    fn commit_config(&mut self, ids: &[NodeId], mutate: impl FnOnce(&mut Membership)) {
        let leader = self.wait_for_leader_among(ids);
        let mut members = self.membership(leader.id);
        mutate(&mut members);
        let (_, ticket) = self.propose_config(leader.id, members).unwrap();
        self.must_commit(ticket);
    }

    /// Ends the run: every message that ever crossed the network was safe.
    fn shutdown(&self) {
        assert_eq!(self.net.safety_violations(), Vec::<String>::new());
    }
}

// ---- elections ----

#[test]
fn elects_exactly_one_leader_and_converges_across_seeds() {
    for seed in 0..10 {
        let mut cluster = Cluster::spawn(3, seed, low_loss_faults());
        let leader = cluster.wait_for_leader();
        // Let a few heartbeat rounds spread the leader's authority.
        cluster.run(200 * MS);

        let ids = cluster.all_ids();
        let leaders = cluster.leaders_among(&ids);
        assert_eq!(leaders.len(), 1, "seed {seed}: exactly one leader");
        for id in ids {
            let status = cluster.status(id);
            assert_eq!(status.term, leaders[0].term, "seed {seed}: all on one term");
            assert_eq!(
                status.leader_id,
                Some(leaders[0].id),
                "seed {seed}: agree on leader"
            );
        }
        assert_eq!(
            leaders[0].id, leader.id,
            "seed {seed}: leadership stable, no faults"
        );
        cluster.shutdown();
    }
}

fn election_outcome(seed: u64) -> (NodeId, Term, u64) {
    let mut cluster = Cluster::spawn(3, seed, low_loss_faults());
    let leader = cluster.wait_for_leader();
    cluster.shutdown();
    (leader.id, leader.term, cluster.now)
}

#[test]
fn same_seed_reproduces_the_same_election() {
    assert_eq!(election_outcome(42), election_outcome(42));
    assert_eq!(election_outcome(1234), election_outcome(1234));
}

#[test]
fn heartbeats_prevent_spurious_reelections() {
    let mut cluster = Cluster::spawn(3, 5, low_loss_faults());
    let leader = cluster.wait_for_leader();
    // 10 virtual seconds: 40+ election timeouts with nothing going wrong.
    cluster.run(10_000 * MS);
    for id in cluster.all_ids() {
        let status = cluster.status(id);
        assert_eq!(status.term, leader.term, "term never moved");
        assert_eq!(status.leader_id, Some(leader.id), "leadership never moved");
    }
    cluster.shutdown();
}

#[test]
fn leader_crash_triggers_reelection_at_higher_term() {
    let mut cluster = Cluster::spawn(3, 11, low_loss_faults());
    let old = cluster.wait_for_leader();
    cluster.crash(old.id);
    let survivors = cluster.others(old.id);
    let new = cluster.wait_for_leader_among(&survivors);
    assert_ne!(new.id, old.id);
    assert!(new.term > old.term, "new leader must hold a newer term");
    cluster.shutdown();
}

#[test]
fn partitioned_leader_is_deposed_and_rejoins_as_follower() {
    let mut cluster = Cluster::spawn(3, 3, low_loss_faults());
    let old = cluster.wait_for_leader();
    let others = cluster.others(old.id);

    // Cut the leader off from the majority.
    cluster.isolate(old.id, true);
    let new = cluster.wait_for_leader_among(&others);
    assert!(new.term > old.term, "majority side moves to a newer term");
    assert!(cluster.status(old.id).term <= new.term);

    // Heal: the old leader must step down; the cluster converges.
    cluster.isolate(old.id, false);
    cluster.run(2_000 * MS);
    let ids = cluster.all_ids();
    let leaders = cluster.leaders_among(&ids);
    assert_eq!(leaders.len(), 1, "exactly one leader after heal");
    assert_eq!(cluster.status(old.id).role, RoleKind::Follower);
    for id in ids {
        assert_eq!(cluster.status(id).term, leaders[0].term);
        assert_eq!(cluster.status(id).leader_id, Some(leaders[0].id));
    }
    cluster.shutdown();
}

/// Pre-votes keep an isolated follower from disturbing anybody: it never
/// wins, its own term stays put, and it rejoins without an election.
#[test]
fn isolated_follower_never_wins_and_cluster_reconverges_after_heal() {
    let mut cluster = Cluster::spawn(3, 8, low_loss_faults());
    let leader = cluster.wait_for_leader();
    cluster.run(100 * MS);
    let follower = cluster.others(leader.id)[0];
    let others = cluster.others(follower);

    cluster.isolate(follower, true);
    for _ in 0..100 {
        cluster.run(50 * MS);
        assert_ne!(cluster.status(follower).role, RoleKind::Leader);
        for &id in &others {
            assert_eq!(cluster.status(id).term, leader.term, "majority side undisturbed");
            assert_eq!(cluster.status(id).leader_id, Some(leader.id));
        }
    }
    assert_eq!(cluster.status(follower).role, RoleKind::PreCandidate);
    assert_eq!(cluster.status(follower).term, leader.term, "probing moves no term");

    cluster.isolate(follower, false);
    cluster.run(1_000 * MS);
    for id in cluster.all_ids() {
        assert_eq!(cluster.status(id).term, leader.term, "no election was needed");
        assert_eq!(cluster.status(id).leader_id, Some(leader.id));
    }
    cluster.shutdown();
}

#[test]
fn at_most_one_leader_per_term_under_message_loss() {
    for seed in 0..5 {
        let faults = FaultConfig {
            min_delay: MS,
            max_delay: 15 * MS,
            drop_threshold: probability(0.25),
            duplicate_threshold: 0,
            rpc_timeout: 40 * MS,
        };
        let mut cluster = Cluster::spawn(3, seed, faults);
        let mut leaders_by_term: HashMap<Term, NodeId> = HashMap::new();
        for _ in 0..600 {
            // 6 virtual seconds, sampled every 10ms.
            cluster.run(10 * MS);
            let ids = cluster.all_ids();
            for status in cluster.leaders_among(&ids) {
                let prev = leaders_by_term.entry(status.term).or_insert(status.id);
                assert_eq!(
                    *prev, status.id,
                    "seed {seed}: two leaders observed in term {}",
                    status.term
                );
            }
        }
        assert!(
            !leaders_by_term.is_empty(),
            "seed {seed}: elections still succeed under loss"
        );
        cluster.shutdown();
    }
}

#[test]
fn node_with_stale_log_never_becomes_leader() {
    for seed in 0..5 {
        let mut cluster = Cluster::spawn_with(3, seed, low_loss_faults(), None, 0, |id, storage| {
            // Nodes 1 and 2 hold a committed-looking entry from term 1; node 3
            // slept through it. All start at term 1.
            storage
                .save_hard_state(HardState {
                    current_term: 1,
                    voted_for: None,
                })
                .unwrap();
            if id != 3 {
                storage.append(&[entry(1, 1)]).unwrap();
            }
        });
        let leader = cluster.wait_for_leader();
        assert_ne!(
            leader.id, 3,
            "seed {seed}: a stale log must never win an election"
        );
        cluster.shutdown();
    }
}

/// A node that never campaigns within the test.
fn passive(prepare: impl Fn(&mut Storage<KvSnapshot>)) -> Cluster {
    let mut cluster = Cluster::spawn(0, 0, low_loss_faults());
    cluster.originals = vec![1, 2, 3];
    let mut disk = Disk::default();
    let mut storage = disk.open();
    prepare(&mut storage);
    disk.perform(storage.take_writes());
    let tuning = Tuning {
        threshold: None,
        trailing: 0,
        join: false,
        max_append_bytes: None,
    };
    cluster.insert(1, disk, tuning);
    cluster
}

fn request_vote(
    cluster: &mut Cluster,
    term: Term,
    candidate_id: NodeId,
    last_log_index: u64,
    last_log_term: Term,
) -> RequestVoteReply {
    let request = RpcRequest::RequestVote(RequestVoteArgs {
        term,
        candidate_id,
        last_log_index,
        last_log_term,
    });
    match cluster.call(1, request) {
        RpcResponse::RequestVote(reply) => reply,
        other => panic!("unexpected response: {other:?}"),
    }
}

#[test]
fn vote_rules_and_vote_persistence_across_restart() {
    let mut cluster = passive(|_| {});

    // Candidate 2 gets the vote for term 1.
    let reply = request_vote(&mut cluster, 1, 2, 0, 0);
    assert!(reply.vote_granted);
    assert_eq!(reply.term, 1);
    // Same term: a competing candidate is refused...
    assert!(!request_vote(&mut cluster, 1, 3, 0, 0).vote_granted);
    // ...but the same candidate is re-granted (idempotent, §5.2).
    assert!(request_vote(&mut cluster, 1, 2, 0, 0).vote_granted);
    // A stale-term request is refused and told the current term.
    let reply = request_vote(&mut cluster, 0, 2, 0, 0);
    assert!(!reply.vote_granted);
    assert_eq!(reply.term, 1);

    // Restart the node from the same directory.
    cluster.crash(1);
    cluster.restart(1);
    assert_eq!(cluster.status(1).term, 1, "term survived the restart");

    // The vote in term 1 must survive too: candidate 3 still refused,
    // candidate 2 still granted.
    assert!(!request_vote(&mut cluster, 1, 3, 0, 0).vote_granted);
    assert!(request_vote(&mut cluster, 1, 2, 0, 0).vote_granted);
}

#[test]
fn election_restriction_rejects_stale_logs_at_rpc_level() {
    // Node 1 has an entry from term 2 in its log.
    let mut cluster = passive(|storage| {
        storage
            .save_hard_state(HardState {
                current_term: 2,
                voted_for: None,
            })
            .unwrap();
        storage.append(&[entry(2, 1)]).unwrap();
    });

    // A candidate with an empty log is refused despite its higher term, and
    // the node adopts that term (§5.1).
    let reply = request_vote(&mut cluster, 3, 2, 0, 0);
    assert!(!reply.vote_granted);
    assert_eq!(reply.term, 3);

    // A candidate whose log is exactly as up-to-date is granted.
    assert!(request_vote(&mut cluster, 3, 3, 1, 2).vote_granted);

    // Same last term but shorter log: refused (term 4, log (term 2, idx 0)).
    assert!(!request_vote(&mut cluster, 4, 2, 0, 2).vote_granted);

    // Newer last-log term beats a longer log: granted.
    assert!(request_vote(&mut cluster, 5, 2, 1, 3).vote_granted);
}

#[test]
fn pre_votes_bind_nobody_and_stick_to_a_live_leader() {
    let mut cluster = passive(|_| {});
    let probe = |term, last_log_index, last_log_term| {
        RpcRequest::PreVote(RequestVoteArgs {
            term,
            candidate_id: 2,
            last_log_index,
            last_log_term,
        })
    };
    let granted = |response| match response {
        RpcResponse::PreVote(reply) => reply.vote_granted,
        other => panic!("{other:?}"),
    };
    assert!(granted(cluster.call(1, probe(1, 0, 0))));
    assert!(granted(cluster.call(1, probe(1, 0, 0))), "non-binding");
    assert!(!granted(cluster.call(1, probe(0, 0, 0))), "not beyond our term");
    assert_eq!(cluster.status(1).term, 0);
    assert!(cluster.slots[&1].disk.hard_state.is_none(), "nothing persisted");

    // Contact with a leader makes the node stick to it for the shortest
    // election timeout.
    append(&mut cluster, 1, 0, 0, vec![], 0);
    cluster.run(100 * MS);
    assert!(!granted(cluster.call(1, probe(9, 9, 9))));
    cluster.run(50 * MS);
    assert!(granted(cluster.call(1, probe(9, 9, 9))));
}

// ---- replication ----

#[test]
fn leader_replicates_commits_and_applies_proposals() {
    let mut cluster = Cluster::spawn(3, 21, low_loss_faults());
    let leader = cluster.wait_for_leader();

    for i in 1..=3u64 {
        let (proposal, ticket) = cluster
            .propose(leader.id, put(&format!("k{i}"), i))
            .expect("leader accepts proposals");
        assert_eq!(proposal.term, leader.term);
        // Index 1 is the leader's no-op; client entries start at 2.
        assert_eq!(proposal.index, i + 1, "indexes assigned sequentially");
        cluster.must_commit(ticket);
    }

    cluster.wait_until("all nodes commit and apply index 4", |c| {
        c.all_ids()
            .iter()
            .all(|&id| c.status(id).commit_index == 4 && c.status(id).last_log_index == 4)
    });

    // Every state machine holds exactly the three written keys.
    for id in cluster.all_ids() {
        assert_eq!(cluster.keys(id), 3, "node {id}");
        for i in 1..=3u64 {
            assert_eq!(
                cluster.get(id, &format!("k{i}")),
                Some(Value::from(i)),
                "node {id}: k{i}"
            );
        }
    }
    cluster.shutdown();
    let reference = cluster.disk_log(leader.id).clone();
    assert_eq!(reference.len(), 4);
    assert_eq!(
        reference[0].command,
        Command::Noop,
        "term opens with the §8 no-op"
    );
    for (i, e) in reference.iter().enumerate().skip(1) {
        assert_eq!(e.index, i as u64 + 1);
        assert_eq!(e.term, leader.term);
        assert_eq!(e.command, put(&format!("k{i}"), i as u64));
    }
    for id in cluster.all_ids() {
        assert_eq!(*cluster.disk_log(id), reference, "node {id}: identical log");
    }
}

#[test]
fn non_leader_rejects_proposals_with_leader_hint() {
    let mut cluster = Cluster::spawn(3, 22, low_loss_faults());
    let leader = cluster.wait_for_leader();
    cluster.run(200 * MS); // followers learn the leader

    let follower = cluster.others(leader.id)[0];
    let err = cluster.propose(follower, put("x", 1)).unwrap_err();
    assert_eq!(
        err,
        ProposeError::NotLeader {
            leader_hint: Some(leader.id)
        }
    );
    cluster.shutdown();
}

#[test]
fn lagging_follower_catches_up_after_heal() {
    let mut cluster = Cluster::spawn(3, 23, low_loss_faults());
    let leader = cluster.wait_for_leader();
    let follower = cluster.others(leader.id)[0];

    for i in 1..=2u64 {
        let (_, t) = cluster.propose(leader.id, put(&format!("k{i}"), i)).unwrap();
        cluster.must_commit(t);
    }
    cluster.isolate(follower, true);
    for i in 3..=5u64 {
        let (_, t) = cluster.propose(leader.id, put(&format!("k{i}"), i)).unwrap();
        cluster.must_commit(t);
    }
    assert!(cluster.status(follower).commit_index < cluster.status(leader.id).commit_index);
    assert_eq!(
        cluster.get(follower, "k3"),
        None,
        "not applied while isolated"
    );

    cluster.isolate(follower, false);
    let all = cluster.all_ids();
    cluster.converge_among(&all);
    for &id in &all {
        assert_eq!(cluster.keys(id), 5, "node {id}: all five keys");
    }
    cluster.shutdown();
    for id in all {
        assert_eq!(
            cluster.disk_log(id),
            cluster.disk_log(leader.id),
            "node {id}: identical log"
        );
    }
}

#[test]
fn conflicting_uncommitted_entries_are_truncated_and_replaced() {
    let mut cluster = Cluster::spawn(3, 24, low_loss_faults());
    let old_leader = cluster.wait_for_leader();
    let others = cluster.others(old_leader.id);

    // A committed base entry everyone shares (index 2, after the no-op).
    let (p, t) = cluster.propose(old_leader.id, put("base", 0)).unwrap();
    assert_eq!(p.index, 2);
    cluster.must_commit(t);

    // Partition the leader into the minority; it appends two proposals
    // (indexes 3 and 4 in its old term) that can never commit.
    cluster.isolate(old_leader.id, true);
    let (orphan_a, ticket_a) = cluster.propose(old_leader.id, put("orphan-a", 1)).unwrap();
    let (orphan_b, ticket_b) = cluster.propose(old_leader.id, put("orphan-b", 2)).unwrap();
    assert_eq!((orphan_a.index, orphan_b.index), (3, 4));
    assert_eq!(orphan_a.term, old_leader.term);

    // The majority elects a new leader (its no-op takes index 3) and commits
    // DIFFERENT entries at the orphaned indexes.
    let new_leader = cluster.wait_for_leader_among(&others);
    assert!(new_leader.term > old_leader.term);
    let (wa, ta) = cluster.propose(new_leader.id, put("winner-a", 10)).unwrap();
    let (wb, tb) = cluster.propose(new_leader.id, put("winner-b", 20)).unwrap();
    assert_eq!((wa.index, wb.index), (4, 5));
    cluster.must_commit(ta);
    cluster.must_commit(tb);
    assert_eq!(
        cluster.status(old_leader.id).commit_index,
        2,
        "minority leader never committed its orphans"
    );

    // Heal: the deposed leader's conflicting suffix must be truncated and
    // replaced via next_index backtracking, and the orphan proposals must
    // resolve to `false` (definitely never applied).
    cluster.isolate(old_leader.id, false);
    cluster.wait_until("all nodes converge on the winner log", |c| {
        c.all_ids()
            .iter()
            .all(|&id| c.status(id).commit_index == 5 && c.status(id).last_log_index == 5)
    });
    assert_eq!(cluster.outcomes[&ticket_a], Some(false), "orphan-a was truncated");
    assert_eq!(cluster.outcomes[&ticket_b], Some(false), "orphan-b was truncated");

    for id in cluster.all_ids() {
        assert_eq!(cluster.get(id, "orphan-a"), None, "node {id}");
        assert_eq!(cluster.get(id, "orphan-b"), None, "node {id}");
        assert_eq!(cluster.get(id, "winner-a"), Some(Value::from(10)), "node {id}");
        assert_eq!(cluster.get(id, "winner-b"), Some(Value::from(20)), "node {id}");
    }
    cluster.shutdown();
    let healed = cluster.disk_log(old_leader.id).clone();
    assert_eq!(healed.len(), 5);
    assert_eq!(healed[3].command, put("winner-a", 10));
    assert_eq!(healed[4].command, put("winner-b", 20));
    assert_eq!(healed[3].term, new_leader.term);
    for id in cluster.all_ids() {
        assert_eq!(*cluster.disk_log(id), healed, "node {id}: identical log");
    }
}

#[test]
fn minority_leader_accepts_but_never_commits() {
    let mut cluster = Cluster::spawn(3, 25, low_loss_faults());
    let leader = cluster.wait_for_leader();
    let others = cluster.others(leader.id);
    let (_, t) = cluster.propose(leader.id, put("base", 0)).unwrap();
    cluster.must_commit(t);

    // Full isolation of the leader (CP: minority side must not make progress).
    cluster.isolate(leader.id, true);
    let (_, doomed) = cluster.propose(leader.id, put("doomed", 9)).unwrap();

    // Its commit index must stay pinned for 3 virtual seconds of trying, and
    // the doomed write must never reach its state machine.
    for _ in 0..60 {
        cluster.run(50 * MS);
        assert_eq!(
            cluster.status(leader.id).commit_index,
            2,
            "a minority leader must never commit"
        );
    }
    assert_eq!(cluster.get(leader.id, "doomed"), None);
    let new_leader = cluster.wait_for_leader_among(&others);
    assert!(new_leader.term > leader.term);

    // Heal, then let the new leader write; the doomed entry is overwritten and
    // its proposal resolves false.
    cluster.isolate(leader.id, false);
    let (fin, t) = cluster.propose(new_leader.id, put("final", 1)).unwrap();
    cluster.must_commit(t);
    cluster.wait_until("everyone converges", |c| {
        c.all_ids().iter().all(|&id| {
            c.status(id).commit_index == fin.index && c.status(id).last_log_index == fin.index
        })
    });
    assert_eq!(
        cluster.outcomes[&doomed],
        Some(false),
        "doomed write definitely not applied"
    );
    for id in cluster.all_ids() {
        assert_eq!(cluster.get(id, "doomed"), None, "node {id}");
        assert_eq!(cluster.get(id, "final"), Some(Value::from(1)), "node {id}");
        assert_eq!(
            cluster.disk_log(id),
            cluster.disk_log(new_leader.id),
            "node {id}: identical log"
        );
    }
    cluster.shutdown();
}

fn replication_outcome(seed: u64) -> (NodeId, Term, Vec<LogEntry>) {
    let mut cluster = Cluster::spawn(3, seed, low_loss_faults());
    let leader = cluster.wait_for_leader();
    for i in 1..=3u64 {
        let (_, t) = cluster.propose(leader.id, put(&format!("k{i}"), i)).unwrap();
        cluster.must_commit(t);
    }
    let all = cluster.all_ids();
    cluster.converge_among(&all);
    cluster.shutdown();
    (leader.id, leader.term, cluster.disk_log(1).clone())
}

#[test]
fn same_seed_reproduces_the_same_replication_outcome() {
    assert_eq!(replication_outcome(77), replication_outcome(77));
}

#[test]
fn confirmed_writes_survive_sustained_message_loss() {
    for seed in 0..3 {
        let faults = FaultConfig {
            min_delay: MS,
            max_delay: 15 * MS,
            drop_threshold: probability(0.15),
            duplicate_threshold: 0,
            rpc_timeout: 40 * MS,
        };
        let mut cluster = Cluster::spawn(3, seed, faults);

        // (term, index, value) of every write whose commit was confirmed.
        let mut confirmed: Vec<(Term, LogIndex, u64)> = Vec::new();
        let mut value = 0u64;
        while confirmed.len() < 10 {
            value += 1;
            loop {
                let leader = cluster.wait_for_leader();
                match cluster.propose(leader.id, put(&format!("v{value}"), value)) {
                    Err(_) => cluster.run(20 * MS),
                    Ok((p, ticket)) => {
                        // Any other outcome is unknown-or-refused: retry.
                        if cluster.outcome_within(ticket, 2000 * MS) == Some(Some(true)) {
                            confirmed.push((p.term, p.index, value));
                            break;
                        }
                    }
                }
            }
        }
        // Quiesce, then verify every confirmed write is in every log.
        let all = cluster.all_ids();
        cluster.converge_among(&all);
        cluster.shutdown();
        let reference = cluster.disk_log(1).clone();
        for id in all {
            assert_eq!(*cluster.disk_log(id), reference, "seed {seed}: identical logs");
        }
        for &(term, index, value) in &confirmed {
            let entry = &reference[usize::try_from(index - 1).unwrap()];
            assert_eq!(
                (entry.term, &entry.command),
                (term, &put(&format!("v{value}"), value)),
                "seed {seed}: confirmed write (term {term}, index {index}) was lost"
            );
        }
    }
}

fn append(
    cluster: &mut Cluster,
    term: Term,
    prev_log_index: LogIndex,
    prev_log_term: Term,
    entries: Vec<LogEntry>,
    leader_commit: LogIndex,
) -> AppendEntriesReply {
    let request = RpcRequest::AppendEntries(AppendEntriesArgs {
        term,
        leader_id: 2,
        prev_log_index,
        prev_log_term,
        entries,
        leader_commit,
    });
    match cluster.call(1, request) {
        RpcResponse::AppendEntries(reply) => reply,
        other => panic!("unexpected response: {other:?}"),
    }
}

fn e(term: Term, index: LogIndex, key: &str) -> LogEntry {
    LogEntry {
        term,
        index,
        command: put(key, index),
    }
}

#[test]
fn append_entries_rpc_conformance() {
    let mut cluster = passive(|_| {});
    let c = &mut cluster;

    // Initial append of two entries.
    let reply = append(c, 1, 0, 0, vec![e(1, 1, "a"), e(1, 2, "b")], 0);
    assert!(reply.success);
    assert_eq!(c.status(1).last_log_index, 2);
    assert_eq!(c.status(1).commit_index, 0);
    assert_eq!(c.keys(1), 0, "nothing applied before commit");

    // leader_commit is capped by what this RPC verified (prev=1 here), even if
    // the leader claims more.
    let reply = append(c, 1, 1, 1, vec![], 5);
    assert!(reply.success);
    assert_eq!(
        c.status(1).commit_index,
        1,
        "commit capped at verified prefix"
    );
    assert_eq!(c.get(1, "a"), Some(Value::from(1)), "committed entry applied");
    assert_eq!(c.get(1, "b"), None, "uncommitted entry not applied");

    // Duplicate delivery is idempotent.
    let reply = append(c, 1, 0, 0, vec![e(1, 1, "a"), e(1, 2, "b")], 1);
    assert!(reply.success);
    assert_eq!(c.status(1).last_log_index, 2, "no duplicate growth");

    // A gap (prev beyond our log) is rejected so the leader backtracks.
    let reply = append(c, 1, 5, 1, vec![e(1, 6, "x")], 1);
    assert!(!reply.success);
    assert_eq!(c.status(1).last_log_index, 2);

    // A stale-term AppendEntries is rejected and told the current term.
    let reply = append(c, 0, 0, 0, vec![], 0);
    assert!(!reply.success);
    assert_eq!(reply.term, 1);

    // A new leader (term 2) overwrites the uncommitted entry at index 2.
    let reply = append(c, 2, 1, 1, vec![e(2, 2, "c")], 2);
    assert!(reply.success);
    assert_eq!(c.status(1).commit_index, 2);
    assert_eq!(c.get(1, "c"), Some(Value::from(2)), "replacement applied");
    assert_eq!(c.get(1, "b"), None, "truncated entry never applied");

    let log = cluster.disk_log(1);
    assert_eq!(log.len(), 2);
    assert_eq!((log[0].term, &log[0].command), (1, &put("a", 1)));
    assert_eq!(
        (log[1].term, &log[1].command),
        (2, &put("c", 2)),
        "conflict was replaced"
    );
}

#[test]
fn contradicting_messages_are_not_admitted() {
    let mut cluster = passive(|_| {});
    append(&mut cluster, 1, 0, 0, vec![e(1, 1, "a")], 1);
    let args = |term, prev_log_index, entries| AppendEntriesArgs {
        term,
        leader_id: 2,
        prev_log_index,
        prev_log_term: 0,
        entries,
        leader_commit: 0,
    };
    let node = cluster.node(1);
    assert!(!node.admits_append(&args(2, 0, vec![e(2, 1, "b")])), "committed");
    assert!(!node.admits_append(&args(2, 0, vec![e(1, 3, "b")])), "past its batch");
    assert!(
        !node.admits_append(&args(2, 0, vec![e(2, 3, "b"), e(2, 3, "c"), e(2, 3, "d")])),
        "a gap in the log"
    );
    assert!(
        node.admits_append(&args(2, 0, vec![e(1, 2, "b")])),
        "misnumbered, but nothing of it is appended"
    );
    assert!(
        node.admits_append(&args(2, 9, vec![e(1, 2, "b")])),
        "refused anyway: the entry before does not match"
    );
    assert!(node.admits_append(&args(0, 0, vec![e(1, 2, "b")])), "stale anyway");
    assert!(node.admits_append(&args(2, 0, vec![e(1, 1, "a"), e(2, 2, "b")])));
    // An entry that stands elsewhere than its number says is passed over.
    let reply = append(&mut cluster, 2, 0, 0, vec![e(1, 2, "b")], 0);
    assert!(reply.success);
    assert_eq!(cluster.status(1).last_log_index, 1);
    // A batch that does not match is answered, whatever it carries.
    let reply = append(&mut cluster, 2, u64::MAX, 1, vec![e(1, 2, "b")], 0);
    assert!(!reply.success);
    assert_eq!(cluster.status(1).last_log_index, 1);
}

#[test]
fn tags_of_later_terms_were_never_handed_out() {
    let mut cluster = passive(|_| {});
    append(&mut cluster, 3, 0, 0, vec![e(3, 1, "a")], 0);
    let sent = |sent_term, sent_prev_index, sent_entries| ReplyTag::Append {
        sent_term,
        sent_prev_index,
        sent_entries,
        sent_seq: 0,
    };
    let node = cluster.node(1);
    assert!(node.has_issued(sent(2, 7, 1)), "an earlier leadership of ours");
    assert!(node.has_issued(sent(3, u64::MAX, u64::MAX)), "we no longer lead");
    assert!(!node.has_issued(sent(4, 0, 0)), "not there yet");
    let installed = |sent_term| ReplyTag::InstallSnapshot {
        sent_term,
        last_included_index: 9,
    };
    assert!(node.has_issued(installed(3)));
    assert!(!node.has_issued(installed(4)));
    assert!(node.has_issued(ReplyTag::Vote { sent_term: 9 }));
}

// ---- linearizable reads ----

#[test]
fn single_node_grants_reads_immediately() {
    let mut cluster = Cluster::spawn(1, 71, low_loss_faults());
    let leader = cluster.wait_for_leader().id;
    cluster.confirm_put(&[1], "solo", 1);
    let ticket = cluster.read(leader).expect("leader accepts");
    // Its own majority: granted without any network round-trip.
    assert_eq!(cluster.reads.get(&ticket), Some(&true));
    assert_eq!(cluster.get(leader, "solo"), Some(Value::from(1)));
    cluster.shutdown();
}

#[test]
fn leader_grants_reads_that_reflect_committed_writes() {
    let mut cluster = Cluster::spawn(3, 72, low_loss_faults());
    let leader = cluster.wait_for_leader().id;
    cluster.confirm_put(&[leader], "k", 7);
    let ticket = cluster.read(leader).expect("leader accepts");
    assert_eq!(cluster.reads.get(&ticket), None, "a majority must confirm first");
    cluster.run(2_000 * MS);
    assert_eq!(cluster.reads.get(&ticket), Some(&true));
    assert_eq!(cluster.get(leader, "k"), Some(Value::from(7)));
    cluster.shutdown();
}

#[test]
fn followers_reject_reads_with_a_leader_hint() {
    let mut cluster = Cluster::spawn(3, 73, low_loss_faults());
    let leader = cluster.wait_for_leader().id;
    cluster.wait_until("all nodes know the leader", |c| {
        c.all_ids().iter().all(|&id| c.status(id).leader_id == Some(leader))
    });
    for id in cluster.others(leader) {
        assert_eq!(
            cluster.read(id),
            Err(ProposeError::NotLeader {
                leader_hint: Some(leader)
            }),
            "node {id}"
        );
    }
    cluster.shutdown();
}

/// §6.4: a fresh leader must not grant reads before its term-start no-op
/// commits and applies.
#[test]
fn reads_wait_for_the_term_start_noop() {
    let faults = FaultConfig {
        min_delay: 20 * MS,
        max_delay: 40 * MS,
        drop_threshold: 0,
        duplicate_threshold: 0,
        rpc_timeout: 200 * MS,
    };
    let mut cluster = Cluster::spawn(3, 74, faults);
    let leader = cluster.wait_for_leader();
    assert!(leader.commit_index < leader.last_log_index, "the window is open");

    let ticket = cluster.read(leader.id).expect("leader accepts");
    cluster.run(MS);
    assert_eq!(
        cluster.reads.get(&ticket),
        None,
        "read must not be granted before the term-start no-op commits"
    );
    cluster.wait_until("the read is granted", |c| c.reads.contains_key(&ticket));
    assert_eq!(cluster.reads[&ticket], true);
    assert!(
        cluster.status(leader.id).commit_index >= leader.last_log_index,
        "grant implies the no-op committed"
    );
    cluster.shutdown();
}

/// A leader partitioned into a minority holds a provably stale value. Its
/// linearizable read must not be confirmed: losing leadership resolves it
/// with an error, never with the stale state.
#[test]
fn partitioned_leader_never_serves_a_stale_read() {
    let mut cluster = Cluster::spawn(3, 75, low_loss_faults());
    let old_leader = cluster.wait_for_leader().id;
    cluster.confirm_put(&[old_leader], "k", 1);

    let followers = cluster.others(old_leader);
    cluster.isolate(old_leader, true);
    let ticket = cluster.read(old_leader).expect("still believes it leads");

    // The majority elects a successor and commits a newer value.
    let new_leader = cluster.wait_for_leader_among(&followers).id;
    cluster.confirm_put(&[new_leader], "k", 2);
    assert_eq!(cluster.get(old_leader, "k"), Some(Value::from(1)), "provably stale");
    cluster.run(3_000 * MS);
    assert_eq!(
        cluster.reads.get(&ticket),
        Some(&false),
        "resolved as an error, not a grant"
    );

    // A retry against the new leader sees the new value.
    cluster.isolate(old_leader, false);
    let ticket = cluster.read(new_leader).expect("new leader accepts");
    cluster.run(2_000 * MS);
    assert_eq!(cluster.reads.get(&ticket), Some(&true));
    assert_eq!(cluster.get(new_leader, "k"), Some(Value::from(2)));
    cluster.shutdown();
}

// ---- exactly-once writes ----

/// An ambiguous write, a conflicting confirmed write, and the retry.
fn run_ambiguous_retry(seed: u64, a_write: Command, a_retry: Command) -> Cluster {
    let mut cluster = Cluster::spawn(3, seed, low_loss_faults());
    let leader = cluster.wait_for_leader();
    let followers = cluster.others(leader.id);

    // The AppendEntries requests still deliver but every ack dies: replicated
    // on both followers, uncommitted on the leader.
    let (_, pa) = cluster.propose(leader.id, a_write).unwrap();
    for &f in &followers {
        cluster.net.set_link_blocked(f, leader.id, true);
    }
    assert_eq!(
        cluster.outcome_within(pa, 1000 * MS),
        None,
        "client A's outcome must be ambiguous"
    );

    // CheckQuorum deposed the deaf leader and a follower won with the longer
    // log; its no-op commits A's entry transitively.
    let new = cluster.wait_for_leader_among(&followers);
    assert!(new.term > leader.term);
    cluster.wait_until("A's ambiguous write commits transitively", |c| {
        c.get(new.id, "k").is_some()
    });

    // Client B's conflicting write, positively confirmed; then A retries.
    let (_, pb) = cluster.propose(new.id, put("k", 2)).unwrap();
    assert_eq!(cluster.outcome_within(pb, 2000 * MS), Some(Some(true)));
    let (_, pr) = cluster.propose(new.id, a_retry).unwrap();
    assert_eq!(cluster.outcome_within(pr, 2000 * MS), Some(Some(true)));

    for &f in &followers {
        cluster.net.set_link_blocked(f, leader.id, false);
    }
    let all = cluster.all_ids();
    cluster.converge_among(&all);
    cluster
}

/// Without a token the retry is a second, independent write.
#[test]
fn untokened_ambiguous_retry_silently_destroys_a_confirmed_write() {
    let cluster = run_ambiguous_retry(71, put("k", 1), put("k", 1));
    for id in cluster.all_ids() {
        assert_eq!(
            cluster.get(id, "k"),
            Some(Value::from(1)),
            "node {id}: the stale duplicate applied last"
        );
    }
    cluster.shutdown();
}

/// With a token the retry still commits, but its application is skipped, on
/// every node and across a restart.
#[test]
fn tokened_retry_commits_twice_but_applies_once() {
    let mut cluster = run_ambiguous_retry(
        71,
        put_with_token("k", 1, 1, 1),
        put_with_token("k", 1, 1, 1),
    );
    let expected_sessions = HashMap::from([(1u64, SessionState { max_seq: 1, recent: 1 })]);
    for id in cluster.all_ids() {
        assert_eq!(
            cluster.get(id, "k"),
            Some(Value::from(2)),
            "node {id}: B's confirmed write must survive the stale duplicate"
        );
        assert_eq!(
            cluster.node(id).state_machine().export().sessions,
            expected_sessions,
            "node {id}: client 1's applied window holds seq 1 (B was token-less)"
        );
    }

    // Crash/restart: the fresh state machine rebuilds map AND sessions by
    // replaying the log, including re-skipping the duplicate.
    let victim = cluster.all_ids()[0];
    cluster.crash(victim);
    cluster.restart(victim);
    cluster.wait_until("restarted node rebuilds its state from the log", |c| {
        c.get(victim, "k") == Some(Value::from(2))
    });
    assert_eq!(
        cluster.node(victim).state_machine().export().sessions,
        expected_sessions,
        "sessions table must be rebuilt by replay alone"
    );
    cluster.shutdown();
    // The log really holds two entries with the same token: dedup happened at
    // apply, not at propose or commit.
    let same_token_entries = cluster
        .disk_log(victim)
        .iter()
        .filter(|e| {
            matches!(
                &e.command,
                Command::Put { key, session: Some(s), .. }
                    if key == "k" && *s == Session { client: 1, seq: 1 }
            )
        })
        .count();
    assert_eq!(same_token_entries, 2);
}

// ---- snapshots ----

fn with_threshold(n: u64, seed: u64, threshold: u64) -> Cluster {
    Cluster::spawn_with(n, seed, low_loss_faults(), Some(threshold), 0, |_, _| {})
}

#[test]
fn threshold_trigger_compacts_every_node() {
    let mut cluster = with_threshold(3, 71, 8);
    let all = cluster.all_ids();
    for i in 1..=20u64 {
        cluster.confirm_put(&all, &format!("k{i}"), i);
    }
    cluster.converge_among(&all);
    cluster.assert_states_identical(&all);
    for i in 1..=20u64 {
        assert_eq!(cluster.get(1, &format!("k{i}")), Some(Value::from(i)));
    }
    cluster.shutdown();
    for id in all {
        let snapshot = cluster
            .disk_snapshot(id)
            .unwrap_or_else(|| panic!("node {id}: never compacted"));
        assert!(
            snapshot.last_included_index >= 8,
            "node {id}: boundary {} below the threshold's first trigger",
            snapshot.last_included_index
        );
        assert_eq!(snapshot.membership, None, "the log never set a configuration");
        // The retained log continues exactly at the boundary; the compacted
        // prefix is gone from disk.
        if let Some(first) = cluster.disk_log(id).first() {
            assert_eq!(
                first.index,
                snapshot.last_included_index + 1,
                "node {id}: retained log must continue from its boundary"
            );
        }
    }
}

#[test]
fn single_node_restarts_from_its_own_snapshot() {
    let mut cluster = with_threshold(1, 72, 4);
    for i in 1..=10u64 {
        cluster.confirm_put(&[1], &format!("k{i}"), i);
    }
    cluster.crash(1);
    cluster.restart(1);
    // The reborn node re-elects itself; its no-op commit re-commits (and
    // re-applies) the retained tail on top of the restored snapshot.
    cluster.wait_for_leader();
    cluster.wait_until("state rebuilt from snapshot + retained log", |c| {
        (1..=10u64).all(|i| c.get(1, &format!("k{i}")) == Some(Value::from(i)))
    });
    // And it keeps working (including further compaction) after the restore.
    cluster.confirm_put(&[1], "k11", 11);
    assert_eq!(cluster.get(1, "k11"), Some(Value::from(11)));
    cluster.shutdown();
    let snapshot = cluster.disk_snapshot(1).expect("compacted");
    assert!(snapshot.last_included_index >= 4);
    if let Some(first) = cluster.disk_log(1).first() {
        assert_eq!(first.index, snapshot.last_included_index + 1);
    }
}

/// Crash a follower, commit and compact PAST its entire log on the survivors,
/// restart it: it must converge through a snapshot.
fn run_install_snapshot_catch_up(seed: u64, duplicate_probability: f64) {
    let mut faults = low_loss_faults();
    faults.duplicate_threshold = probability(duplicate_probability);
    let mut cluster = Cluster::spawn_with(3, seed, faults, Some(8), 0, |_, _| {});
    let all = cluster.all_ids();

    let leader = cluster.wait_for_leader();
    cluster.confirm_put(&all, "k1", 1);
    cluster.confirm_put(&all, "k2", 2);
    cluster.converge_among(&all);

    let victim = cluster.others(leader.id)[0];
    let victim_last = cluster.status(victim).last_log_index;
    cluster.crash(victim);

    let survivors = cluster.others(victim);
    for i in 3..=20u64 {
        cluster.confirm_put(&survivors, &format!("k{i}"), i);
    }
    cluster.converge_among(&survivors);

    cluster.restart(victim);
    cluster.converge_among(&all);
    cluster.assert_states_identical(&all);
    for i in 1..=20u64 {
        assert_eq!(
            cluster.get(victim, &format!("k{i}")),
            Some(Value::from(i)),
            "seed {seed}: k{i} missing on the caught-up node"
        );
    }
    cluster.shutdown();
    // The survivors really compacted past the victim's entire log, so entries
    // <= victim_last were unsendable.
    for &id in &survivors {
        let boundary = cluster
            .disk_snapshot(id)
            .expect("survivors compacted")
            .last_included_index;
        assert!(boundary > victim_last, "seed {seed}: survivor {id}");
    }
    // The victim holds a snapshot, and nothing in its log, its own stale prefix
    // included, is at or below its crash-time last index.
    let snapshot = cluster
        .disk_snapshot(victim)
        .expect("the victim caught up via a snapshot");
    assert!(snapshot.last_included_index > victim_last);
    let log = cluster.disk_log(victim);
    assert!(log.iter().all(|e| e.index > victim_last));
    if let Some(first) = log.first() {
        assert_eq!(first.index, snapshot.last_included_index + 1);
    }
}

#[test]
fn lagging_node_catches_up_via_install_snapshot() {
    for seed in [73, 74, 75] {
        run_install_snapshot_catch_up(seed, 0.0);
    }
}

#[test]
fn duplicated_install_snapshots_are_harmless() {
    run_install_snapshot_catch_up(76, 1.0);
}

/// A tokened write, a conflicting write under a different client, then enough
/// filler that every live node compacts both AWAY.
fn tokened_then_conflicting_then_filler(cluster: &mut Cluster, ids: &[NodeId]) -> LogIndex {
    let leader = cluster.wait_for_leader_among(ids);
    let (original, t) = cluster
        .propose(leader.id, put_with_token("k", 1, 7, 1))
        .expect("tokened write accepted");
    cluster.must_commit(t);
    let (_, t) = cluster
        .propose(leader.id, put_with_token("k", 2, 8, 1))
        .expect("conflicting write accepted");
    cluster.must_commit(t);
    for i in 1..=12u64 {
        cluster.confirm_put(ids, &format!("f{i}"), i);
    }
    original.index
}

/// The retry COMMITS (dedup is at apply, never at propose) yet mutates nothing
/// anywhere: `k` stays 2.
fn retry_must_dedup_everywhere(cluster: &mut Cluster, context: &str) {
    let all = cluster.all_ids();
    let leader = cluster.wait_for_leader_among(&all);
    let (_, t) = cluster
        .propose(leader.id, put_with_token("k", 1, 7, 1))
        .expect("retry accepted");
    cluster.must_commit(t);
    cluster.converge_among(&all);
    cluster.assert_states_identical(&all);
    for id in all {
        assert_eq!(
            cluster.get(id, "k"),
            Some(Value::from(2)),
            "{context}: node {id} applied the retry"
        );
    }
}

#[test]
fn dedup_survives_restart_from_own_snapshot() {
    let mut cluster = with_threshold(3, 77, 8);
    let all = cluster.all_ids();
    let original_index = tokened_then_conflicting_then_filler(&mut cluster, &all);
    cluster.converge_among(&all);

    let leader = cluster.wait_for_leader();
    let victim = cluster.others(leader.id)[0];
    cluster.crash(victim);
    cluster.restart(victim);
    cluster.converge_among(&all);

    retry_must_dedup_everywhere(&mut cluster, "restart-from-own-snapshot");
    cluster.shutdown();
    // The restarted node could only have known (7, 1) applied through its
    // snapshot: the original entry is not in its retained log.
    let boundary = cluster
        .disk_snapshot(victim)
        .expect("victim compacted before the crash")
        .last_included_index;
    assert!(boundary >= original_index);
    assert!(cluster.disk_log(victim).iter().all(|e| e.index != original_index));
}

#[test]
fn dedup_survives_catch_up_via_install_snapshot() {
    let mut cluster = with_threshold(3, 78, 8);
    let all = cluster.all_ids();
    let leader = cluster.wait_for_leader();
    let victim = cluster.others(leader.id)[0];
    let victim_last = cluster.status(victim).last_log_index;
    cluster.crash(victim);

    let survivors = cluster.others(victim);
    let original_index = tokened_then_conflicting_then_filler(&mut cluster, &survivors);
    cluster.converge_among(&survivors);

    cluster.restart(victim);
    cluster.converge_among(&all);

    retry_must_dedup_everywhere(&mut cluster, "catch-up-via-install-snapshot");
    cluster.shutdown();
    let log = cluster.disk_log(victim);
    assert!(log.iter().all(|e| e.index > victim_last));
    assert!(log.iter().all(|e| e.index != original_index));
    assert!(
        cluster
            .disk_snapshot(victim)
            .expect("snapshot installed")
            .last_included_index
            >= original_index
    );
}

/// A pending proposal whose entry is swallowed by an INSTALLED snapshot
/// resolves as unknown, never as a definite answer: the entry IS in the
/// committed history and lands in the final state.
#[test]
fn proposal_swallowed_by_installed_snapshot_resolves_ambiguous_not_false() {
    let mut cluster = with_threshold(3, 79, 8);
    let all = cluster.all_ids();
    let leader = cluster.wait_for_leader();
    cluster.confirm_put(&all, "v0", 0);
    cluster.converge_among(&all);

    // Sever ONLY the follower→leader legs.
    let followers = cluster.others(leader.id);
    for &f in &followers {
        cluster.net.set_link_blocked(f, leader.id, true);
    }
    let (pending, ticket) = cluster
        .propose(leader.id, put("v1", 1))
        .expect("still leader inside the check-quorum window");

    // CheckQuorum deposes the deaf leader; the followers elect a successor
    // whose no-op commits the entry transitively.
    let successor = cluster.wait_for_leader_among(&followers);
    assert!(successor.term > leader.term);
    assert_eq!(
        cluster.outcome_within(ticket, 2000 * MS),
        None,
        "nothing may resolve the proposal while its node is cut off"
    );
    // The survivors commit + compact PAST it.
    for i in 1..=12u64 {
        cluster.confirm_put(&followers, &format!("f{i}"), i);
    }
    cluster.converge_among(&followers);
    for &f in &followers {
        cluster.net.set_link_blocked(f, leader.id, false);
    }
    assert_eq!(
        cluster.outcome_within(ticket, 3000 * MS),
        Some(None),
        "ambiguous is the only honest answer"
    );

    cluster.converge_among(&all);
    assert_eq!(cluster.get(leader.id, "v1"), Some(Value::from(1)));
    cluster.assert_states_identical(&all);
    cluster.shutdown();
    let snapshot = cluster
        .disk_snapshot(leader.id)
        .expect("the deposed leader was caught up via InstallSnapshot");
    assert!(snapshot.last_included_index >= pending.index);
    assert!(cluster.disk_log(leader.id).iter().all(|e| e.index != pending.index));
}

#[test]
fn trailing_window_keeps_the_boundary_behind_the_applied_index() {
    let mut cluster = Cluster::spawn_with(1, 81, low_loss_faults(), Some(4), 8, |_, _| {});
    for i in 1..=30u64 {
        cluster.confirm_put(&[1], &format!("k{i}"), i);
    }
    cluster.crash(1);
    cluster.restart(1);
    cluster.wait_for_leader();
    cluster.wait_until("state rebuilt from lagging snapshot + long tail", |c| {
        (1..=30u64).all(|i| c.get(1, &format!("k{i}")) == Some(Value::from(i)))
    });
    cluster.shutdown();
    let boundary = cluster
        .disk_snapshot(1)
        .expect("compacted repeatedly")
        .last_included_index;
    let log = cluster.disk_log(1);
    let last = log.last().expect("retained tail is nonempty").index;
    assert!(boundary >= 1);
    assert!(
        last - boundary >= 8,
        "boundary {boundary} closer than the trailing window to the tail {last}"
    );
    assert_eq!(log.first().unwrap().index, boundary + 1);
}

#[test]
fn slow_live_peer_catches_up_via_entries_inside_the_trailing_window() {
    let mut cluster = Cluster::spawn_with(3, 82, low_loss_faults(), Some(2), 16, |_, _| {});
    let all = cluster.all_ids();
    let leader = cluster.wait_for_leader();
    for i in 1..=4u64 {
        cluster.confirm_put(&all, &format!("k{i}"), i);
    }
    cluster.converge_among(&all);

    // Isolate a follower (live, not crashed) and commit past it, but by less
    // than the trailing window, so its entries stay retained.
    let victim = cluster.others(leader.id)[0];
    let victim_last = cluster.status(victim).last_log_index;
    cluster.isolate(victim, true);
    let survivors = cluster.others(victim);
    for i in 5..=22u64 {
        cluster.confirm_put(&survivors, &format!("k{i}"), i);
    }
    cluster.converge_among(&survivors);
    cluster.isolate(victim, false);
    cluster.converge_among(&all);
    cluster.assert_states_identical(&all);
    cluster.shutdown();
    let final_last = cluster.disk_log(leader.id).last().unwrap().index;
    for &id in &survivors {
        let boundary = cluster
            .disk_snapshot(id)
            .expect("survivors compacted during the isolation")
            .last_included_index;
        assert!(boundary >= 1, "node {id} never compacted");
        assert!(boundary <= victim_last, "node {id} compacted past the victim's log");
        assert!(
            final_last - boundary >= 16,
            "node {id}: trailing guarantee violated"
        );
    }
    // Every entry the victim missed reached it AS AN ENTRY.
    let victim_log = cluster.disk_log(victim);
    for index in victim_last + 1..=final_last {
        assert!(
            victim_log.iter().any(|e| e.index == index),
            "index {index} missing from the victim's log"
        );
    }
    if let Some(snapshot) = cluster.disk_snapshot(victim) {
        assert!(snapshot.last_included_index <= victim_last);
    }
}

// ---- membership ----

fn refused(err: Result<(Proposal, u64), ProposeError>) -> bool {
    matches!(err, Err(ProposeError::InvalidConfigChange { .. }))
}

#[test]
fn grow_3_to_4_under_live_writes() {
    let mut cluster = Cluster::spawn(3, 151, low_loss_faults());
    cluster.wait_for_leader();
    for i in 0..5 {
        cluster.confirm_put(&[1, 2, 3], &format!("a{i}"), i);
    }
    cluster.add_node(4);
    cluster.commit_config(&[1, 2, 3], |m| m.insert(4, member_addr(4)));
    for i in 0..5 {
        cluster.confirm_put(&[1, 2, 3], &format!("b{i}"), i);
    }
    let all = cluster.all_ids();
    cluster.converge_among(&all);
    cluster.assert_states_identical(&all);
    for &id in &all {
        assert_eq!(cluster.membership(id).len(), 4, "node {id}");
        assert_eq!(cluster.keys(id), 10, "node {id}");
    }
    cluster.shutdown();
}

#[test]
fn shrink_4_to_3_under_live_writes() {
    let mut cluster = Cluster::spawn(4, 152, low_loss_faults());
    let leader = cluster.wait_for_leader();
    let victim = cluster.others(leader.id)[0];
    let members = cluster.others(victim);
    cluster.confirm_put(&members, "before", 1);
    cluster.commit_config(&members, |m| {
        m.remove(victim);
    });
    cluster.crash(victim);
    for i in 0..5 {
        cluster.confirm_put(&members, &format!("b{i}"), i);
    }
    cluster.converge_among(&members);
    cluster.assert_states_identical(&members);
    cluster.shutdown();
}

#[test]
fn removing_the_leader_commits_then_it_steps_down_and_survivors_elect() {
    let mut cluster = Cluster::spawn(3, 153, low_loss_faults());
    let all = cluster.all_ids();
    let leader = cluster.wait_for_leader();
    cluster.confirm_put(&all, "before", 1);
    cluster.converge_among(&all);

    cluster.commit_config(&all, |m| {
        m.remove(leader.id);
    });
    // Step-down on commit: the deposed leader drops to follower without
    // waiting for anything else to happen.
    assert_ne!(cluster.status(leader.id).role, RoleKind::Leader);

    // The survivors elect among themselves and keep serving writes; the
    // removed ex-leader (still running) never disrupts.
    let survivors = cluster.others(leader.id);
    let successor = cluster.wait_for_leader_among(&survivors);
    assert!(survivors.contains(&successor.id));
    assert!(successor.term > leader.term, "a fresh election happened");
    cluster.confirm_put(&survivors, "after", 2);
    cluster.converge_among(&survivors);
    assert_eq!(
        cluster.status(leader.id).role,
        RoleKind::Follower,
        "the removed ex-leader must stay a silent follower"
    );
    cluster.shutdown();
}

#[test]
fn self_removing_leader_does_not_count_itself_toward_commit() {
    let mut cluster = Cluster::spawn(4, 162, low_loss_faults());
    let all = cluster.all_ids();
    let leader = cluster.wait_for_leader();
    cluster.confirm_put(&all, "before", 1);
    cluster.converge_among(&all);

    let followers = cluster.others(leader.id);
    for &f in &followers[1..] {
        cluster.isolate(f, true);
    }
    let mut members = cluster.membership(leader.id);
    members.remove(leader.id);
    let (_, ticket) = cluster
        .propose_config(leader.id, members)
        .expect("the leader accepts its own removal");
    // One reachable follower's ack + the (no longer counted) leader is NOT a
    // majority of the new 3-member config: the entry must stay pending.
    assert_eq!(
        cluster.outcome_within(ticket, 200 * MS),
        None,
        "the removal committed with one follower ack: the leader counted itself"
    );
    // Heal: the entry replicates for real, commits under the true majority,
    // and the leader steps down.
    for &f in &followers[1..] {
        cluster.isolate(f, false);
    }
    cluster.must_commit(ticket);
    assert_ne!(cluster.status(leader.id).role, RoleKind::Leader);
    cluster.wait_for_leader_among(&followers);
    cluster.confirm_put(&followers, "after", 2);
    cluster.shutdown();
}

#[test]
fn joiner_catches_up_purely_via_install_snapshot() {
    let mut cluster = with_threshold(3, 154, 8);
    let originals = cluster.all_ids();
    cluster.wait_for_leader();
    for i in 1..=20u64 {
        cluster.confirm_put(&originals, &format!("k{i}"), i);
    }
    cluster.converge_among(&originals);

    cluster.add_node_with(4, None);
    cluster.commit_config(&originals, |m| m.insert(4, member_addr(4)));
    let all = cluster.all_ids();
    cluster.converge_among(&all);
    cluster.assert_states_identical(&all);
    for i in 1..=20u64 {
        assert_eq!(cluster.get(4, &format!("k{i}")), Some(Value::from(i)));
    }
    cluster.shutdown();
    // The joiner never compacts (threshold None), so this snapshot arrived
    // over the wire...
    let snapshot = cluster
        .disk_snapshot(4)
        .expect("the joiner can only own a snapshot via InstallSnapshot");
    assert!(snapshot.last_included_index >= 16);
    // ...and the compacted prefix never existed on it as entries.
    let log = cluster.disk_log(4);
    assert!(log.iter().all(|e| e.index > snapshot.last_included_index));
    if let Some(first) = log.first() {
        assert_eq!(first.index, snapshot.last_included_index + 1);
    }
}

#[test]
fn joiner_backfills_via_append_entries_when_nothing_was_compacted() {
    let mut cluster = Cluster::spawn(3, 155, low_loss_faults());
    let originals = cluster.all_ids();
    cluster.wait_for_leader();
    for i in 1..=10u64 {
        cluster.confirm_put(&originals, &format!("k{i}"), i);
    }
    cluster.add_node(4);
    cluster.commit_config(&originals, |m| m.insert(4, member_addr(4)));
    let all = cluster.all_ids();
    cluster.converge_among(&all);
    cluster.assert_states_identical(&all);
    cluster.shutdown();
    assert!(
        cluster.disk_snapshot(4).is_none(),
        "no snapshot may exist on the AE-backfill path"
    );
    assert_eq!(cluster.disk_log(4), cluster.disk_log(1), "logs must be identical");
    assert_eq!(cluster.disk_log(4).first().map(|e| e.index), Some(1));
}

#[test]
fn truncated_config_change_rescans_membership() {
    let mut cluster = Cluster::spawn(3, 156, low_loss_faults());
    let all = cluster.all_ids();
    let leader = cluster.wait_for_leader();
    cluster.confirm_put(&all, "before", 1);
    cluster.converge_among(&all);

    // Sever the leader's OUTBOUND request legs: nothing it appends can
    // replicate, and CheckQuorum will depose it.
    let followers = cluster.others(leader.id);
    for &f in &followers {
        cluster.net.set_link_blocked(leader.id, f, true);
    }
    // The doomed change adds a member that does not even exist. Effective on
    // append: the isolated leader now believes in a 4-member cluster.
    let mut phantom_members = cluster.membership(leader.id);
    phantom_members.insert(9, member_addr(9));
    let (_, ticket) = cluster
        .propose_config(leader.id, phantom_members)
        .expect("still leader inside the check-quorum window");
    assert_eq!(cluster.membership(leader.id).len(), 4);

    // The followers stop hearing heartbeats, elect a successor, and move on.
    let successor = cluster.wait_for_leader_among(&followers);
    assert!(successor.term > leader.term);
    cluster.confirm_put(&followers, "during", 2);

    // Heal: the successor's conflicting entries truncate the uncommitted
    // change, which must force the membership rescan.
    for &f in &followers {
        cluster.net.set_link_blocked(leader.id, f, false);
    }
    assert_eq!(
        cluster.outcome_within(ticket, 5_000 * MS),
        Some(Some(false)),
        "the phantom change was truncated, never committed"
    );
    assert_eq!(cluster.membership(leader.id).len(), 3);
    cluster.converge_among(&all);

    // Quorum behavior, not internals: crash the successor; the other two elect
    // and commit with 2 of 3, whoever of them leads.
    cluster.crash(successor.id);
    let remaining = cluster.others(successor.id);
    cluster.wait_for_leader_among(&remaining);
    cluster.confirm_put(&remaining, "after", 3);
    cluster.shutdown();
}

fn fixed_delay_faults() -> FaultConfig {
    FaultConfig {
        min_delay: 10 * MS,
        max_delay: 10 * MS,
        drop_threshold: 0,
        duplicate_threshold: 0,
        rpc_timeout: 50 * MS,
    }
}

#[test]
fn config_changes_are_validated_and_one_at_a_time() {
    let mut cluster = Cluster::spawn(3, 157, fixed_delay_faults());
    let all = cluster.all_ids();
    let leader = cluster.wait_for_leader();
    cluster.confirm_put(&all, "ready", 1);
    let members = cluster.membership(leader.id);

    // Not a single-server delta: two additions at once.
    let mut two_adds = members.clone();
    two_adds.insert(4, member_addr(4));
    two_adds.insert(5, member_addr(5));
    assert!(refused(cluster.propose_config(leader.id, two_adds)));

    // A zero-delta "change" is rejected too.
    assert!(refused(cluster.propose_config(leader.id, members.clone())));

    // Nor may a member's address change.
    let mut readdressed = members.clone();
    readdressed.insert(1, member_addr(9));
    assert!(refused(cluster.propose_config(leader.id, readdressed)));

    // One at a time: a second change is refused while the first is still
    // uncommitted (10ms fixed delays leave a wide-open window).
    let mut add4 = members.clone();
    add4.insert(4, member_addr(4));
    let (_, first) = cluster
        .propose_config(leader.id, add4.clone())
        .expect("the first change is accepted");
    let mut add5 = add4.clone();
    add5.insert(5, member_addr(5));
    assert!(refused(cluster.propose_config(leader.id, add5)));
    cluster.must_commit(first);

    // Once committed, the next single-server change is accepted again.
    cluster.add_node(4); // let the new member actually exist before removal
    cluster.commit_config(&all, |m| {
        m.remove(4);
    });

    // Non-leaders refuse outright (NotLeader, not validation).
    let follower = all.iter().copied().find(|&id| id != leader.id).unwrap();
    let view = cluster.membership(follower);
    assert!(matches!(
        cluster.propose_config(follower, view),
        Err(ProposeError::NotLeader { .. })
    ));
    cluster.shutdown();
}

#[test]
fn removing_the_last_member_is_rejected() {
    let mut cluster = Cluster::spawn(1, 158, low_loss_faults());
    cluster.wait_for_leader();
    cluster.confirm_put(&[1], "ready", 1);
    assert!(refused(cluster.propose_config(1, Membership::new())));
    cluster.shutdown();
}

#[test]
fn config_change_is_rejected_until_the_no_op_commits() {
    let mut cluster = Cluster::spawn(3, 159, fixed_delay_faults());
    let leader = cluster.wait_for_leader();
    // Precondition: the no-op is appended but not yet committed.
    assert!(leader.commit_index < leader.last_log_index);
    let mut add4 = cluster.membership(leader.id);
    add4.insert(4, member_addr(4));
    assert!(refused(cluster.propose_config(leader.id, add4.clone())));

    // Once the no-op commits, the very same change is accepted.
    cluster.wait_until("the leadership no-op commits", |c| {
        let s = c.status(leader.id);
        s.commit_index >= leader.last_log_index && s.role == RoleKind::Leader
    });
    cluster.add_node(4);
    let (_, ticket) = cluster
        .propose_config(leader.id, add4)
        .expect("accepted once the no-op is committed");
    cluster.must_commit(ticket);
    cluster.shutdown();
}

#[test]
fn growing_a_single_node_cluster_is_rejected() {
    let mut cluster = Cluster::spawn(1, 163, low_loss_faults());
    cluster.wait_for_leader();
    cluster.confirm_put(&[1], "ready", 1);
    let mut add2 = cluster.membership(1);
    add2.insert(2, member_addr(2));
    assert!(refused(cluster.propose_config(1, add2)));
    // The refusal left the cluster fully functional.
    cluster.confirm_put(&[1], "still-works", 2);
    cluster.shutdown();
}

#[test]
fn add_is_rejected_while_a_member_is_unreachable() {
    let mut cluster = Cluster::spawn(3, 164, low_loss_faults());
    let all = cluster.all_ids();
    let leader = cluster.wait_for_leader();
    cluster.confirm_put(&all, "ready", 1);
    cluster.converge_among(&all);

    let down = cluster.others(leader.id)[0];
    cluster.crash(down);
    // Let the crashed member's last contact age past the guard's window.
    cluster.run(400 * MS);
    assert_eq!(
        cluster.status(leader.id).role,
        RoleKind::Leader,
        "one lost follower must not depose the leader (CheckQuorum: 2 of 3)"
    );
    let mut add4 = cluster.membership(leader.id);
    add4.insert(4, member_addr(4));
    assert!(refused(cluster.propose_config(leader.id, add4.clone())));

    // Heal: once the restarted member is HEARD again, the identical add is
    // accepted and commits with the three originals (3 of the new 4).
    cluster.restart(down);
    cluster.converge_among(&all);
    let ticket = loop {
        match cluster.propose_config(leader.id, add4.clone()) {
            Ok((_, ticket)) => break ticket,
            Err(ProposeError::InvalidConfigChange { .. }) => cluster.run(10 * MS),
            Err(other) => panic!("unexpected rejection after heal: {}", other.message()),
        }
    };
    cluster.must_commit(ticket);
    cluster.shutdown();
}

#[test]
fn removal_is_rejected_when_it_would_strand_the_survivors() {
    let mut cluster = Cluster::spawn(3, 165, low_loss_faults());
    let all = cluster.all_ids();
    let leader = cluster.wait_for_leader();
    cluster.confirm_put(&all, "ready", 1);
    cluster.converge_among(&all);

    let followers = cluster.others(leader.id);
    let (live, dead) = (followers[0], followers[1]);
    cluster.crash(dead);
    cluster.run(400 * MS);

    let mut remove_live = cluster.membership(leader.id);
    remove_live.remove(live);
    assert!(refused(cluster.propose_config(leader.id, remove_live)));

    // The recovery path stays open: drop the dead member instead.
    cluster.commit_config(&[leader.id, live], |m| {
        m.remove(dead);
    });
    cluster.confirm_put(&[leader.id, live], "after", 2);
    cluster.shutdown();
}

#[test]
fn joiner_never_campaigns_before_a_config_includes_it() {
    let mut cluster = Cluster::spawn(3, 160, low_loss_faults());
    let originals = cluster.all_ids();
    let leader = cluster.wait_for_leader();
    cluster.confirm_put(&originals, "k", 1);

    cluster.add_node(4);
    // Many election timeouts' worth of virtual time: the joiner must sit in
    // silence and the cluster must not notice it exists.
    cluster.run(5_000 * MS);
    let joiner = cluster.status(4);
    assert_eq!(joiner.role, RoleKind::Follower, "joiners never campaign");
    assert_eq!(joiner.term, 0, "a joiner's term never moves on its own");
    assert_eq!(joiner.last_log_index, 0);
    let unchanged = cluster.wait_for_leader_among(&originals);
    assert_eq!(unchanged.id, leader.id, "the joiner must not disrupt");
    assert_eq!(unchanged.term, leader.term);

    // Adopted: it catches up, and from then on counts. After the leader
    // crashes, the remaining three (joiner included) elect and commit.
    cluster.commit_config(&originals, |m| m.insert(4, member_addr(4)));
    let all = cluster.all_ids();
    cluster.converge_among(&all);
    cluster.crash(leader.id);
    let remaining = cluster.others(leader.id);
    cluster.wait_for_leader_among(&remaining);
    cluster.confirm_put(&remaining, "post-crash", 2);
    cluster.shutdown();
}

#[test]
fn a_removed_server_hears_no_more_of_the_leader() {
    let mut cluster = Cluster::spawn(4, 23, low_loss_faults());
    let all = cluster.all_ids();
    let leader = cluster.wait_for_leader();
    cluster.confirm_put(&all, "before", 1);
    cluster.converge_among(&all);
    let victim = *all.iter().find(|&&id| id != leader.id).unwrap();
    let last = cluster.status(victim).last_log_index;

    cluster.commit_config(&all, |m| {
        m.remove(victim);
    });
    let members: Vec<NodeId> = all.iter().copied().filter(|&id| id != victim).collect();
    cluster.confirm_put(&members, "after", 2);
    cluster.run(2_000 * MS);
    assert_eq!(
        cluster.status(victim).last_log_index,
        last,
        "not even its own removal is sent to it"
    );
    assert!(cluster.membership(victim).contains_key(victim), "it has not learnt of it");
    cluster.shutdown();
}

#[test]
fn removed_follower_cannot_disrupt_the_members() {
    let mut cluster = Cluster::spawn(4, 161, low_loss_faults());
    let all = cluster.all_ids();
    let leader = cluster.wait_for_leader();
    cluster.confirm_put(&all, "before", 1);
    cluster.converge_among(&all);

    let victim = cluster.others(leader.id)[0];
    cluster.commit_config(&all, |m| {
        m.remove(victim);
    });
    let members = cluster.others(victim);
    cluster.confirm_put(&members, "after", 2);
    let term_before = cluster.wait_for_leader_among(&members).term;

    // Leader alive: 5 virtual seconds of the removed server timing out.
    for _ in 0..10 {
        cluster.run(500 * MS);
        assert_ne!(cluster.status(victim).role, RoleKind::Leader);
        for &id in &members {
            assert_eq!(
                cluster.status(id).term,
                term_before,
                "a removed server moved the members' term"
            );
        }
    }
    // The stickiness-lapsed window: the log check alone must hold the line.
    cluster.crash(leader.id);
    let survivors: Vec<NodeId> = members.iter().copied().filter(|&id| id != leader.id).collect();
    let successor = cluster.wait_for_leader_among(&survivors);
    assert!(survivors.contains(&successor.id), "only members may win elections");
    assert_ne!(cluster.status(victim).role, RoleKind::Leader);
    cluster.confirm_put(&survivors, "final", 3);
    for &id in &survivors {
        assert_eq!(cluster.status(id).term, successor.term);
    }
    cluster.shutdown();
}

// ---- faults ----

#[test]
fn randomized_faults_lose_no_confirmed_write() {
    for seed in 0..6u64 {
        let faults = FaultConfig {
            min_delay: MS,
            max_delay: 15 * MS,
            drop_threshold: probability(0.1),
            duplicate_threshold: probability(0.2),
            rpc_timeout: 40 * MS,
        };
        let threshold = if seed % 2 == 0 { Some(6) } else { None };
        let mut cluster = Cluster::spawn_with(3, seed, faults, threshold, 0, |_, _| {});
        let mut rng = rustkv::rng::SplitMix64::new(seed);
        let mut confirmed = Vec::new();
        for round in 0..40u64 {
            let victim = 1 + rng.next_range(0..=2);
            match rng.next_range(0..=5) {
                0 => cluster.isolate(victim, true),
                1 => {
                    for id in 1..=3 {
                        cluster.isolate(id, false);
                    }
                }
                2 => {
                    cluster.crash(victim);
                    cluster.run(rng.next_range(0..=200) * MS);
                    cluster.restart(victim);
                }
                _ => {}
            }
            let ids = cluster.all_ids();
            for leader in cluster.leaders_among(&ids) {
                if let Ok((_, ticket)) = cluster.propose(
                    leader.id,
                    put_with_token(&format!("k{round}-{}", leader.id), round, leader.id, round + 1),
                ) {
                    if cluster.outcome_within(ticket, 300 * MS) == Some(Some(true)) {
                        confirmed.push((format!("k{round}-{}", leader.id), round));
                    }
                }
            }
            cluster.run(rng.next_range(10..=150) * MS);
        }
        for id in 1..=3 {
            cluster.isolate(id, false);
        }
        let all = cluster.all_ids();
        cluster.wait_for_leader();
        cluster.run(2_000 * MS);
        cluster.confirm_put(&all, "end", 1);
        cluster.converge_among(&all);
        cluster.assert_states_identical(&all);
        assert!(confirmed.len() >= 5, "seed {seed}: too few writes to mean much");
        for (key, value) in &confirmed {
            assert_eq!(cluster.get(1, key), Some(Value::from(*value)), "seed {seed}: {key}");
        }
        cluster.shutdown();
    }
}

#[test]
fn crashes_between_disk_writes_lose_no_confirmed_write() {
    let mut crashes: usize = 0;
    for seed in 0..8u64 {
        let faults = FaultConfig {
            drop_threshold: probability(0.05),
            ..low_loss_faults()
        };
        let threshold = if seed % 2 == 0 { Some(4) } else { None };
        let mut cluster = Cluster::spawn_with(3, seed, faults, threshold, 0, |_, _| {});
        let mut rng = rustkv::rng::SplitMix64::new(seed + 100);
        let mut confirmed = Vec::new();
        for round in 0..40u64 {
            let victim = 1 + rng.next_range(0..=2);
            cluster.fuse = Some((victim, rng.next_range(0..=4) as usize));
            let ids = cluster.all_ids();
            for leader in cluster.leaders_among(&ids) {
                if cluster.slots[&leader.id].node.is_none() {
                    continue;
                }
                if let Ok((_, ticket)) =
                    cluster.propose(leader.id, put(&format!("k{round}-{}", leader.id), round))
                {
                    if cluster.outcome_within(ticket, 300 * MS) == Some(Some(true)) {
                        confirmed.push((format!("k{round}-{}", leader.id), round));
                    }
                }
            }
            cluster.run(rng.next_range(10..=200) * MS);
            for id in cluster.all_ids() {
                if cluster.slots[&id].node.is_none() {
                    crashes += 1;
                    cluster.restart(id);
                }
            }
        }
        cluster.fuse = None;
        let all = cluster.all_ids();
        cluster.wait_for_leader();
        cluster.run(2_000 * MS);
        cluster.confirm_put(&all, "end", 1);
        cluster.converge_among(&all);
        cluster.assert_states_identical(&all);
        assert!(confirmed.len() >= 5, "seed {seed}: too few writes to mean much");
        for (key, value) in &confirmed {
            assert_eq!(cluster.get(1, key), Some(Value::from(*value)), "seed {seed}: {key}");
        }
        cluster.shutdown();
    }
    assert!(crashes >= 40, "only {crashes} crashes");
}

// ---- batches ----

#[test]
fn entries_are_measured_by_their_json_text() {
    let text = |e: &LogEntry, json: &str| assert_eq!(measure(e), json.len() as u128, "{json}");
    text(
        &LogEntry {
            term: 12,
            index: 345,
            command: put("k", 7),
        },
        r#"{"term":12,"index":345,"command":{"Put":{"key":"k","value":7}}}"#,
    );
    text(
        &LogEntry {
            term: 1,
            index: 2,
            command: put_with_token("q\"\n\u{1}\u{e9}", 7, 10, 200),
        },
        "{\"term\":1,\"index\":2,\"command\":{\"Put\":{\"key\":\"q\\\"\\n\\u0001\u{e9}\",\
         \"value\":7,\"session\":{\"client\":10,\"seq\":200}}}}",
    );
    text(
        &LogEntry {
            term: 1,
            index: 2,
            command: Command::Delete {
                key: "gone".to_string(),
                session: None,
            },
        },
        r#"{"term":1,"index":2,"command":{"Delete":{"key":"gone"}}}"#,
    );
    text(
        &LogEntry {
            term: 1,
            index: 2,
            command: Command::Noop,
        },
        r#"{"term":1,"index":2,"command":"Noop"}"#,
    );
    let mut members = Membership::new();
    members.insert(1, member_addr(1));
    members.insert(20, member_addr(20));
    text(
        &LogEntry {
            term: 1,
            index: 2,
            command: Command::ConfigChange {
                members: Arc::new(members),
            },
        },
        r#"{"term":1,"index":2,"command":{"ConfigChange":{"members":{"1":{"raft":"n1:9080","client":"http://n1:8080"},"20":{"raft":"n20:9080","client":"http://n20:8080"}}}}}"#,
    );
}

#[test]
fn batches_are_the_longest_beginnings_within_the_limit() {
    let entries: Vec<LogEntry> = (1..=9).map(|i| entry(1, i)).collect();
    let one = measure(&entries[0]) as usize;
    assert!(entries.iter().all(|e| measure(e) as usize == one));
    assert_eq!(batch_len(&entries, None), 9);
    assert_eq!(batch_len(&entries, Some(3 * one)), 3);
    assert_eq!(batch_len(&entries, Some(3 * one - 1)), 2);
    assert_eq!(batch_len(&entries, Some(0)), 1, "never stuck");
    assert_eq!(batch_len(&[], Some(0)), 0);
}

#[test]
fn a_capped_catch_up_ships_in_steps() {
    let mut cluster = Cluster::spawn(3, 91, low_loss_faults());
    let all = cluster.all_ids();
    for id in &all {
        cluster.slots.get_mut(id).unwrap().tuning.max_append_bytes = Some(200);
        cluster.crash(*id);
        cluster.restart(*id);
    }
    let leader = cluster.wait_for_leader();
    let lagging = cluster.others(leader.id)[0];
    let rest: Vec<NodeId> = all.iter().copied().filter(|&id| id != lagging).collect();
    cluster.isolate(lagging, true);
    for i in 0..30u64 {
        cluster.confirm_put(&rest, &format!("k{i}"), i);
    }
    cluster.isolate(lagging, false);
    cluster.converge_among(&all);
    cluster.assert_states_identical(&all);
    assert!(cluster.longest_batch > 1, "batches are used");
    assert!(cluster.longest_batch <= 3, "and capped");
    cluster.shutdown();
}

// ---- chunks ----

fn transfer(term: Term, last_included_index: LogIndex) -> TransferId {
    TransferId {
        term,
        leader_id: 2,
        last_included_index,
        last_included_term: 1,
    }
}

fn outgoing(len: u8, size: usize) -> Outgoing {
    Outgoing {
        transfer: transfer(3, 9),
        bytes: (0..len).collect(),
        size,
    }
}

#[test]
fn a_snapshot_is_cut_into_bounded_pieces() {
    let out = outgoing(10, 4);
    assert!(!out.is_single());
    assert!(outgoing(4, 4).is_single());
    let cut = |received| {
        let chunk = out.next(received);
        (chunk.offset, chunk.data, chunk.done)
    };
    assert_eq!(cut(0), (0, vec![0, 1, 2, 3], false));
    assert_eq!(cut(4), (4, vec![4, 5, 6, 7], false));
    assert_eq!(cut(8), (8, vec![8, 9], true));
    assert_eq!(cut(10), (0, vec![0, 1, 2, 3], false), "nothing behind: from the start");
}

#[test]
fn a_transfer_goes_on_behind_what_the_receiver_has() {
    let out = outgoing(10, 4);
    let answer = |term, received| Ok(RpcResponse::SnapshotChunk(SnapshotChunkReply { term, received }));
    let next = |offset, answer| match out.after_answer(offset, answer) {
        AfterChunk::More { chunk } => Some(chunk.offset),
        AfterChunk::Finished => None,
    };
    assert_eq!(next(0, answer(3, 4)), Some(4));
    assert_eq!(next(4, answer(3, 0)), None, "the receiver lost what it had");
    assert_eq!(next(0, answer(4, 4)), None, "deposed");
    assert_eq!(next(8, answer(3, 10)), None, "nothing left");
    assert_eq!(next(0, Err(TransportError::Timeout)), None);
    let installed = RpcResponse::InstallSnapshot(InstallSnapshotReply { term: 3 });
    assert_eq!(next(8, Ok(installed)), None);
}

#[test]
fn only_the_whole_snapshot_is_handed_on() {
    let out = outgoing(10, 4);
    let mut assembly = Assembly::new();
    let mut take = |chunk| {
        let taken = assembly.take(chunk);
        (taken.received, taken.whole)
    };
    assert_eq!(take(out.next(4)), (0, None), "out of order");
    assert_eq!(take(out.next(0)), (4, None));
    assert_eq!(take(out.next(0)), (4, None), "a duplicate");
    assert_eq!(take(out.next(8)), (4, None), "a gap");
    let mut stray = outgoing(10, 4);
    stray.transfer = transfer(3, 5);
    assert_eq!(take(stray.next(4)), (0, None), "another transfer");
    assert_eq!(take(out.next(4)), (8, None));
    assert_eq!(take(out.next(8)), (10, Some((0..10).collect())));
    assert_eq!(take(out.next(8)), (0, None), "all done");
    // The first piece of another transfer starts over.
    assert_eq!(take(out.next(0)), (4, None));
    assert_eq!(take(stray.next(0)), (4, None));
    assert_eq!(take(out.next(4)), (0, None));
}

#[test]
fn chunks_are_contact_and_install_nothing() {
    let mut cluster = passive(|_| {});
    let out = outgoing(10, 4);
    let now = cluster.now;
    let node = cluster.slots.get_mut(&1).unwrap().node.as_mut().unwrap();
    let mut received = 0;
    for expected in [4, 8, 10] {
        let reply = node.handle_inbound(RpcRequest::SnapshotChunk(out.next(received)), now);
        assert_eq!(
            reply,
            RpcResponse::SnapshotChunk(SnapshotChunkReply {
                term: 3,
                received: expected
            })
        );
        received = expected;
        assert_eq!(node.status().leader_id, Some(2));
        assert_eq!(node.status().last_log_index, 0);
    }
    let effects = node.take_effects();
    assert_eq!(effects.len(), 1);
    match &effects[0] {
        Effect::Assembled { transfer, bytes } => {
            assert_eq!(*transfer, out.transfer);
            assert_eq!(*bytes, out.bytes);
        }
        _ => panic!("the whole snapshot is let out"),
    }
    // A chunk of an earlier term is refused.
    let mut stale = outgoing(10, 4);
    stale.transfer = transfer(2, 9);
    assert_eq!(
        node.handle_inbound(RpcRequest::SnapshotChunk(stale.next(0)), now),
        RpcResponse::SnapshotChunk(SnapshotChunkReply { term: 3, received: 0 })
    );
}
