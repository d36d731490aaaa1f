//! A cluster of nodes on a network that may delay, duplicate, reorder and
//! drop messages, with nodes that may crash (in the middle of what they are
//! doing, too) and restart, and that every run of it is explained by a
//! history.

use vstd::prelude::*;

use super::durability::crash_disk;
use super::history::{Accepted, agree, sound, History, Replica, Stage};
use super::machine::{run, StateMachine};
use super::membership::ascending;
use super::model::{EffectModel, NodeEvent, NodeModel, ReplyTag, Settings};
use super::progress::{commit_keeps, final_stays, follow_keeps, forget_final, forget_keeps};
use super::rounds::{
    append_entries_moves, install_snapshot_moves, propose_moves, read_moves, reply_moves,
    request_vote_moves, snapshot_chunk_moves, tags_are_issued, timer_moves,
};
use super::rpc::{ChunkModel, RequestModel, RpcResponse};
use super::storage::Durable;
use super::ties::{
    answer_ok, answer_stays, disk_of_tied, disk_tied, grown, journal_starts, journaled, leads_log,
    letter_ok, letter_stays, logged, moved, moved_nowhere, moves_compose, registers_no_read,
    safe, started_right, tag_ok, tag_stays, tied, tied_stays, Anchor,
};
use super::transport::TransportError;
use super::types::{Command, HardState, LogEntry, NodeId, Term};
use super::upkeep::{
    on_propose_keeps, on_read_keeps,
};

verus! {

/// A request on the network.
#[verifier::ext_equal]
#[verifier::reject_recursive_types(D)]
pub struct Letter<D> {
    pub from: NodeId,
    pub to: NodeId,
    pub request: RequestModel<D>,
    pub tag: ReplyTag,
}

/// A reply on the network, to the node that asked.
#[verifier::ext_equal]
pub struct Answer {
    pub to: NodeId,
    pub from: NodeId,
    pub tag: ReplyTag,
    pub response: RpcResponse,
}

/// All nodes and their disks, and every message that was ever sent: the
/// network may deliver any of them at any time, more than once or never.
#[verifier::ext_equal]
#[verifier::reject_recursive_types(S)]
pub struct Cluster<S: StateMachine> {
    pub nodes: Map<NodeId, NodeModel<S>>,
    pub disks: Map<NodeId, Durable<S::State>>,
    pub sent: Set<Letter<S::State>>,
    pub answers: Set<Answer>,
}

/// Everything that can happen in a cluster.
#[verifier::ext_equal]
#[verifier::reject_recursive_types(D)]
pub enum ClusterEvent<D> {
    /// A client's write at a node.
    Propose { at: NodeId, command: Command, ticket: u64 },
    /// A client's linearizable read at a node.
    Read { at: NodeId, ticket: u64 },
    /// A node's timer runs out.
    Timer { at: NodeId },
    /// A request arrives.
    Deliver { letter: Letter<D> },
    /// A piece of a snapshot that was sent arrives. Its being whole, decoded
    /// and handed in is the arrival of the snapshot itself.
    Chunk { letter: Letter<D>, chunk: ChunkModel },
    /// A reply arrives.
    Return { answer: Answer },
    /// A request fails, as far as its sender can tell.
    Fail { letter: Letter<D>, error: TransportError },
    /// A node crashes and starts again from its files.
    Restart { at: NodeId, seed: u64 },
}

impl<D> ClusterEvent<D> {
    /// The node that the event happens at.
    pub open spec fn at(self) -> NodeId {
        match self {
            ClusterEvent::Propose { at, .. } => at,
            ClusterEvent::Read { at, .. } => at,
            ClusterEvent::Timer { at } => at,
            ClusterEvent::Deliver { letter } => letter.to,
            ClusterEvent::Chunk { letter, .. } => letter.to,
            ClusterEvent::Return { answer } => answer.to,
            ClusterEvent::Fail { letter, .. } => letter.from,
            ClusterEvent::Restart { at, .. } => at,
        }
    }
}

impl<S: StateMachine> NodeModel<S> {
    /// The node once its disk writes are performed and its effects handed
    /// over.
    pub open spec fn drained(self) -> Self {
        NodeModel { writes: Seq::empty(), effects: Seq::empty(), ..self }
    }

    /// The entry that the node's next write becomes, if it is accepted.
    pub open spec fn next_entry(self, command: Command) -> LogEntry {
        LogEntry { term: self.term(), index: (self.files.last_index() + 1) as u64, command }
    }

    /// The node started anew from what its disk reads as.
    pub open spec fn restarted(self, disk: Durable<S::State>, seed: u64, now: u64) -> Self {
        Self::booted(self.settings, seed, disk.reopened(), Seq::empty(), self.origin, now)
    }

    /// A node that has never run.
    pub open spec fn fresh(self, id: NodeId, founders: Set<NodeId>, origin: S::State) -> bool {
        &&& self.settled()
        &&& self.settings.id == id
        &&& ascending(self.settings.bootstrap.ids())
        &&& self.settings.bootstrap.ids().to_set() == founders || self.settings.bootstrap.ids().len()
            == 0
        &&& self.origin == origin
        &&& self.files == (Durable::<S::State> {
            hard_state: HardState { current_term: 0, voted_for: None },
            snapshot: None,
            log: Seq::empty(),
        })
        &&& self.role is Follower
        &&& self.pending.len() == 0
        &&& self.effects.len() == 0
        &&& self.writes.len() == 0
    }
}

impl<S: StateMachine> Cluster<S> {
    /// What happens at the event's node; a restart is no event of the node's
    /// own.
    pub open spec fn node_event(event: ClusterEvent<S::State>) -> NodeEvent<S::State> {
        match event {
            ClusterEvent::Propose { command, ticket, .. } => NodeEvent::Propose { command, ticket },
            ClusterEvent::Read { ticket, .. } => NodeEvent::Read { ticket },
            ClusterEvent::Deliver { letter } => NodeEvent::Request(letter.request),
            ClusterEvent::Chunk { chunk, .. } => NodeEvent::Request(
                RequestModel::SnapshotChunk(chunk),
            ),
            ClusterEvent::Return { answer } => NodeEvent::Reply {
                from: answer.from,
                tag: answer.tag,
                result: Ok(answer.response),
            },
            ClusterEvent::Fail { letter, error } => NodeEvent::Reply {
                from: letter.to,
                tag: letter.tag,
                result: Err(error),
            },
            _ => NodeEvent::Timer,
        }
    }

    /// Whether an event can happen: messages that arrive were sent, a
    /// proposed configuration lists its members in order, and numbers have
    /// not run out of 64 bits.
    pub open spec fn enabled(self, event: ClusterEvent<S::State>, now: u64) -> bool {
        &&& self.nodes.contains_key(event.at())
        &&& self.nodes[event.at()].room(now)
        &&& match event {
            ClusterEvent::Propose { command, .. } => match command {
                Command::ConfigChange { members } => ascending(members.ids()),
                _ => true,
            },
            ClusterEvent::Deliver { letter } => self.sent.contains(letter),
            ClusterEvent::Chunk { letter, chunk } => self.sent.contains(letter) && (
            letter.request matches RequestModel::InstallSnapshot(args) && chunk.transfer.term
                == args.term && chunk.transfer.leader_id == args.leader_id),
            ClusterEvent::Return { answer } => self.answers.contains(answer),
            ClusterEvent::Fail { letter, .. } => self.sent.contains(letter),
            _ => true,
        }
    }

    /// The event's node after it, with its effects still in hand.
    pub open spec fn node_after(self, event: ClusterEvent<S::State>, now: u64) -> NodeModel<S> {
        let node = self.nodes[event.at()];
        match event {
            ClusterEvent::Restart { seed, .. } => node.restarted(self.disks[event.at()], seed, now),
            _ => node.step(Self::node_event(event), now),
        }
    }

    /// What a node's effects put on the network.
    pub open spec fn letters(at: NodeId, effects: Seq<EffectModel<S::State>>) -> Set<Letter<S::State>> {
        Set::new(
            |letter: Letter<S::State>|
                letter.from == at && effects.contains(
                    EffectModel::Send { to: letter.to, request: letter.request, tag: letter.tag },
                ),
        )
    }

    /// The cluster after an event.
    #[verifier::opaque]
    pub open spec fn next(self, event: ClusterEvent<S::State>, now: u64) -> Self {
        let after = self.node_after(event, now);
        Cluster {
            nodes: self.nodes.insert(event.at(), after.drained()),
            disks: self.disks.insert(event.at(), self.disk_next(event, now)),
            sent: self.sent.union(Self::letters(event.at(), after.effects)),
            answers: match event {
                ClusterEvent::Deliver { letter } => self.answers.insert(
                    Answer {
                        to: letter.from,
                        from: letter.to,
                        tag: letter.tag,
                        response: self.nodes[letter.to].on_request(letter.request, now).1,
                    },
                ),
                ClusterEvent::Chunk { letter, chunk } => self.answers.insert(
                    Answer {
                        to: letter.from,
                        from: letter.to,
                        tag: ReplyTag::SnapshotChunk { sent_term: chunk.transfer.term },
                        response: RpcResponse::SnapshotChunk(
                            self.nodes[letter.to].on_snapshot_chunk(chunk, now).1,
                        ),
                    },
                ),
                _ => self.answers,
            },
        }
    }

    /// The disk of the event's node once its writes are performed. A restart
    /// leaves what the disk read back as.
    pub open spec fn disk_next(self, event: ClusterEvent<S::State>, now: u64) -> Durable<S::State> {
        let disk = self.disks[event.at()];
        if event is Restart {
            disk.reopened()
        } else {
            disk.after_all(self.node_after(event, now).writes)
        }
    }

    /// The disk of the event's node when it crashes after `done` of its
    /// writes, with `lines` lines of the next one if that is an append.
    pub open spec fn disk_after(
        self,
        event: ClusterEvent<S::State>,
        now: u64,
        done: int,
        lines: int,
    ) -> Durable<S::State> {
        crash_disk(self.disks[event.at()], self.node_after(event, now).writes, done, lines)
    }

    /// Whether the event's node can crash after `done` of its writes.
    pub open spec fn can_crash(self, event: ClusterEvent<S::State>, now: u64, done: int) -> bool {
        !(event is Restart) && 0 <= done <= self.node_after(event, now).writes.len()
    }

    /// The cluster after the event's node crashed in the middle of it and
    /// started again from its disk: nothing of the event has come out.
    #[verifier::opaque]
    pub open spec fn crashed(
        self,
        event: ClusterEvent<S::State>,
        now: u64,
        done: int,
        lines: int,
        seed: u64,
    ) -> Self {
        let disk = self.disk_after(event, now, done, lines);
        Cluster {
            nodes: self.nodes.insert(
                event.at(),
                self.nodes[event.at()].restarted(disk, seed, now),
            ),
            disks: self.disks.insert(event.at(), disk.reopened()),
            ..self
        }
    }

    /// Whether `later` is where a crash in the middle of the event leads.
    pub open spec fn crashes_to(self, event: ClusterEvent<S::State>, now: u64, later: Self) -> bool {
        exists|done: int, lines: int, seed: u64|
            self.can_crash(event, now, done) && later == #[trigger] self.crashed(
                event,
                now,
                done,
                lines,
                seed,
            )
    }

    /// A cluster that has never run.
    pub open spec fn fresh(self, founders: Set<NodeId>, origin: S::State) -> bool {
        &&& founders.finite()
        &&& forall|id: NodeId| #[trigger]
            self.nodes.contains_key(id) ==> self.nodes[id].fresh(id, founders, origin)
                && self.disks[id] == self.nodes[id].files
        &&& self.sent == Set::<Letter<S::State>>::empty()
        &&& self.answers == Set::<Answer>::empty()
    }

    /// One step of a cluster: an event, or a crash in the middle of one.
    pub open spec fn leads_to(self, later: Self) -> bool {
        exists|event: ClusterEvent<S::State>, now: u64| #[trigger]
            self.enabled(event, now) && (later == self.next(event, now) || self.crashes_to(
                event,
                now,
                later,
            ))
    }
}

/// A run of a cluster from its very start.
pub open spec fn execution<S: StateMachine>(
    trace: Seq<Cluster<S>>,
    founders: Set<NodeId>,
    origin: S::State,
) -> bool {
    &&& trace.len() > 0
    &&& trace[0].fresh(founders, origin)
    &&& forall|i: int| #![trigger trace[i]] 0 <= i < trace.len() - 1 ==> trace[i].leads_to(trace[i + 1])
}

/// The history `h` is one of the cluster `c`.
#[verifier::opaque]
pub open spec fn explains<S: StateMachine>(h: History, origin: S::State, c: Cluster<S>) -> bool {
    &&& h.inv()
    &&& h.replicas.dom() == c.nodes.dom()
    &&& forall|id: NodeId| #[trigger]
        c.nodes.contains_key(id) ==> {
            &&& tied(h, origin, id, c.nodes[id])
            &&& c.nodes[id].settled()
            &&& c.nodes[id].effects.len() == 0
            &&& c.nodes[id].writes.len() == 0
            &&& c.disks[id] == c.nodes[id].files
        }
    &&& forall|letter: Letter<S::State>| #[trigger]
        c.sent.contains(letter) ==> {
            &&& letter_ok::<S>(h, origin, letter.from, letter.request, letter.tag)
            &&& c.nodes.contains_key(letter.from)
        }
    &&& forall|answer: Answer| #[trigger]
        c.answers.contains(answer) ==> {
            &&& answer_ok(h, answer.to, answer.from, answer.tag, answer.response)
            &&& tag_ok(h, answer.to, answer.tag)
            &&& c.nodes.contains_key(answer.to)
            &&& c.nodes.contains_key(answer.from)
        }
}

/// What an event adds to the history: a leader's read is recorded with what is
/// known at the time, a write that a leader accepts with its entry; no other
/// event registers a read or accepts a write.
pub open spec fn records<S: StateMachine>(
    h: History,
    h2: History,
    c: Cluster<S>,
    event: ClusterEvent<S::State>,
    now: u64,
) -> bool {
    match event {
        ClusterEvent::Read { at, ticket } => if c.nodes[at].is_leader() {
            h2 == h.pulsed(at, ticket)
        } else {
            moved(h, h2, at)
        },
        ClusterEvent::Propose { at, command, ticket } => {
            &&& registers_no_read(h, h2, at)
            &&& h2.accepted == (match c.nodes[at].refusal(command, now) {
                None => h.accepted.insert(
                    Accepted { node: at, ticket, entry: c.nodes[at].next_entry(command) },
                ),
                Some(_) => h.accepted,
            })
        },
        _ => moved(h, h2, event.at()),
    }
}

/// One step of a cluster and of its history.
pub open spec fn explains_step<S: StateMachine>(
    h: History,
    h2: History,
    c: Cluster<S>,
    d: Cluster<S>,
) -> bool {
    exists|event: ClusterEvent<S::State>, now: u64| #[trigger]
        c.enabled(event, now) && {
            ||| d == c.next(event, now) && records(h, h2, c, event, now)
            ||| c.crashes_to(event, now, d) && moved(h, h2, event.at())
        }
}

/// What a letter is answered under.
proof fn letter_tag<S: StateMachine>(h: History, origin: S::State, letter: Letter<S::State>)
    requires
        letter_ok::<S>(h, origin, letter.from, letter.request, letter.tag),
    ensures
        tag_ok(h, letter.from, letter.tag),
{
}

/// A start from disk is a step of the history: it forgets the commit point
/// above the snapshot, and nothing else.
#[verifier::rlimit(30)]
proof fn boot_moves<S: StateMachine>(
    h: History,
    origin: S::State,
    n: NodeId,
    settings: Settings,
    files: Durable<S::State>,
    seed: u64,
    now: u64,
) -> (h2: History)
    requires
        h.inv(),
        disk_tied::<S>(h, origin, n, files),
        settings.id == n,
        settings.election_timeout_min <= settings.election_timeout_max,
        started_right(h, settings),
    ensures
        h2.inv(),
        moved(h, h2, n),
        tied(
            h2,
            origin,
            n,
            NodeModel::<S>::booted(settings, seed, files, Seq::empty(), origin, now),
        ),
        NodeModel::<S>::booted(settings, seed, files, Seq::empty(), origin, now).settled(),
{
    let r = h.replicas[n];
    assert(h.replica_ok(n, r));
    let h1 = follow_keeps(h, n, r.term);
    let si = files.snapshot_index();
    final_stays(h, h1, r.log, si, r.term, r.term);
    let h2 = commit_keeps(h1, n, si as nat);
    moves_compose(h, h1, h2, n);
    let m = NodeModel::<S>::booted(settings, seed, files, Seq::empty(), origin, now);
    assert(m.files.log.take(0) =~= Seq::<LogEntry>::empty());
    h2
}

/// A restart is a step of the history.
proof fn restart_moves<S: StateMachine>(
    h: History,
    origin: S::State,
    n: NodeId,
    m: NodeModel<S>,
    disk: Durable<S::State>,
    seed: u64,
    now: u64,
) -> (h2: History)
    requires
        h.inv(),
        tied(h, origin, n, m),
        disk == m.files,
    ensures
        h2.inv(),
        moved(h, h2, n),
        tied(h2, origin, n, m.restarted(disk, seed, now)),
        m.restarted(disk, seed, now).settled(),
{
    disk_of_tied(h, origin, n, m);
    boot_moves::<S>(h, origin, n, m.settings, m.files, seed, now)
}

/// The event's node follows the history.
#[verifier::rlimit(30)]
pub proof fn node_moves<S: StateMachine>(
    h: History,
    origin: S::State,
    c: Cluster<S>,
    event: ClusterEvent<S::State>,
    now: u64,
) -> (h2: History)
    requires
        explains(h, origin, c),
        c.enabled(event, now),
    ensures
        h2.inv(),
        grown(h, h2, event.at()),
        records(h, h2, c, event, now),
        c.nodes[event.at()].is_leader() && !(event is Deliver) && !(event is Chunk) && !(
        event is Restart) ==> leads_log(
            h2,
            event.at(),
            c.nodes[event.at()].term(),
        ),
        tied(h2, origin, event.at(), c.node_after(event, now)),
        !(event is Restart) ==> journaled(
            Anchor::<S> { origin, start: h, base: c.nodes[event.at()].files },
            event.at(),
            c.node_after(event, now).writes,
            c.node_after(event, now).files,
        ),
        c.node_after(event, now).settled(),
        !(event is Restart) ==> c.nodes[event.at()].admits(Cluster::<S>::node_event(event), now),
        event matches ClusterEvent::Deliver { letter } ==> answer_ok(
            h2,
            letter.from,
            letter.to,
            letter.tag,
            c.nodes[letter.to].on_request(letter.request, now).1,
        ),
{
    reveal(explains);
    let n = event.at();
    let m = c.nodes[n];
    assert(tied(h, origin, n, m));
    assert(h.replica_ok(n, h.replicas[n]));
    moved_nowhere(h, n);
    let o = Anchor::<S> { origin, start: h, base: m.files };
    disk_of_tied(h, origin, n, m);
    journal_starts(o, n);
    assert(m.writes =~= Seq::empty());
    assert(logged(h, o, n, m));
    match event {
        ClusterEvent::Propose { command, ticket, .. } => {
            on_propose_keeps(m, command, ticket, now);
            propose_moves(h, o, n, m, command, ticket, now)
        },
        ClusterEvent::Read { ticket, .. } => {
            on_read_keeps(m, ticket);
            read_moves(h, o, n, m, ticket)
        },
        ClusterEvent::Timer { .. } => {
            super::safety::every_event_keeps_the_node_settled(m, NodeEvent::Timer, now);
            timer_moves(h, o, n, m, now)
        },
        ClusterEvent::Deliver { letter } => {
            match letter.request {
                RequestModel::RequestVote(args) => request_vote_moves(
                    h,
                    o,
                    n,
                    m,
                    args,
                    letter.from,
                    letter.tag,
                    now,
                ),
                RequestModel::PreVote(args) => h,
                RequestModel::SnapshotChunk(args) => h,
                RequestModel::AppendEntries(args) => append_entries_moves(
                    h,
                    o,
                    n,
                    m,
                    args,
                    letter.from,
                    letter.tag,
                    now,
                ),
                RequestModel::InstallSnapshot(args) => install_snapshot_moves(
                    h,
                    o,
                    n,
                    m,
                    args,
                    letter.from,
                    letter.tag,
                    now,
                ),
            }
        },
        ClusterEvent::Chunk { chunk, .. } => snapshot_chunk_moves(h, o, n, m, chunk, now),
        ClusterEvent::Return { answer } => {
            tags_are_issued(h, origin, n, m, answer.tag);
            super::upkeep::on_reply_keeps(m, answer.from, answer.tag, Ok(answer.response), now);
            reply_moves(h, o, n, m, answer.from, answer.tag, Ok(answer.response), now)
        },
        ClusterEvent::Fail { letter, error } => {
            letter_tag::<S>(h, origin, letter);
            tags_are_issued(h, origin, n, m, letter.tag);
            super::upkeep::on_reply_keeps(m, letter.to, letter.tag, Err(error), now);
            reply_moves(h, o, n, m, letter.to, letter.tag, Err(error), now)
        },
        ClusterEvent::Restart { seed, .. } => restart_moves(h, origin, n, m, c.disks[n], seed, now),
    }
}

/// The disk of the event's node is the node's files after it.
proof fn disk_follows<S: StateMachine>(
    h: History,
    origin: S::State,
    c: Cluster<S>,
    event: ClusterEvent<S::State>,
    now: u64,
)
    requires
        explains(h, origin, c),
        c.enabled(event, now),
        !(event is Restart) ==> journaled(
            Anchor::<S> { origin, start: h, base: c.nodes[event.at()].files },
            event.at(),
            c.node_after(event, now).writes,
            c.node_after(event, now).files,
        ),
    ensures
        c.disk_next(event, now) == c.node_after(event, now).files,
{
    reveal(explains);
    reveal(journaled);
}

/// Every step of a cluster is explained by a later point of its history.
#[verifier::rlimit(30)]
pub proof fn step_explained<S: StateMachine>(
    h: History,
    origin: S::State,
    c: Cluster<S>,
    event: ClusterEvent<S::State>,
    now: u64,
) -> (h2: History)
    requires
        explains(h, origin, c),
        c.enabled(event, now),
    ensures
        explains(h2, origin, c.next(event, now)),
        h2.extends(h),
        records(h, h2, c, event, now),
        tied(h2, origin, event.at(), c.node_after(event, now)),
{
    reveal(explains);
    reveal(Cluster::next);
    let n = event.at();
    let h2 = node_moves(h, origin, c, event, now);
    let d = c.next(event, now);
    let after = c.node_after(event, now);
    assert(h2.replicas.dom() =~= d.nodes.dom());
    assert forall|id: NodeId| #[trigger] d.nodes.contains_key(id) implies {
        &&& tied(h2, origin, id, d.nodes[id])
        &&& d.nodes[id].settled()
        &&& d.nodes[id].effects.len() == 0
        &&& d.nodes[id].writes.len() == 0
        &&& d.disks[id] == d.nodes[id].files
    } by {
        if id == n {
            assert(d.nodes[n] == after.drained());
            disk_follows(h, origin, c, event, now);
        } else {
            assert(c.nodes.contains_key(id));
            tied_stays(h, h2, n, origin, id, c.nodes[id]);
        }
    }
    assert forall|letter: Letter<S::State>| #[trigger] d.sent.contains(letter) implies {
        &&& letter_ok::<S>(h2, origin, letter.from, letter.request, letter.tag)
        &&& d.nodes.contains_key(letter.from)
    } by {
        if c.sent.contains(letter) {
            letter_stays::<S>(h, h2, origin, letter.from, letter.request, letter.tag);
        } else {
            let effect = EffectModel::Send {
                to: letter.to,
                request: letter.request,
                tag: letter.tag,
            };
            let i = choose|i: int| 0 <= i < after.effects.len() && after.effects[i] == effect;
            assert(after.effects[i] == effect);
        }
    }
    assert forall|answer: Answer| #[trigger] d.answers.contains(answer) implies {
        &&& answer_ok(h2, answer.to, answer.from, answer.tag, answer.response)
        &&& tag_ok(h2, answer.to, answer.tag)
        &&& d.nodes.contains_key(answer.to)
        &&& d.nodes.contains_key(answer.from)
    } by {
        if c.answers.contains(answer) {
            answer_stays(h, h2, answer.to, answer.from, answer.tag, answer.response);
            tag_stays(h, h2, answer.to, answer.tag);
        } else if let ClusterEvent::Deliver { letter } = event {
            letter_tag::<S>(h, origin, letter);
            tag_stays(h, h2, letter.from, letter.tag);
        } else if let ClusterEvent::Chunk { letter, .. } = event {
            assert(c.sent.contains(letter));
        }
    }
    h2
}

/// A crash in the middle of an event is explained too.
#[verifier::rlimit(30)]
proof fn crash_explained<S: StateMachine>(
    h: History,
    origin: S::State,
    c: Cluster<S>,
    event: ClusterEvent<S::State>,
    now: u64,
    done: int,
    lines: int,
    seed: u64,
) -> (h2: History)
    requires
        explains(h, origin, c),
        c.enabled(event, now),
        c.can_crash(event, now, done),
    ensures
        explains(h2, origin, c.crashed(event, now, done, lines, seed)),
        h2.extends(h),
        moved(h, h2, event.at()),
{
    let n = event.at();
    let h1 = crash_moves(h, origin, c, event, now, done, lines, seed);
    reveal(explains);
    reveal(Cluster::crashed);
    let d = c.crashed(event, now, done, lines, seed);
    assert(h1.replicas.dom() =~= d.nodes.dom());
    assert forall|id: NodeId| #[trigger] d.nodes.contains_key(id) implies {
        &&& tied(h1, origin, id, d.nodes[id])
        &&& d.nodes[id].settled()
        &&& d.nodes[id].effects.len() == 0
        &&& d.nodes[id].writes.len() == 0
        &&& d.disks[id] == d.nodes[id].files
    } by {
        if id != n {
            assert(c.nodes.contains_key(id));
            tied_stays(h, h1, n, origin, id, c.nodes[id]);
        }
    }
    assert forall|letter: Letter<S::State>| #[trigger] d.sent.contains(letter) implies {
        &&& letter_ok::<S>(h1, origin, letter.from, letter.request, letter.tag)
        &&& d.nodes.contains_key(letter.from)
    } by {
        letter_stays::<S>(h, h1, origin, letter.from, letter.request, letter.tag);
    }
    assert forall|answer: Answer| #[trigger] d.answers.contains(answer) implies {
        &&& answer_ok(h1, answer.to, answer.from, answer.tag, answer.response)
        &&& tag_ok(h1, answer.to, answer.tag)
        &&& d.nodes.contains_key(answer.to)
        &&& d.nodes.contains_key(answer.from)
    } by {
        answer_stays(h, h1, answer.to, answer.from, answer.tag, answer.response);
        tag_stays(h, h1, answer.to, answer.tag);
    }
    h1
}

/// The crashed node comes back to a point of the history.
#[verifier::rlimit(30)]
pub proof fn crash_moves<S: StateMachine>(
    h: History,
    origin: S::State,
    c: Cluster<S>,
    event: ClusterEvent<S::State>,
    now: u64,
    done: int,
    lines: int,
    seed: u64,
) -> (h2: History)
    requires
        explains(h, origin, c),
        c.enabled(event, now),
        c.can_crash(event, now, done),
    ensures
        h2.inv(),
        moved(h, h2, event.at()),
        c.disk_after(event, now, done, lines).openable(),
        ({
            let m = c.nodes[event.at()].restarted(c.disk_after(event, now, done, lines), seed, now);
            tied(h2, origin, event.at(), m) && m.settled()
        }),
{
    let n = event.at();
    let m = c.nodes[n];
    let o = Anchor::<S> { origin, start: h, base: m.files };
    let after_event = node_moves(h, origin, c, event, now);
    let writes = c.node_after(event, now).writes;
    let files = c.disk_after(event, now, done, lines);
    assert(c.disks[n] == m.files) by {
        reveal(explains);
    }
    assert(safe(o, n, files)) by {
        reveal(journaled);
        assert(files == crash_disk(o.base, writes, done, lines));
    }
    let hk = choose|hk: History| #[trigger]
        hk.inv() && registers_no_read(o.start, hk, n) && disk_tied::<S>(
            hk,
            o.origin,
            n,
            files.reopened(),
        );
    let h1 = forget_keeps(hk, h.accepted);
    let r = hk.replicas[n];
    forget_final(hk, h1, r.log, files.reopened().snapshot_index(), r.term);
    assert(h1.extends(h)) by {
        assert forall|id: NodeId, t: Term| #[trigger] h1.held_by(id, t) >= h.held_by(id, t) by {
            assert(hk.held_by(id, t) >= h.held_by(id, t));
        }
    }
    assert(moved(h, h1, n));
    assert(tied(h, origin, n, m) && m.inv()) by {
        reveal(explains);
    }
    let h2 = boot_moves::<S>(h1, origin, n, m.settings, files.reopened(), seed, now);
    moves_compose(h, h1, h2, n);
    h2
}

/// The history of a cluster that has never run.
pub open spec fn first_history<S: StateMachine>(c: Cluster<S>, founders: Set<NodeId>) -> History {
    History {
        founders,
        replicas: Map::new(
            |id: NodeId| c.nodes.contains_key(id),
            |id: NodeId|
                Replica {
                    term: 0,
                    voted_for: None,
                    log: Seq::empty(),
                    commit: 0,
                    stage: Stage::Follower,
                },
        ),
        reigns: Map::empty(),
        bids: Map::empty(),
        ballots: Map::empty(),
        held: Map::empty(),
        accepted: Set::empty(),
    }
}

proof fn start_explained<S: StateMachine>(c: Cluster<S>, founders: Set<NodeId>, origin: S::State)
    requires
        c.fresh(founders, origin),
    ensures
        explains(first_history(c, founders), origin, c),
{
    let h = first_history(c, founders);
    reveal(explains);
    reveal(agree);
    reveal(sound);
    assert(h.replicas.dom() =~= c.nodes.dom());
    assert forall|id: NodeId| #[trigger] c.nodes.contains_key(id) implies tied(
        h,
        origin,
        id,
        c.nodes[id],
    ) by {
        let m = c.nodes[id];
        assert(m.fresh(id, founders, origin));
        assert(m.files.log =~= h.replicas[id].log.skip(0));
    }
}

/// A growing history that explains a run.
pub open spec fn explains_run<S: StateMachine>(
    hs: Seq<History>,
    origin: S::State,
    trace: Seq<Cluster<S>>,
) -> bool {
    &&& hs.len() == trace.len()
    &&& forall|i: int| #![trigger hs[i]] 0 <= i < hs.len() ==> explains(hs[i], origin, trace[i])
    &&& forall|i: int|
        #![trigger hs[i]]
        0 <= i < hs.len() - 1 ==> hs[i + 1].extends(hs[i]) && explains_step(
            hs[i],
            hs[i + 1],
            trace[i],
            trace[i + 1],
        )
}

/// One more step of a run, explained.
proof fn run_goes_on<S: StateMachine>(
    hs: Seq<History>,
    origin: S::State,
    trace: Seq<Cluster<S>>,
    h: History,
    c: Cluster<S>,
)
    requires
        explains_run(hs, origin, trace),
        trace.len() > 0,
        explains(h, origin, c),
        h.extends(hs.last()),
        explains_step(hs.last(), h, trace.last(), c),
    ensures
        explains_run(hs.push(h), origin, trace.push(c)),
{
    let all = hs.push(h);
    let run = trace.push(c);
    assert forall|i: int| #![trigger all[i]] 0 <= i < all.len() implies explains(
        all[i],
        origin,
        run[i],
    ) by {
        if i < hs.len() {
            assert(all[i] == hs[i]);
        }
    }
    assert forall|i: int| #![trigger all[i]] 0 <= i < all.len() - 1 implies all[i + 1].extends(
        all[i],
    ) && explains_step(all[i], all[i + 1], run[i], run[i + 1]) by {
        assert(all[i] == hs[i]);
        if i < hs.len() - 1 {
            assert(all[i + 1] == hs[i + 1]);
        }
    }
}

/// A step of a cluster, whatever it is, is explained.
proof fn any_step_explained<S: StateMachine>(
    h: History,
    origin: S::State,
    c: Cluster<S>,
    d: Cluster<S>,
) -> (h2: History)
    requires
        explains(h, origin, c),
        c.leads_to(d),
    ensures
        explains(h2, origin, d),
        h2.extends(h),
        explains_step(h, h2, c, d),
{
    let (event, now) = choose|event: ClusterEvent<S::State>, now: u64| #[trigger]
        c.enabled(event, now) && (d == c.next(event, now) || c.crashes_to(event, now, d));
    if d == c.next(event, now) {
        step_explained(h, origin, c, event, now)
    } else {
        let (done, lines, seed) = choose|done: int, lines: int, seed: u64|
            c.can_crash(event, now, done) && d == #[trigger] c.crashed(
                event,
                now,
                done,
                lines,
                seed,
            );
        crash_explained(h, origin, c, event, now, done, lines, seed)
    }
}

/// The explained beginning of a run explains the whole run.
#[verifier::rlimit(30)]
proof fn rest_explained<S: StateMachine>(
    hs: Seq<History>,
    trace: Seq<Cluster<S>>,
    founders: Set<NodeId>,
    origin: S::State,
) -> (all: Seq<History>)
    requires
        execution(trace, founders, origin),
        0 < hs.len() <= trace.len(),
        explains_run(hs, origin, trace.take(hs.len() as int)),
    ensures
        explains_run(all, origin, trace),
        all.take(hs.len() as int) == hs,
        all[0] == hs[0],
    decreases trace.len() - hs.len(),
{
    let n = hs.len() as int;
    if n == trace.len() {
        assert(trace.take(n) =~= trace);
        assert(hs.take(n) =~= hs);
        hs
    } else {
        let c = trace[n - 1];
        let d = trace[n];
        assert(c.leads_to(trace[n - 1 + 1]));
        assert(explains(hs[n - 1], origin, trace.take(n)[n - 1]));
        let h = any_step_explained(hs[n - 1], origin, c, d);
        run_goes_on(hs, origin, trace.take(n), h, d);
        assert(trace.take(n).push(d) =~= trace.take(n + 1));
        let all = rest_explained(hs.push(h), trace, founders, origin);
        assert(all.take(n) =~= all.take(n + 1).take(n));
        assert(hs.push(h).take(n) =~= hs);
        all
    }
}

/// Every run is explained by a growing history.
pub proof fn run_explained<S: StateMachine>(
    trace: Seq<Cluster<S>>,
    founders: Set<NodeId>,
    origin: S::State,
) -> (hs: Seq<History>)
    requires
        execution(trace, founders, origin),
    ensures
        explains_run(hs, origin, trace),
        hs[0] == first_history(trace[0], founders),
{
    start_explained(trace[0], founders, origin);
    let first = seq![first_history(trace[0], founders)];
    assert(trace.take(1) =~= seq![trace[0]]);
    assert(explains_run(first, origin, trace.take(1)));
    rest_explained(first, trace, founders, origin)
}

/// Every run is explained by a growing history that takes the given event for
/// the step at `j`.
#[verifier::rlimit(30)]
pub proof fn run_explained_with<S: StateMachine>(
    trace: Seq<Cluster<S>>,
    founders: Set<NodeId>,
    origin: S::State,
    j: int,
    event: ClusterEvent<S::State>,
    now: u64,
) -> (hs: Seq<History>)
    requires
        execution(trace, founders, origin),
        0 <= j < trace.len() - 1,
        trace[j].enabled(event, now),
        trace[j + 1] == trace[j].next(event, now),
    ensures
        explains_run(hs, origin, trace),
        hs[0] == first_history(trace[0], founders),
        tied(hs[j + 1], origin, event.at(), trace[j].node_after(event, now)),
{
    let before = trace.take(j + 1);
    assert forall|i: int| #![trigger before[i]] 0 <= i < before.len() - 1 implies before[i].leads_to(
        before[i + 1],
    ) by {
        assert(before[i] == trace[i] && before[i + 1] == trace[i + 1]);
    }
    let hs = run_explained(before, founders, origin);
    assert(explains(hs[j], origin, before[j]));
    let h = step_explained(hs[j], origin, trace[j], event, now);
    assert(explains_step(hs[j], h, trace[j], trace[j + 1]));
    run_goes_on(hs, origin, before, h, trace[j + 1]);
    let more = hs.push(h);
    assert(before.push(trace[j + 1]) =~= trace.take(j + 2));
    let all = rest_explained(more, trace, founders, origin);
    assert(all.take(j + 2)[j + 1] == more[j + 1]);
    all
}

} // verus!
