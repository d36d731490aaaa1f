//! What a node lets out: the disk follows the node's log and vote through
//! every event, effects are only ever added, and a tag once handed out stays
//! one that the node can take a reply under.

use vstd::prelude::*;

use super::batch::batches_are_bounded;
use super::chunks::{assembly_after, completes, reached};
use super::durability::writes_compose;
use super::machine::StateMachine;
use super::model::{
    larger, lookup, smaller, EffectModel, LeaderModel, NodeEvent, NodeModel, PendingProposal,
    ReplyTag, RoleModel,
};
use super::rpc::{AppendModel, ChunkModel, InstallModel, RequestModel, RpcResponse};
use super::safety::{moved_by_snapshot, moved_forward};
use super::storage::{Durable, WriteModel};
use super::transport::TransportError;
use super::types::{HardState, LogEntry, LogIndex, NodeId, Term};
use super::upkeep::{
    apply_committed_settles, become_leader_keeps, candidacy_keeps, commit_to_settles,
    maybe_advance_commit_keeps, maybe_compact_keeps, merge_keeps, on_append_entries_keeps,
    on_election_timeout_keeps, on_propose_keeps, with_leader_keeps,
};

verus! {

// ---- the disk ----

/// Files that hold what `m` has, once its writes are performed, hold what `n`
/// has once its writes are; and the writes of `m` are still to come first.
pub open spec fn disk_follows<S: StateMachine>(m: NodeModel<S>, n: NodeModel<S>) -> bool {
    &&& m.writes.len() <= n.writes.len()
    &&& n.writes.take(m.writes.len() as int) == m.writes
    &&& forall|disk: Durable<S::State>|
        #![trigger disk.after_all(n.writes)]
        disk.after_all(m.writes) == m.files ==> disk.after_all(n.writes) == n.files
}

/// Files and writes that did not move.
pub open spec fn same_disk<S: StateMachine>(m: NodeModel<S>, n: NodeModel<S>) -> bool {
    n.files == m.files && n.writes == m.writes
}

proof fn lemma_same_disk<S: StateMachine>(m: NodeModel<S>, n: NodeModel<S>)
    requires
        same_disk(m, n),
    ensures
        disk_follows(m, n),
{
    assert(n.writes.take(m.writes.len() as int) =~= m.writes);
}

proof fn lemma_follows_twice<S: StateMachine>(a: NodeModel<S>, b: NodeModel<S>, c: NodeModel<S>)
    requires
        disk_follows(a, b),
        disk_follows(b, c),
    ensures
        disk_follows(a, c),
{
    assert(c.writes.take(a.writes.len() as int) =~= a.writes) by {
        assert(c.writes.take(b.writes.len() as int).take(a.writes.len() as int)
            =~= c.writes.take(a.writes.len() as int));
    }
    assert forall|disk: Durable<S::State>|
        #![trigger disk.after_all(c.writes)]
        disk.after_all(a.writes) == a.files implies disk.after_all(c.writes) == c.files by {
        let _ = disk.after_all(b.writes);
    }
}

/// One write, and the files it leads to.
proof fn lemma_one_write<S: StateMachine>(
    m: NodeModel<S>,
    n: NodeModel<S>,
    write: WriteModel<S::State>,
)
    requires
        n.writes == m.writes.push(write),
        n.files == m.files.after(write),
    ensures
        disk_follows(m, n),
{
    assert(n.writes.take(m.writes.len() as int) =~= m.writes);
    assert forall|disk: Durable<S::State>|
        #![trigger disk.after_all(n.writes)]
        disk.after_all(m.writes) == m.files implies disk.after_all(n.writes) == n.files by {
        writes_compose(disk, m.writes, write);
    }
}

/// Two writes, and the files they lead to.
proof fn lemma_two_writes<S: StateMachine>(
    m: NodeModel<S>,
    n: NodeModel<S>,
    first: WriteModel<S::State>,
    second: WriteModel<S::State>,
)
    requires
        n.writes == m.writes.push(first).push(second),
        n.files == m.files.after(first).after(second),
    ensures
        disk_follows(m, n),
{
    assert(n.writes.take(m.writes.len() as int) =~= m.writes);
    assert forall|disk: Durable<S::State>|
        #![trigger disk.after_all(n.writes)]
        disk.after_all(m.writes) == m.files implies disk.after_all(n.writes) == n.files by {
        writes_compose(disk, m.writes, first);
        writes_compose(disk, m.writes.push(first), second);
    }
}

proof fn lemma_become_follower_disk<S: StateMachine>(
    m: NodeModel<S>,
    term: Term,
    leader_id: Option<NodeId>,
    now: u64,
)
    ensures
        disk_follows(m, m.become_follower(term, leader_id, now)),
{
    let after = m.become_follower(term, leader_id, now);
    if term > m.term() {
        lemma_one_write(
            m,
            after,
            WriteModel::HardState(HardState { current_term: term, voted_for: None }),
        );
    } else {
        lemma_same_disk(m, after);
    }
}

proof fn lemma_commit_to_disk<S: StateMachine>(m: NodeModel<S>, index: LogIndex)
    ensures
        disk_follows(m, m.commit_to(index)),
{
    let told = NodeModel {
        commit_index: index,
        ..m
    }.apply_backlog().resolve_pending().resolve_reads();
    assert(same_disk(m, told));
    lemma_same_disk(m, told);
    let captured = told.maybe_capture();
    assert(same_disk(told, captured));
    lemma_same_disk(told, captured);
    lemma_follows_twice(m, told, captured);
    let after = captured.compact_captured();
    if let Some(capture) = captured.captured {
        if captured.last_applied - capture.index >= captured.settings.snapshot_trailing {
            lemma_two_writes(
                captured,
                after,
                WriteModel::Snapshot(captured.files.compaction(capture.index, capture.state)),
                WriteModel::RewriteLog(
                    captured.files.compacted(capture.index, capture.state).log,
                ),
            );
        } else {
            lemma_same_disk(captured, after);
        }
    } else {
        lemma_same_disk(captured, after);
    }
    lemma_follows_twice(m, captured, after);
}

proof fn lemma_advance_commit_disk<S: StateMachine>(m: NodeModel<S>, now: u64)
    ensures
        disk_follows(m, m.maybe_advance_commit(now)),
{
    lemma_same_disk(m, m);
    if let RoleModel::Leader(leader) = m.role {
        let index = m.quorum_index(leader);
        lemma_commit_to_disk(m, index);
        let after = m.commit_to(index);
        let done = after.retire(now);
        lemma_same_disk(after, after);
        lemma_become_follower_disk(after, after.term(), None, now);
        lemma_follows_twice(m, after, done);
    }
}

proof fn lemma_append_disk<S: StateMachine>(m: NodeModel<S>, entries: Seq<LogEntry>)
    ensures
        disk_follows(m, m.append(entries)),
{
    if entries.len() == 0 {
        lemma_same_disk(m, m);
    } else {
        lemma_one_write(m, m.append(entries), WriteModel::AppendLog(entries));
    }
}

proof fn lemma_merge_disk<S: StateMachine>(m: NodeModel<S>, args: AppendModel)
    ensures
        disk_follows(m, m.merge(args)),
{
    lemma_same_disk(m, m);
    if !m.has_all(args.entries) {
        let i = m.first_new(args.entries);
        let roomy = m.make_room(args.entries[i]);
        let index = args.entries[i].index as int;
        if m.files.holds(index) {
            let cut = m.truncate(index);
            lemma_one_write(m, cut, WriteModel::RewriteLog(m.files.truncated(index).log));
            assert(same_disk(cut, roomy));
            lemma_same_disk(cut, roomy);
            lemma_follows_twice(m, cut, roomy);
        }
        lemma_append_disk(roomy, args.entries.skip(m.offset(args)));
        lemma_follows_twice(m, roomy, m.merge(args));
    }
}

proof fn lemma_append_entries_disk<S: StateMachine>(m: NodeModel<S>, args: AppendModel, now: u64)
    ensures
        disk_follows(m, m.on_append_entries(args, now).0),
{
    lemma_same_disk(m, m);
    if args.term >= m.term() {
        let heard = m.hear_leader(args.term, args.leader_id, now);
        let down = m.become_follower(args.term, Some(args.leader_id), now);
        lemma_become_follower_disk(m, args.term, Some(args.leader_id), now);
        assert(same_disk(down, heard));
        lemma_same_disk(down, heard);
        lemma_follows_twice(m, down, heard);
        if heard.prev_matches(args) {
            let merged = heard.merge(args);
            lemma_merge_disk(heard, args);
            lemma_follows_twice(m, heard, merged);
            let commit = NodeModel::<S>::verified_commit(args);
            lemma_commit_to_disk(merged, commit);
            lemma_follows_twice(m, merged, merged.commit_to(commit));
        }
    }
}

proof fn lemma_install_disk<S: StateMachine>(
    m: NodeModel<S>,
    args: InstallModel<S::State>,
    now: u64,
)
    ensures
        disk_follows(m, m.on_install_snapshot(args, now).0),
{
    lemma_same_disk(m, m);
    if args.term >= m.term() {
        let heard = m.hear_leader(args.term, args.leader_id, now);
        let down = m.become_follower(args.term, Some(args.leader_id), now);
        lemma_become_follower_disk(m, args.term, Some(args.leader_id), now);
        assert(same_disk(down, heard));
        lemma_same_disk(down, heard);
        lemma_follows_twice(m, down, heard);
        if args.snapshot.last_included_index > heard.commit_index {
            let after = m.on_install_snapshot(args, now).0;
            let files = heard.files.installed(args.snapshot);
            assert(after.files == files);
            lemma_two_writes(
                heard,
                after,
                WriteModel::Snapshot(args.snapshot),
                WriteModel::RewriteLog(files.log),
            );
            lemma_follows_twice(m, heard, after);
        }
    }
}

proof fn lemma_heartbeat_disk<S: StateMachine>(m: NodeModel<S>, now: u64)
    ensures
        disk_follows(m, m.on_heartbeat_tick(now)),
{
    lemma_become_follower_disk(m, m.term(), None, now);
    let sent = m.broadcast().schedule_heartbeat(now);
    assert(same_disk(m, sent));
    lemma_same_disk(m, sent);
    lemma_same_disk(m, m.schedule_heartbeat(now));
}

proof fn lemma_become_leader_disk<S: StateMachine>(m: NodeModel<S>, now: u64)
    ensures
        disk_follows(m, m.become_leader(now)),
{
    let bare = NodeModel {
        role: RoleModel::Leader(m.fresh_leader(now)),
        leader_id: Some(m.settings.id),
        ..m
    };
    lemma_same_disk(m, bare);
    let appended = bare.append(seq![m.noop()]);
    lemma_append_disk(bare, seq![m.noop()]);
    lemma_follows_twice(m, bare, appended);
    let advanced = appended.maybe_advance_commit(now);
    lemma_advance_commit_disk(appended, now);
    lemma_follows_twice(m, appended, advanced);
    lemma_heartbeat_disk(advanced, now);
    lemma_follows_twice(m, advanced, advanced.on_heartbeat_tick(now));
}

proof fn lemma_start_election_disk<S: StateMachine>(m: NodeModel<S>, now: u64)
    ensures
        disk_follows(m, m.start_election(now)),
{
    let candidate = m.candidacy(now);
    lemma_one_write(
        m,
        candidate,
        WriteModel::HardState(
            HardState {
                current_term: (m.term() + 1) as u64,
                voted_for: Some(m.settings.id),
            },
        ),
    );
    lemma_same_disk(candidate, candidate);
    lemma_become_leader_disk(candidate, now);
    lemma_follows_twice(m, candidate, candidate.maybe_become_leader(now));
}

proof fn lemma_with_leader_disk<S: StateMachine>(
    m: NodeModel<S>,
    leader: LeaderModel,
    from: NodeId,
    now: u64,
)
    ensures
        disk_follows(m, m.with_leader(leader).maybe_advance_commit(now)),
        disk_follows(m, m.with_leader(leader).maybe_advance_commit(now).send_append(from)),
{
    let bare = m.with_leader(leader);
    lemma_same_disk(m, bare);
    let advanced = bare.maybe_advance_commit(now);
    lemma_advance_commit_disk(bare, now);
    lemma_follows_twice(m, bare, advanced);
    let sent = advanced.send_append(from);
    assert(same_disk(advanced, sent));
    lemma_same_disk(advanced, sent);
    lemma_follows_twice(m, advanced, sent);
}

proof fn lemma_reply_disk<S: StateMachine>(
    m: NodeModel<S>,
    from: NodeId,
    tag: ReplyTag,
    result: Result<RpcResponse, TransportError>,
    now: u64,
)
    ensures
        disk_follows(m, m.on_reply(from, tag, result, now)),
{
    lemma_same_disk(m, m);
    match (tag, result) {
        (ReplyTag::PreVote { .. }, Ok(RpcResponse::PreVote(reply))) => {
            lemma_become_follower_disk(m, reply.term, None, now);
            if let RoleModel::PreCandidate { votes } = m.role {
                let more = NodeModel {
                    role: RoleModel::PreCandidate { votes: votes.insert(from) },
                    ..m
                };
                lemma_same_disk(m, more);
                lemma_start_election_disk(more, now);
                lemma_follows_twice(m, more, more.start_election(now));
            }
        },
        (ReplyTag::Vote { .. }, Ok(RpcResponse::RequestVote(reply))) => {
            lemma_become_follower_disk(m, reply.term, None, now);
            if let RoleModel::Candidate { votes } = m.role {
                let more = NodeModel {
                    role: RoleModel::Candidate { votes: votes.insert(from) },
                    ..m
                };
                lemma_same_disk(m, more);
                lemma_become_leader_disk(more, now);
                lemma_follows_twice(m, more, more.become_leader(now));
            }
        },
        (
            ReplyTag::Append { sent_prev_index, sent_entries, sent_seq, .. },
            Ok(RpcResponse::AppendEntries(reply)),
        ) => {
            lemma_become_follower_disk(m, reply.term, None, now);
            if let RoleModel::Leader(leader) = m.role {
                let heard = NodeModel::<S>::acknowledge(leader, from, sent_seq, now);
                let confirmed = (sent_prev_index + sent_entries) as u64;
                lemma_with_leader_disk(m, moved_forward(heard, from, confirmed), from, now);
                let a = m.on_append_accepted(heard, from, confirmed, now);
                assert(same_disk(a, a.resolve_reads()));
                lemma_same_disk(a, a.resolve_reads());
                lemma_follows_twice(m, a, a.resolve_reads());
                let b = m.on_append_rejected(heard, from, sent_prev_index);
                assert(same_disk(m, b.resolve_reads()));
                lemma_same_disk(m, b.resolve_reads());
            }
        },
        (
            ReplyTag::InstallSnapshot { last_included_index, .. },
            Ok(RpcResponse::InstallSnapshot(reply)),
        ) => {
            lemma_become_follower_disk(m, reply.term, None, now);
            if let RoleModel::Leader(leader) = m.role {
                lemma_with_leader_disk(
                    m,
                    moved_by_snapshot(leader, from, last_included_index, now),
                    from,
                    now,
                );
            }
        },
        (ReplyTag::SnapshotChunk { .. }, Ok(RpcResponse::SnapshotChunk(reply))) => {
            lemma_become_follower_disk(m, reply.term, None, now);
            assert(same_disk(m, m.on_chunk_answered(from, now)));
            lemma_same_disk(m, m.on_chunk_answered(from, now));
        },
        _ => {},
    }
}

/// Durability: through every event the queued writes keep describing the
/// node's own term, vote, log and snapshot. Files that matched the node
/// before an event match it after, once the writes that the event queued are
/// performed (behind those that were queued before).
pub proof fn the_disk_follows_every_event<S: StateMachine>(
    m: NodeModel<S>,
    event: NodeEvent<S::State>,
    now: u64,
)
    ensures
        disk_follows(m, m.step(event, now)),
{
    lemma_same_disk(m, m);
    match event {
        NodeEvent::Propose { command, ticket } => {
            if m.refusal(command, now) is None {
                let entry = LogEntry {
                    term: m.term(),
                    index: (m.files.last_index() + 1) as u64,
                    command,
                };
                let appended = m.append(seq![entry]);
                lemma_append_disk(m, seq![entry]);
                let accepted = m.accept(command, ticket);
                assert(same_disk(appended, accepted));
                lemma_same_disk(appended, accepted);
                lemma_follows_twice(m, appended, accepted);
                let advanced = accepted.maybe_advance_commit(now);
                lemma_advance_commit_disk(accepted, now);
                lemma_follows_twice(m, accepted, advanced);
                assert(same_disk(advanced, advanced.broadcast()));
                lemma_same_disk(advanced, advanced.broadcast());
                lemma_follows_twice(m, advanced, advanced.broadcast());
            }
        },
        NodeEvent::Read { ticket } => {
            assert(same_disk(m, m.on_read(ticket).0));
            lemma_same_disk(m, m.on_read(ticket).0);
        },
        NodeEvent::Request(request) => match request {
            RequestModel::RequestVote(args) => {
                let heard = if args.term > m.term() {
                    m.become_follower(args.term, None, now)
                } else {
                    m
                };
                lemma_become_follower_disk(m, args.term, None, now);
                let voted = heard.save(
                    HardState {
                        current_term: heard.term(),
                        voted_for: Some(args.candidate_id),
                    },
                ).reset_timer(now);
                lemma_one_write(
                    heard,
                    voted,
                    WriteModel::HardState(
                        HardState {
                            current_term: heard.term(),
                            voted_for: Some(args.candidate_id),
                        },
                    ),
                );
                lemma_follows_twice(m, heard, voted);
            },
            RequestModel::AppendEntries(args) => lemma_append_entries_disk(m, args, now),
            RequestModel::PreVote(_) => {},
            RequestModel::InstallSnapshot(args) => lemma_install_disk(m, args, now),
            RequestModel::SnapshotChunk(args) => {
                let transfer = args.transfer;
                if transfer.term >= m.term() {
                    let heard = m.hear_leader(transfer.term, transfer.leader_id, now);
                    let after = m.on_snapshot_chunk(args, now).0;
                    lemma_become_follower_disk(m, transfer.term, Some(transfer.leader_id), now);
                    let down = m.become_follower(transfer.term, Some(transfer.leader_id), now);
                    assert(same_disk(down, heard));
                    assert(same_disk(down, after));
                    lemma_same_disk(down, after);
                    lemma_follows_twice(m, down, after);
                }
            },
        },
        NodeEvent::Reply { from, tag, result } => lemma_reply_disk(m, from, tag, result, now),
        NodeEvent::Timer => {
            if m.is_leader() {
                lemma_heartbeat_disk(m, now);
            } else if m.is_member() {
                let probing = m.pre_campaign(now);
                assert(same_disk(m, probing));
                lemma_same_disk(m, probing);
                lemma_same_disk(probing, probing);
                lemma_start_election_disk(probing, now);
                lemma_follows_twice(m, probing, probing.maybe_start_election(now));
            } else {
                lemma_same_disk(m, m.reset_timer(now));
            }
        },
    }
}

// ---- effects and tags ----

/// Whether an effect is one that the node stands by: an RPC goes out under a
/// tag that the node can take the reply under.
pub open spec fn answerable<S: StateMachine>(n: NodeModel<S>, effect: EffectModel<S::State>) -> bool {
    match effect {
        EffectModel::Send { tag, .. } => n.issued(tag),
        _ => true,
    }
}

/// Tags stay valid, and effects are only added, each answerable.
pub open spec fn output_grows<S: StateMachine>(m: NodeModel<S>, n: NodeModel<S>) -> bool {
    &&& forall|sent_term: Term, index: int| #[trigger]
        m.covers(sent_term, index) ==> n.covers(sent_term, index)
    &&& m.effects.len() <= n.effects.len()
    &&& n.effects.take(m.effects.len() as int) == m.effects
    &&& forall|k: int|
        #![trigger n.effects[k]]
        m.effects.len() <= k < n.effects.len() ==> answerable(n, n.effects[k])
}

proof fn lemma_output_twice<S: StateMachine>(a: NodeModel<S>, b: NodeModel<S>, c: NodeModel<S>)
    requires
        output_grows(a, b),
        output_grows(b, c),
    ensures
        output_grows(a, c),
{
    assert(c.effects.take(a.effects.len() as int) =~= a.effects) by {
        assert(c.effects.take(b.effects.len() as int).take(a.effects.len() as int)
            =~= c.effects.take(a.effects.len() as int));
    }
    assert forall|k: int|
        #![trigger c.effects[k]]
        a.effects.len() <= k < c.effects.len() implies answerable(c, c.effects[k]) by {
        if k < b.effects.len() {
            assert(c.effects.take(b.effects.len() as int)[k] == c.effects[k]);
            assert(answerable(b, b.effects[k]));
            lemma_issued_stays(b, c, b.effects[k]);
        }
    }
}

proof fn lemma_issued_stays<S: StateMachine>(
    m: NodeModel<S>,
    n: NodeModel<S>,
    effect: EffectModel<S::State>,
)
    requires
        forall|sent_term: Term, index: int| #[trigger]
            m.covers(sent_term, index) ==> n.covers(sent_term, index),
        answerable(m, effect),
    ensures
        answerable(n, effect),
{
}

/// Effects that are no RPCs.
pub open spec fn quiet<S: StateMachine>(m: NodeModel<S>, n: NodeModel<S>) -> bool {
    &&& m.effects.len() <= n.effects.len()
    &&& n.effects.take(m.effects.len() as int) == m.effects
    &&& forall|k: int|
        #![trigger n.effects[k]]
        m.effects.len() <= k < n.effects.len() ==> !(n.effects[k] is Send)
}

/// Tags that stay valid: the term rises, or the node does not become a
/// candidate, and as a leader it keeps its log.
pub open spec fn tags_stay<S: StateMachine>(m: NodeModel<S>, n: NodeModel<S>) -> bool {
    &&& n.term() >= m.term()
    &&& n.term() == m.term() ==> {
        &&& n.role is Candidate ==> m.role is Candidate
        &&& n.is_leader() ==> (m.role is Candidate || (m.is_leader() && n.files.last_index()
            >= m.files.last_index()))
    }
}

proof fn lemma_quiet<S: StateMachine>(m: NodeModel<S>, n: NodeModel<S>)
    requires
        quiet(m, n),
        tags_stay(m, n),
    ensures
        output_grows(m, n),
{
}

proof fn lemma_same_output<S: StateMachine>(m: NodeModel<S>, n: NodeModel<S>)
    requires
        n.effects == m.effects,
        tags_stay(m, n),
    ensures
        output_grows(m, n),
{
    assert(n.effects.take(m.effects.len() as int) =~= m.effects);
}

proof fn lemma_emit_quiet<S: StateMachine>(m: NodeModel<S>, effects: Seq<EffectModel<S::State>>)
    requires
        forall|k: int| #![trigger effects[k]] 0 <= k < effects.len() ==> !(effects[k] is Send),
    ensures
        quiet(m, m.emit(effects)),
{
    let n = m.emit(effects);
    assert(n.effects.take(m.effects.len() as int) =~= m.effects);
    assert forall|k: int|
        #![trigger n.effects[k]]
        m.effects.len() <= k < n.effects.len() implies !(n.effects[k] is Send) by {
        assert(n.effects[k] == effects[k - m.effects.len()]);
    }
}

proof fn lemma_emit_answerable<S: StateMachine>(
    m: NodeModel<S>,
    effects: Seq<EffectModel<S::State>>,
)
    requires
        forall|k: int| #![trigger effects[k]] 0 <= k < effects.len() ==> answerable(m, effects[k]),
    ensures
        output_grows(m, m.emit(effects)),
{
    let n = m.emit(effects);
    assert(n.effects.take(m.effects.len() as int) =~= m.effects);
    assert forall|k: int|
        #![trigger n.effects[k]]
        m.effects.len() <= k < n.effects.len() implies answerable(n, n.effects[k]) by {
        let e = effects[k - m.effects.len()];
        assert(n.effects[k] == e);
        lemma_issued_stays(m, n, e);
    }
}

proof fn lemma_become_follower_output<S: StateMachine>(
    m: NodeModel<S>,
    term: Term,
    leader_id: Option<NodeId>,
    now: u64,
)
    requires
        term >= m.term(),
    ensures
        output_grows(m, m.become_follower(term, leader_id, now)),
{
    let after = m.become_follower(term, leader_id, now);
    lemma_emit_quiet(m, m.dropped_reads());
    assert(after.effects == m.emit(m.dropped_reads()).effects);
    lemma_quiet(m, after);
}

proof fn lemma_resolve_pending_output<S: StateMachine>(m: NodeModel<S>)
    ensures
        output_grows(m, m.resolve_pending()),
{
    let told = m.pending.filter(|p: PendingProposal| m.decided(p)).map_values(
        |p: PendingProposal| m.verdict(p),
    );
    lemma_emit_quiet(m, told);
    assert(m.resolve_pending().effects == m.emit(told).effects);
    lemma_quiet(m, m.resolve_pending());
}

proof fn lemma_resolve_reads_output<S: StateMachine>(m: NodeModel<S>)
    ensures
        output_grows(m, m.resolve_reads()),
{
    if let RoleModel::Leader(leader) = m.role {
        let granted = leader.pending_reads.filter(
            |read: super::model::PendingRead| m.servable(leader.acked_seq, read),
        ).map_values(
            |read: super::model::PendingRead|
                EffectModel::<S::State>::GrantRead { ticket: read.ticket },
        );
        lemma_emit_quiet(m, granted);
        assert(m.resolve_reads().effects == m.emit(granted).effects);
        lemma_quiet(m, m.resolve_reads());
    } else {
        lemma_same_output(m, m);
    }
}

proof fn lemma_commit_to_output<S: StateMachine>(m: NodeModel<S>, index: LogIndex)
    requires
        m.inv(),
        m.commit_index <= index <= m.files.last_index(),
    ensures
        output_grows(m, m.commit_to(index)),
        m.commit_to(index).term() == m.term(),
{
    commit_to_settles(m, index);
    let committed = NodeModel { commit_index: index, ..m };
    let applied = committed.apply_backlog();
    apply_committed_settles(committed);
    lemma_same_output(m, applied);
    let told = applied.resolve_pending();
    lemma_resolve_pending_output(applied);
    lemma_output_twice(m, applied, told);
    let served = told.resolve_reads();
    lemma_resolve_reads_output(told);
    lemma_output_twice(m, told, served);
    maybe_compact_keeps(served);
    let done = served.maybe_compact();
    assert(done.role == served.role);
    lemma_same_output(served, done);
    lemma_output_twice(m, served, done);
}

proof fn lemma_advance_commit_output<S: StateMachine>(m: NodeModel<S>, now: u64)
    requires
        m.inv(),
    ensures
        output_grows(m, m.maybe_advance_commit(now)),
{
    lemma_same_output(m, m);
    if let RoleModel::Leader(leader) = m.role {
        let index = m.quorum_index(leader);
        if m.members().len() > 0 && index > m.commit_index && m.files.term_at(index as int) == Some(
            m.term(),
        ) {
            lemma_commit_to_output(m, index);
            let after = m.commit_to(index);
            lemma_same_output(after, after);
            lemma_become_follower_output(after, after.term(), None, now);
            lemma_output_twice(m, after, after.retire(now));
        }
    }
}

/// What a leader sends lies within its log.
proof fn lemma_replication_answerable<S: StateMachine>(
    m: NodeModel<S>,
    leader: LeaderModel,
    peer: NodeId,
)
    requires
        m.inv(),
        m.is_leader(),
        leader.within_log(m.files.last_index()),
        m.files.last_index() + 1 <= u64::MAX,
    ensures
        answerable(m, m.replication(leader, peer)),
{
    let next = lookup(leader.next_index, peer, (m.files.last_index() + 1) as u64);
    if next > m.files.snapshot_index() {
        let tail = m.files.entries_from(next as int);
        batches_are_bounded(tail, m.settings.max_append_bytes);
        assert(next - 1 + tail.len() == m.files.last_index());
    }
}

proof fn lemma_send_append_output<S: StateMachine>(m: NodeModel<S>, peer: NodeId)
    requires
        m.inv(),
        m.files.last_index() + 1 <= u64::MAX,
    ensures
        output_grows(m, m.send_append(peer)),
{
    lemma_same_output(m, m);
    if let RoleModel::Leader(leader) = m.role {
        lemma_replication_answerable(m, leader, peer);
        lemma_emit_answerable(m, seq![m.replication(leader, peer)]);
    }
}

proof fn lemma_broadcast_output<S: StateMachine>(m: NodeModel<S>)
    requires
        m.inv(),
        m.files.last_index() + 1 <= u64::MAX,
    ensures
        output_grows(m, m.broadcast()),
{
    if let RoleModel::Leader(leader) = m.role {
        let sent = m.peers().map_values(|peer: NodeId| m.replication(leader, peer));
        assert forall|k: int| #![trigger sent[k]] 0 <= k < sent.len() implies answerable(
            m,
            sent[k],
        ) by {
            lemma_replication_answerable(m, leader, m.peers()[k]);
        }
        lemma_emit_answerable(m, sent);
    } else {
        lemma_same_output(m, m);
    }
}

proof fn lemma_heartbeat_output<S: StateMachine>(m: NodeModel<S>, now: u64)
    requires
        m.inv(),
        m.files.last_index() + 1 <= u64::MAX,
    ensures
        output_grows(m, m.on_heartbeat_tick(now)),
{
    lemma_become_follower_output(m, m.term(), None, now);
    lemma_broadcast_output(m);
    let sent = m.broadcast();
    lemma_same_output(sent, sent.schedule_heartbeat(now));
    lemma_output_twice(m, sent, sent.schedule_heartbeat(now));
    lemma_same_output(m, m.schedule_heartbeat(now));
}

proof fn lemma_become_leader_output<S: StateMachine>(m: NodeModel<S>, now: u64)
    requires
        m.settled(),
        m.role is Candidate,
        m.files.last_index() + 2 <= u64::MAX,
    ensures
        output_grows(m, m.become_leader(now)),
{
    become_leader_keeps(m, now);
    let bare = NodeModel {
        role: RoleModel::Leader(m.fresh_leader(now)),
        leader_id: Some(m.settings.id),
        ..m
    };
    let appended = bare.append(seq![m.noop()]);
    assert(appended.files.last_index() == m.files.last_index() + 1);
    lemma_same_output(m, appended);
    lemma_advance_commit_output(appended, now);
    let advanced = appended.maybe_advance_commit(now);
    maybe_advance_commit_keeps(appended, now);
    lemma_output_twice(m, appended, advanced);
    lemma_heartbeat_output(advanced, now);
    lemma_output_twice(m, advanced, advanced.on_heartbeat_tick(now));
}

proof fn lemma_start_election_output<S: StateMachine>(m: NodeModel<S>, now: u64)
    requires
        m.settled(),
        m.term() < u64::MAX,
        m.files.last_index() + 2 <= u64::MAX,
    ensures
        output_grows(m, m.start_election(now)),
{
    candidacy_keeps(m, now);
    let candidate = m.candidacy(now);
    let term = (m.term() + 1) as u64;
    let calls = m.peers().map_values(
        |peer: NodeId|
            EffectModel::<S::State>::Send {
                to: peer,
                request: RequestModel::RequestVote(m.ballot(term)),
                tag: ReplyTag::Vote { sent_term: term },
            },
    );
    let silent = NodeModel { effects: m.effects, ..candidate };
    lemma_same_output(m, silent);
    lemma_emit_answerable(silent, calls);
    assert(candidate =~= silent.emit(calls));
    lemma_output_twice(m, silent, candidate);
    lemma_become_leader_output(candidate, now);
    lemma_same_output(candidate, candidate);
    lemma_output_twice(m, candidate, candidate.maybe_become_leader(now));
}

proof fn lemma_with_leader_output<S: StateMachine>(
    m: NodeModel<S>,
    leader: LeaderModel,
    from: NodeId,
    now: u64,
)
    requires
        m.settled(),
        m.is_leader(),
        leader.within_log(m.files.last_index()),
        m.files.last_index() + 1 <= u64::MAX,
    ensures
        output_grows(m, m.with_leader(leader)),
        output_grows(m, m.with_leader(leader).send_append(from)),
        output_grows(m, m.with_leader(leader).maybe_advance_commit(now)),
        output_grows(m, m.with_leader(leader).maybe_advance_commit(now).send_append(from)),
{
    let bare = m.with_leader(leader);
    with_leader_keeps(m, leader);
    lemma_same_output(m, bare);
    lemma_send_append_output(bare, from);
    lemma_output_twice(m, bare, bare.send_append(from));
    let advanced = bare.maybe_advance_commit(now);
    lemma_advance_commit_output(bare, now);
    maybe_advance_commit_keeps(bare, now);
    lemma_output_twice(m, bare, advanced);
    lemma_send_append_output(advanced, from);
    lemma_output_twice(m, advanced, advanced.send_append(from));
}

proof fn lemma_reply_output<S: StateMachine>(
    m: NodeModel<S>,
    from: NodeId,
    tag: ReplyTag,
    result: Result<RpcResponse, TransportError>,
    now: u64,
)
    requires
        m.settled(),
        m.issued(tag),
        m.term() < u64::MAX,
        m.files.last_index() + 2 <= u64::MAX,
    ensures
        output_grows(m, m.on_reply(from, tag, result, now)),
{
    lemma_same_output(m, m);
    match (tag, result) {
        (ReplyTag::PreVote { .. }, Ok(RpcResponse::PreVote(reply))) => {
            if reply.term > m.term() {
                lemma_become_follower_output(m, reply.term, None, now);
            }
            if let RoleModel::PreCandidate { votes } = m.role {
                let more = NodeModel {
                    role: RoleModel::PreCandidate { votes: votes.insert(from) },
                    ..m
                };
                lemma_same_output(m, more);
                lemma_start_election_output(more, now);
                lemma_output_twice(m, more, more.start_election(now));
            }
        },
        (ReplyTag::Vote { .. }, Ok(RpcResponse::RequestVote(reply))) => {
            if reply.term > m.term() {
                lemma_become_follower_output(m, reply.term, None, now);
            }
            if let RoleModel::Candidate { votes } = m.role {
                let more = NodeModel {
                    role: RoleModel::Candidate { votes: votes.insert(from) },
                    ..m
                };
                lemma_same_output(m, more);
                lemma_become_leader_output(more, now);
                lemma_output_twice(m, more, more.become_leader(now));
            }
        },
        (
            ReplyTag::Append { sent_term, sent_prev_index, sent_entries, sent_seq },
            Ok(RpcResponse::AppendEntries(reply)),
        ) => {
            if reply.term > m.term() {
                lemma_become_follower_output(m, reply.term, None, now);
            } else if sent_term == m.term() {
                if let RoleModel::Leader(leader) = m.role {
                    let heard = NodeModel::<S>::acknowledge(leader, from, sent_seq, now);
                    let confirmed = (sent_prev_index + sent_entries) as u64;
                    if reply.success {
                        lemma_with_leader_output(
                            m,
                            moved_forward(heard, from, confirmed),
                            from,
                            now,
                        );
                        let a = m.on_append_accepted(heard, from, confirmed, now);
                        assert(output_grows(m, a));
                        lemma_resolve_reads_output(a);
                        lemma_output_twice(m, a, a.resolve_reads());
                    } else {
                        let moved = LeaderModel {
                            next_index: heard.next_index.insert(
                                from,
                                smaller(
                                    lookup(heard.next_index, from, 1),
                                    larger(sent_prev_index, 1),
                                ),
                            ),
                            ..heard
                        };
                        lemma_with_leader_output(m, moved, from, now);
                        let b = m.on_append_rejected(heard, from, sent_prev_index);
                        assert(output_grows(m, b));
                        lemma_resolve_reads_output(b);
                        lemma_output_twice(m, b, b.resolve_reads());
                    }
                }
            }
        },
        (
            ReplyTag::InstallSnapshot { sent_term, last_included_index },
            Ok(RpcResponse::InstallSnapshot(reply)),
        ) => {
            if reply.term > m.term() {
                lemma_become_follower_output(m, reply.term, None, now);
            } else if sent_term == m.term() {
                if let RoleModel::Leader(leader) = m.role {
                    lemma_with_leader_output(
                        m,
                        moved_by_snapshot(leader, from, last_included_index, now),
                        from,
                        now,
                    );
                }
            }
        },
        (ReplyTag::SnapshotChunk { sent_term }, Ok(RpcResponse::SnapshotChunk(reply))) => {
            if reply.term > m.term() {
                lemma_become_follower_output(m, reply.term, None, now);
            } else if sent_term == m.term() {
                lemma_same_output(m, m.on_chunk_answered(from, now));
            }
        },
        _ => {},
    }
}

proof fn lemma_append_entries_output<S: StateMachine>(
    m: NodeModel<S>,
    args: AppendModel,
    now: u64,
)
    requires
        m.settled(),
        m.admits_append(args),
    ensures
        output_grows(m, m.on_append_entries(args, now).0),
{
    lemma_same_output(m, m);
    on_append_entries_keeps(m, args, now);
    if args.term >= m.term() {
        let down = m.become_follower(args.term, Some(args.leader_id), now);
        lemma_become_follower_output(m, args.term, Some(args.leader_id), now);
        let heard = m.hear_leader(args.term, args.leader_id, now);
        lemma_same_output(down, heard);
        lemma_output_twice(m, down, heard);
        if heard.prev_matches(args) {
            merge_keeps(heard, args);
            let merged = heard.merge(args);
            lemma_same_output(heard, heard);
            if !heard.has_all(args.entries) {
                let i = heard.first_new(args.entries);
                let roomy = heard.make_room(args.entries[i]);
                if heard.files.holds(args.entries[i].index as int) {
                    let cut = heard.truncate(args.entries[i].index as int);
                    lemma_same_output(heard, cut);
                    lemma_resolve_pending_output(cut);
                    lemma_output_twice(heard, cut, roomy);
                }
                lemma_same_output(roomy, merged);
                lemma_output_twice(heard, roomy, merged);
            }
            lemma_output_twice(m, heard, merged);
            let commit = NodeModel::<S>::verified_commit(args);
            if commit > merged.commit_index {
                lemma_commit_to_output(merged, commit);
                lemma_output_twice(m, merged, merged.commit_to(commit));
            }
        }
    }
}

proof fn lemma_chunk_output<S: StateMachine>(m: NodeModel<S>, args: ChunkModel, now: u64)
    ensures
        output_grows(m, m.on_snapshot_chunk(args, now).0),
{
    lemma_same_output(m, m);
    let transfer = args.transfer;
    if transfer.term >= m.term() {
        let down = m.become_follower(transfer.term, Some(transfer.leader_id), now);
        lemma_become_follower_output(m, transfer.term, Some(transfer.leader_id), now);
        let heard = m.hear_leader(transfer.term, transfer.leader_id, now);
        let taken = NodeModel { incoming: assembly_after(m.incoming, args), ..heard };
        lemma_same_output(down, taken);
        lemma_output_twice(m, down, taken);
        if completes(m.incoming, args) {
            let news = seq![
                EffectModel::<S::State>::Assembled {
                    transfer,
                    bytes: reached(m.incoming, args),
                },
            ];
            lemma_emit_quiet(taken, news);
            lemma_output_twice(m, taken, taken.emit(news));
        }
    }
}

proof fn lemma_install_output<S: StateMachine>(
    m: NodeModel<S>,
    args: InstallModel<S::State>,
    now: u64,
)
    ensures
        output_grows(m, m.on_install_snapshot(args, now).0),
{
    lemma_same_output(m, m);
    if args.term >= m.term() {
        let down = m.become_follower(args.term, Some(args.leader_id), now);
        lemma_become_follower_output(m, args.term, Some(args.leader_id), now);
        let heard = m.hear_leader(args.term, args.leader_id, now);
        lemma_same_output(down, heard);
        lemma_output_twice(m, down, heard);
        let boundary = args.snapshot.last_included_index;
        if boundary > heard.commit_index {
            let files = heard.files.installed(args.snapshot);
            let bare = NodeModel {
                files,
                writes: heard.writes.push(WriteModel::Snapshot(args.snapshot)).push(
                    WriteModel::RewriteLog(files.log),
                ),
                state: args.snapshot.state,
                commit_index: boundary,
                last_applied: boundary,
                captured: None,
                ..heard
            };
            lemma_same_output(heard, bare);
            lemma_output_twice(m, heard, bare);
            let dropped = bare.pending.filter(
                |p: PendingProposal| p.index <= boundary,
            ).map_values(
                |p: PendingProposal| EffectModel::<S::State>::DropProposal { ticket: p.ticket },
            );
            let hidden = bare.drop_hidden(boundary);
            lemma_emit_quiet(bare, dropped);
            assert(hidden.effects == bare.emit(dropped).effects);
            lemma_quiet(bare, hidden);
            lemma_output_twice(m, bare, hidden);
            lemma_resolve_pending_output(hidden);
            lemma_output_twice(m, hidden, hidden.resolve_pending());
        }
    }
}

/// Every reply finds its question: over any event, tags handed out before
/// stay valid, effects are only added, and every RPC that goes out carries a
/// tag that the node can take the reply under from then on.
pub proof fn every_tag_stays_answerable<S: StateMachine>(
    m: NodeModel<S>,
    event: NodeEvent<S::State>,
    now: u64,
)
    requires
        m.settled(),
        m.admits(event, now),
    ensures
        output_grows(m, m.step(event, now)),
        forall|tag: ReplyTag| #[trigger] m.issued(tag) ==> m.step(event, now).issued(tag),
{
    lemma_same_output(m, m);
    match event {
        NodeEvent::Propose { command, ticket } => {
            if m.refusal(command, now) is None {
                on_propose_keeps(m, command, ticket, now);
                let accepted = m.accept(command, ticket);
                lemma_same_output(m, accepted);
                let advanced = accepted.maybe_advance_commit(now);
                lemma_advance_commit_output(accepted, now);
                maybe_advance_commit_keeps(accepted, now);
                lemma_output_twice(m, accepted, advanced);
                lemma_broadcast_output(advanced);
                lemma_output_twice(m, advanced, advanced.broadcast());
            }
        },
        NodeEvent::Read { ticket } => {
            if let RoleModel::Leader(leader) = m.role {
                let waiting = m.register_read(leader, ticket);
                lemma_same_output(m, waiting);
                lemma_broadcast_output(waiting);
                let sent = waiting.broadcast();
                lemma_output_twice(m, waiting, sent);
                lemma_resolve_reads_output(sent);
                lemma_output_twice(m, sent, sent.resolve_reads());
            }
        },
        NodeEvent::Request(request) => match request {
            RequestModel::RequestVote(args) => {
                let heard = if args.term > m.term() {
                    m.become_follower(args.term, None, now)
                } else {
                    m
                };
                if args.term > m.term() {
                    lemma_become_follower_output(m, args.term, None, now);
                }
                let voted = heard.save(
                    HardState {
                        current_term: heard.term(),
                        voted_for: Some(args.candidate_id),
                    },
                ).reset_timer(now);
                lemma_same_output(heard, voted);
                lemma_output_twice(m, heard, voted);
            },
            RequestModel::AppendEntries(args) => lemma_append_entries_output(m, args, now),
            RequestModel::PreVote(_) => {},
            RequestModel::InstallSnapshot(args) => lemma_install_output(m, args, now),
            RequestModel::SnapshotChunk(args) => lemma_chunk_output(m, args, now),
        },
        NodeEvent::Reply { from, tag, result } => lemma_reply_output(m, from, tag, result, now),
        NodeEvent::Timer => {
            if m.is_leader() {
                lemma_heartbeat_output(m, now);
            } else if m.is_member() {
                lemma_pre_campaign_output(m, now);
                let probing = m.pre_campaign(now);
                on_election_timeout_keeps(m, now);
                lemma_same_output(probing, probing);
                lemma_start_election_output(probing, now);
                lemma_output_twice(m, probing, probing.maybe_start_election(now));
            } else {
                lemma_same_output(m, m.reset_timer(now));
            }
        },
    }
}

proof fn lemma_pre_campaign_output<S: StateMachine>(m: NodeModel<S>, now: u64)
    requires
        !m.is_leader(),
    ensures
        output_grows(m, m.pre_campaign(now)),
{
    let probing = m.pre_campaign(now);
    let prospective = (m.term() + 1) as u64;
    let calls = m.peers().map_values(
        |peer: NodeId|
            EffectModel::<S::State>::Send {
                to: peer,
                request: RequestModel::PreVote(m.ballot(prospective)),
                tag: ReplyTag::PreVote { sent_term: prospective },
            },
    );
    let silent = NodeModel { effects: m.effects, ..probing };
    lemma_same_output(m, silent);
    lemma_emit_answerable(silent, calls);
    assert(probing =~= silent.emit(calls));
    lemma_output_twice(m, silent, probing);
}

} // verus!
