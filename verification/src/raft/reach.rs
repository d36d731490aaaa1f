//! Who a node sends to: the other members of its configuration, and nobody
//! else. A removed server stops hearing from the leader the moment its removal
//! is in the leader's log.

use vstd::prelude::*;

use super::machine::StateMachine;
use super::membership::{config_of, last_config};
use super::model::{
    larger, lookup, smaller, EffectModel, LeaderModel, NodeEvent, NodeModel, PendingProposal,
    PendingRead, ReplyTag, RoleModel,
};
use super::rpc::{AppendModel, InstallModel, RequestModel, RpcResponse};
use super::storage::WriteModel;
use super::transport::TransportError;
use super::types::{LogEntry, LogIndex, NodeId};
use super::upkeep::{
    append_keeps, candidacy_keeps, commit_to_settles, maybe_advance_commit_keeps,
    maybe_compact_keeps, peers_are_members, resolve_pending_keeps, resolve_reads_keeps,
};

verus! {

/// Whether an effect, if it sends, sends to another member of `m`'s
/// configuration.
pub open spec fn reaches_peer<S: StateMachine>(
    m: NodeModel<S>,
    effect: EffectModel<S::State>,
) -> bool {
    match effect {
        EffectModel::Send { to, .. } => m.is_peer(to),
        _ => true,
    }
}

/// Whether everything a node has in hand to send goes to other members of its
/// configuration.
pub open spec fn reaches_peers<S: StateMachine>(m: NodeModel<S>) -> bool {
    forall|i: int|
        #![trigger m.effects[i]]
        0 <= i < m.effects.len() ==> reaches_peer(m, m.effects[i])
}

/// Whether effects hold no message.
pub open spec fn sends_nothing<D>(effects: Seq<EffectModel<D>>) -> bool {
    forall|i: int| #![trigger effects[i]] 0 <= i < effects.len() ==> !(effects[i] is Send)
}

/// Whether `y` is `x` in the same configuration, with more effects in hand
/// that all reach peers.
spec fn reaches_on<S: StateMachine>(x: NodeModel<S>, y: NodeModel<S>) -> bool {
    &&& y.settings == x.settings
    &&& y.members() == x.members()
    &&& reaches_peers(x) ==> reaches_peers(y)
}

proof fn emit_reaches<S: StateMachine>(
    x: NodeModel<S>,
    y: NodeModel<S>,
    more: Seq<EffectModel<S::State>>,
)
    requires
        y.settings == x.settings,
        y.members() == x.members(),
        y.effects == x.effects + more,
        forall|i: int|
            #![trigger more[i]]
            0 <= i < more.len() ==> reaches_peer(x, more[i]),
    ensures
        reaches_on(x, y),
{
    if reaches_peers(x) {
        assert forall|i: int| #![trigger y.effects[i]] 0 <= i < y.effects.len() implies reaches_peer(
            y,
            y.effects[i],
        ) by {
            if i < x.effects.len() {
                assert(y.effects[i] == x.effects[i]);
            } else {
                assert(y.effects[i] == more[i - x.effects.len()]);
            }
        }
    }
}

proof fn follower_reaches<S: StateMachine>(
    m: NodeModel<S>,
    term: u64,
    leader: Option<NodeId>,
    now: u64,
)
    ensures
        reaches_on(m, m.become_follower(term, leader, now)),
        sends_nothing(m.effects) ==> sends_nothing(m.become_follower(term, leader, now).effects),
{
    let after = m.become_follower(term, leader, now);
    emit_reaches(m, after, m.dropped_reads());
}

proof fn resolve_pending_reaches<S: StateMachine>(m: NodeModel<S>)
    ensures
        reaches_on(m, m.resolve_pending()),
        sends_nothing(m.effects) ==> sends_nothing(m.resolve_pending().effects),
{
    let told = m.pending.filter(|p: PendingProposal| m.decided(p)).map_values(
        |p: PendingProposal| m.verdict(p),
    );
    emit_reaches(m, m.resolve_pending(), told);
}

proof fn resolve_reads_reaches<S: StateMachine>(m: NodeModel<S>)
    ensures
        reaches_on(m, m.resolve_reads()),
        sends_nothing(m.effects) ==> sends_nothing(m.resolve_reads().effects),
{
    if let RoleModel::Leader(leader) = m.role {
        let granted = leader.pending_reads.filter(
            |read: PendingRead| m.servable(leader.acked_seq, read),
        ).map_values(|read: PendingRead| EffectModel::<S::State>::GrantRead { ticket: read.ticket });
        emit_reaches(m, m.resolve_reads(), granted);
    }
}

proof fn commit_reaches<S: StateMachine>(m: NodeModel<S>, index: LogIndex)
    requires
        m.inv(),
        m.commit_index <= index <= m.files.last_index(),
    ensures
        reaches_on(m, m.commit_to(index)),
        sends_nothing(m.effects) ==> sends_nothing(m.commit_to(index).effects),
{
    let moved = NodeModel { commit_index: index, ..m };
    commit_to_settles(m, index);
    super::upkeep::apply_backlog_keeps(moved);
    let applied = moved.apply_backlog();
    resolve_pending_keeps(applied);
    resolve_pending_reaches(applied);
    let told = applied.resolve_pending();
    resolve_reads_keeps(told);
    resolve_reads_reaches(told);
    let served = told.resolve_reads();
    maybe_compact_keeps(served);
    assert(served.maybe_compact().effects == served.effects);
    assert(served.maybe_compact().settings == served.settings);
    assert(served.maybe_compact().members() == served.members());
    assert(reaches_peers(m) ==> reaches_peers(applied));
    assert(reaches_peers(served) ==> reaches_peers(served.maybe_compact()));
}

proof fn advance_reaches<S: StateMachine>(m: NodeModel<S>, now: u64)
    requires
        m.inv(),
    ensures
        reaches_on(m, m.maybe_advance_commit(now)),
{
    if let RoleModel::Leader(leader) = m.role {
        let index = m.quorum_index(leader);
        if m.members().len() > 0 && index > m.commit_index && m.files.term_at(index as int) == Some(
            m.term(),
        ) {
            commit_reaches(m, index);
            let after = m.commit_to(index);
            follower_reaches(after, after.term(), None, now);
        }
    }
}

proof fn broadcast_reaches<S: StateMachine>(m: NodeModel<S>)
    ensures
        reaches_on(m, m.broadcast()),
{
    if let RoleModel::Leader(leader) = m.role {
        let sent = m.peers().map_values(|peer: NodeId| m.replication(leader, peer));
        assert forall|i: int| #![trigger sent[i]] 0 <= i < sent.len() implies reaches_peer(
            m,
            sent[i],
        ) by {
            peers_are_members(m, i);
        }
        emit_reaches(m, m.broadcast(), sent);
    }
}

proof fn send_reaches<S: StateMachine>(m: NodeModel<S>, peer: NodeId)
    ensures
        reaches_on(m, m.send_append(peer)),
{
    if m.is_leader() && m.is_peer(peer) {
        let sent = seq![m.replication(m.role->Leader_0, peer)];
        emit_reaches(m, m.send_append(peer), sent);
    }
}

proof fn tick_reaches<S: StateMachine>(m: NodeModel<S>, now: u64)
    ensures
        reaches_on(m, m.on_heartbeat_tick(now)),
{
    broadcast_reaches(m);
    follower_reaches(m, m.term(), None, now);
    assert(reaches_peers(m.broadcast()) ==> reaches_peers(m.broadcast().schedule_heartbeat(now)));
}

/// An entry that is no configuration change leaves the configuration as it is.
pub proof fn plain_entry_keeps_members<S: StateMachine>(m: NodeModel<S>, entry: LogEntry)
    requires
        !(entry.command is ConfigChange),
    ensures
        m.append(seq![entry]).members() == m.members(),
{
    let log = m.files.log;
    let after = m.append(seq![entry]).files.log;
    assert(log.take(log.len() as int) =~= log);
    assert(after.take(after.len() as int) =~= after);
    assert(after =~= log.push(entry));
    assert(after.drop_last() =~= log);
    assert(config_of(after.last()) is None);
    assert(last_config(after) == last_config(log));
}

proof fn lead_reaches<S: StateMachine>(m: NodeModel<S>, now: u64)
    requires
        m.settled(),
        m.files.last_index() + 1 <= u64::MAX,
    ensures
        reaches_on(m, m.become_leader(now)),
{
    super::upkeep::become_leader_keeps(m, now);
    let bare = NodeModel {
        role: RoleModel::Leader(m.fresh_leader(now)),
        leader_id: Some(m.settings.id),
        ..m
    };
    let appended = bare.append(seq![m.noop()]);
    plain_entry_keeps_members(bare, m.noop());
    assert(reaches_peers(m) ==> reaches_peers(appended));
    advance_reaches(appended, now);
    tick_reaches(appended.maybe_advance_commit(now), now);
}

proof fn campaign_reaches<S: StateMachine>(m: NodeModel<S>, now: u64)
    requires
        m.settled(),
        m.files.last_index() + 1 <= u64::MAX,
    ensures
        reaches_on(m, m.start_election(now)),
{
    candidacy_keeps(m, now);
    let asked = m.candidacy(now);
    let term = (m.term() + 1) as u64;
    let sent = m.peers().map_values(
        |peer: NodeId|
            EffectModel::<S::State>::Send {
                to: peer,
                request: RequestModel::RequestVote(m.ballot(term)),
                tag: ReplyTag::Vote { sent_term: term },
            },
    );
    assert forall|i: int| #![trigger sent[i]] 0 <= i < sent.len() implies reaches_peer(
        m,
        sent[i],
    ) by {
        peers_are_members(m, i);
    }
    emit_reaches(m, asked, sent);
    lead_reaches(asked, now);
}

proof fn timeout_reaches<S: StateMachine>(m: NodeModel<S>, now: u64)
    requires
        m.settled(),
        m.files.last_index() + 1 <= u64::MAX,
    ensures
        reaches_on(m, m.on_election_timeout(now)),
{
    let term = (m.term() + 1) as u64;
    let asked = m.pre_campaign(now);
    let sent = m.peers().map_values(
        |peer: NodeId|
            EffectModel::<S::State>::Send {
                to: peer,
                request: RequestModel::PreVote(m.ballot(term)),
                tag: ReplyTag::PreVote { sent_term: term },
            },
    );
    assert forall|i: int| #![trigger sent[i]] 0 <= i < sent.len() implies reaches_peer(
        m,
        sent[i],
    ) by {
        peers_are_members(m, i);
    }
    emit_reaches(m, asked, sent);
    assert(asked.settled());
    campaign_reaches(asked, now);
    assert(reaches_peers(m) ==> reaches_peers(m.reset_timer(now)));
}

proof fn accepted_reaches<S: StateMachine>(
    m: NodeModel<S>,
    leader: LeaderModel,
    from: NodeId,
    confirmed: u64,
    now: u64,
)
    requires
        m.inv(),
        leader.within_log(m.files.last_index()),
        confirmed <= m.files.last_index(),
        m.files.last_index() < u64::MAX,
    ensures
        reaches_on(m, m.on_append_accepted(leader, from, confirmed, now)),
{
    let leader2 = if confirmed > lookup(leader.match_index, from, 0) {
        LeaderModel {
            match_index: leader.match_index.insert(from, confirmed),
            next_index: leader.next_index.insert(from, (confirmed + 1) as u64),
            ..leader
        }
    } else {
        LeaderModel {
            match_index: leader.match_index.insert(
                from,
                lookup(leader.match_index, from, 0),
            ),
            ..leader
        }
    };
    let held = m.with_leader(leader2);
    assert(held.inv());
    assert(reaches_peers(m) ==> reaches_peers(held));
    advance_reaches(held, now);
    send_reaches(held.maybe_advance_commit(now), from);
}

proof fn installed_reaches<S: StateMachine>(
    m: NodeModel<S>,
    leader: LeaderModel,
    from: NodeId,
    boundary: LogIndex,
    now: u64,
)
    requires
        m.inv(),
        leader.within_log(m.files.last_index()),
        boundary <= m.files.last_index(),
        m.files.last_index() < u64::MAX,
    ensures
        reaches_on(m, m.on_snapshot_installed(leader, from, boundary, now)),
{
    let held = m.with_leader(
        LeaderModel {
            last_contact: leader.last_contact.insert(from, now),
            match_index: leader.match_index.insert(
                from,
                larger(lookup(leader.match_index, from, 0), boundary),
            ),
            next_index: leader.next_index.insert(
                from,
                larger(
                    lookup(leader.next_index, from, 1),
                    (boundary + 1) as u64,
                ),
            ),
            ..leader
        },
    );
    assert(held.inv());
    assert(reaches_peers(m) ==> reaches_peers(held));
    advance_reaches(held, now);
    send_reaches(held.maybe_advance_commit(now), from);
}

proof fn reply_reaches<S: StateMachine>(
    m: NodeModel<S>,
    from: NodeId,
    tag: ReplyTag,
    result: Result<RpcResponse, TransportError>,
    now: u64,
)
    requires
        m.settled(),
        m.room(now),
        m.issued(tag),
    ensures
        reaches_on(m, m.on_reply(from, tag, result, now)),
{
    match (tag, result) {
        (ReplyTag::PreVote { sent_term }, Ok(RpcResponse::PreVote(reply))) => {
            follower_reaches(m, reply.term, None, now);
            if let RoleModel::PreCandidate { votes } = m.role {
                let counted = NodeModel {
                    role: RoleModel::PreCandidate { votes: votes.insert(from) },
                    ..m
                };
                assert(counted.settled());
                assert(reaches_peers(m) ==> reaches_peers(counted));
                campaign_reaches(counted, now);
            }
        },
        (ReplyTag::Vote { sent_term }, Ok(RpcResponse::RequestVote(reply))) => {
            follower_reaches(m, reply.term, None, now);
            if let RoleModel::Candidate { votes } = m.role {
                let counted = NodeModel {
                    role: RoleModel::Candidate { votes: votes.insert(from) },
                    ..m
                };
                assert(counted.settled());
                assert(reaches_peers(m) ==> reaches_peers(counted));
                lead_reaches(counted, now);
            }
        },
        (
            ReplyTag::Append { sent_term, sent_prev_index, sent_entries, sent_seq },
            Ok(RpcResponse::AppendEntries(reply)),
        ) => {
            follower_reaches(m, reply.term, None, now);
            if reply.term <= m.term() && sent_term == m.term() {
                if let RoleModel::Leader(leader) = m.role {
                    let heard = NodeModel::<S>::acknowledge(leader, from, sent_seq, now);
                    if reply.success {
                        let confirmed = (sent_prev_index + sent_entries) as u64;
                        accepted_reaches(m, heard, from, confirmed, now);
                        resolve_reads_reaches(m.on_append_accepted(heard, from, confirmed, now));
                    } else {
                        let back = m.on_append_rejected(heard, from, sent_prev_index);
                        let held = m.with_leader(
                            LeaderModel {
                                next_index: heard.next_index.insert(
                                    from,
                                    smaller(
                                        lookup(heard.next_index, from, 1),
                                        larger(sent_prev_index, 1),
                                    ),
                                ),
                                ..heard
                            },
                        );
                        assert(reaches_peers(m) ==> reaches_peers(held));
                        send_reaches(held, from);
                        resolve_reads_reaches(back);
                    }
                }
            }
        },
        (
            ReplyTag::InstallSnapshot { sent_term, last_included_index },
            Ok(RpcResponse::InstallSnapshot(reply)),
        ) => {
            follower_reaches(m, reply.term, None, now);
            if reply.term <= m.term() && sent_term == m.term() {
                if let RoleModel::Leader(leader) = m.role {
                    installed_reaches(m, leader, from, last_included_index, now);
                }
            }
        },
        (ReplyTag::SnapshotChunk { sent_term }, Ok(RpcResponse::SnapshotChunk(reply))) => {
            follower_reaches(m, reply.term, None, now);
            assert(reaches_peers(m) ==> reaches_peers(m.on_chunk_answered(from, now)));
        },
        _ => {},
    }
}

proof fn append_entries_sends_nothing<S: StateMachine>(
    m: NodeModel<S>,
    args: AppendModel,
    now: u64,
)
    requires
        m.settled(),
        m.effects.len() == 0,
        m.admits_append(args),
    ensures
        sends_nothing(m.on_append_entries(args, now).0.effects),
{
    super::upkeep::on_append_entries_keeps(m, args, now);
    if args.term >= m.term() {
        follower_reaches(m, args.term, Some(args.leader_id), now);
        let heard = m.hear_leader(args.term, args.leader_id, now);
        assert(sends_nothing(heard.effects));
        if heard.prev_matches(args) {
            let merged = heard.merge(args);
            if !heard.has_all(args.entries) {
                let i = heard.first_new(args.entries);
                resolve_pending_reaches(heard.truncate(args.entries[i].index as int));
            }
            assert(sends_nothing(merged.effects));
            let commit = NodeModel::<S>::verified_commit(args);
            if commit > merged.commit_index {
                commit_reaches(merged, commit);
            }
        }
    }
}

proof fn install_sends_nothing<S: StateMachine>(
    m: NodeModel<S>,
    args: InstallModel<S::State>,
    now: u64,
)
    requires
        m.effects.len() == 0,
    ensures
        sends_nothing(m.on_install_snapshot(args, now).0.effects),
{
    if args.term >= m.term() {
        follower_reaches(m, args.term, Some(args.leader_id), now);
        let heard = m.hear_leader(args.term, args.leader_id, now);
        assert(sends_nothing(heard.effects));
        let boundary = args.snapshot.last_included_index;
        if boundary > heard.commit_index {
            let files = heard.files.installed(args.snapshot);
            let placed = NodeModel {
                files,
                writes: heard.writes.push(WriteModel::Snapshot(args.snapshot)).push(
                    WriteModel::RewriteLog(files.log),
                ),
                state: args.snapshot.state,
                commit_index: boundary,
                last_applied: boundary,
                captured: None,
                ..heard
            };
            let dropped = placed.drop_hidden(boundary);
            assert(sends_nothing(dropped.effects));
            resolve_pending_reaches(dropped);
        }
    }
}

/// A node sends to the other members of its configuration and to nobody else:
/// not to itself, not to a server that was removed, not to one that was never
/// added. The configuration is the one in effect after the event, so a leader
/// that takes up a removal does not send it to the server that it removes.
pub proof fn nobody_outside_the_configuration_is_sent_to<S: StateMachine>(
    m: NodeModel<S>,
    event: NodeEvent<S::State>,
    now: u64,
)
    requires
        m.settled(),
        m.effects.len() == 0,
        m.admits(event, now),
    ensures
        reaches_peers(m.step(event, now)),
{
    assert(reaches_peers(m));
    match event {
        NodeEvent::Propose { command, ticket } => {
            if m.refusal(command, now) is None {
                let taken = m.accept(command, ticket);
                let entry = LogEntry {
                    term: m.term(),
                    index: (m.files.last_index() + 1) as u64,
                    command,
                };
                append_keeps(m, seq![entry]);
                assert(taken.inv());
                assert(reaches_peers(taken));
                advance_reaches(taken, now);
                maybe_advance_commit_keeps(taken, now);
                broadcast_reaches(taken.maybe_advance_commit(now));
            }
        },
        NodeEvent::Read { ticket } => {
            if let RoleModel::Leader(leader) = m.role {
                let asked = m.register_read(leader, ticket);
                assert(reaches_peers(asked));
                broadcast_reaches(asked);
                resolve_reads_reaches(asked.broadcast());
            }
        },
        NodeEvent::Request(request) => {
            let after = m.on_request(request, now).0;
            assert(sends_nothing(m.effects));
            assert(sends_nothing(after.effects)) by {
                match request {
                    RequestModel::RequestVote(args) => {
                        follower_reaches(m, args.term, None, now);
                    },
                    RequestModel::AppendEntries(args) => {
                        append_entries_sends_nothing(m, args, now);
                    },
                    RequestModel::PreVote(_) => {},
                    RequestModel::InstallSnapshot(args) => {
                        install_sends_nothing(m, args, now);
                    },
                    RequestModel::SnapshotChunk(args) => {
                        let transfer = args.transfer;
                        follower_reaches(m, transfer.term, Some(transfer.leader_id), now);
                    },
                }
            }
        },
        NodeEvent::Reply { from, tag, result } => {
            reply_reaches(m, from, tag, result, now);
        },
        NodeEvent::Timer => {
            tick_reaches(m, now);
            timeout_reaches(m, now);
        },
    }
}

/// A removed server hears no more of the leader: once a configuration without
/// `id` is in effect, no event makes the node send to `id` as long as it stays
/// in effect.
pub proof fn a_removed_server_is_not_sent_to<S: StateMachine>(
    m: NodeModel<S>,
    event: NodeEvent<S::State>,
    now: u64,
    id: NodeId,
)
    requires
        m.settled(),
        m.effects.len() == 0,
        m.admits(event, now),
        !m.step(event, now).members().contains(id),
    ensures
        forall|i: int|
            #![trigger m.step(event, now).effects[i]]
            0 <= i < m.step(event, now).effects.len() ==> match m.step(event, now).effects[i] {
                EffectModel::Send { to, .. } => to != id,
                _ => true,
            },
{
    nobody_outside_the_configuration_is_sent_to(m, event, now);
    let after = m.step(event, now);
    assert forall|i: int| #![trigger after.effects[i]] 0 <= i < after.effects.len() implies match after.effects[i] {
        EffectModel::Send { to, .. } => to != id,
        _ => true,
    } by {
        assert(reaches_peer(after, after.effects[i]));
    }
}

} // verus!
