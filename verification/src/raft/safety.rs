//! What holds of a node across events: terms and votes, the committed prefix,
//! the disk, and the tags of its RPCs only ever move forward.

use vstd::prelude::*;

use super::durability::compaction_keeps_the_answers;
use super::machine::StateMachine;
use super::model::{LeaderModel, NodeEvent, NodeModel, ReplyTag, RoleModel};
use super::rpc::{AppendModel, RequestModel, RpcResponse};

use super::transport::TransportError;
use super::types::{Command, LogEntry, LogIndex, NodeId, Term};
use super::upkeep::{
    apply_committed_settles, become_follower_keeps, become_leader_keeps, candidacy_keeps,
    commit_to_settles, maybe_compact_keeps, merge_keeps, on_append_entries_keeps,
    on_election_timeout_keeps, on_heartbeat_tick_keeps, on_install_snapshot_keeps,
    on_propose_keeps, on_read_keeps, on_reply_keeps, on_snapshot_chunk_keeps, with_leader_keeps,
};

verus! {

// ---- the invariant ----

/// Every event that can happen keeps the node settled: the log is whole,
/// everything committed is applied, and the state machine's state is exactly
/// what replaying the log up to `last_applied` gives.
pub proof fn every_event_keeps_the_node_settled<S: StateMachine>(
    m: NodeModel<S>,
    event: NodeEvent<S::State>,
    now: u64,
)
    requires
        m.settled(),
        m.admits(event, now),
    ensures
        m.step(event, now).settled(),
{
    match event {
        NodeEvent::Propose { command, ticket } => on_propose_keeps(m, command, ticket, now),
        NodeEvent::Read { ticket } => on_read_keeps(m, ticket),
        NodeEvent::Request(request) => match request {
            RequestModel::RequestVote(args) => {
                become_follower_keeps(m, args.term, None, now);
            },
            RequestModel::AppendEntries(args) => on_append_entries_keeps(m, args, now),
            RequestModel::PreVote(_) => {},
            RequestModel::InstallSnapshot(args) => on_install_snapshot_keeps(m, args, now),
            RequestModel::SnapshotChunk(args) => on_snapshot_chunk_keeps(m, args, now),
        },
        NodeEvent::Reply { from, tag, result } => on_reply_keeps(m, from, tag, result, now),
        NodeEvent::Timer => {
            if m.is_leader() {
                on_heartbeat_tick_keeps(m, now);
            } else {
                on_election_timeout_keeps(m, now);
            }
        },
    }
}

// ---- terms and votes ----

/// Terms only rise, and a vote cast in a term stands for the rest of it.
pub open spec fn terms_advance<S: StateMachine>(m: NodeModel<S>, n: NodeModel<S>) -> bool {
    &&& n.settings == m.settings
    &&& n.origin == m.origin
    &&& n.term() >= m.term()
    &&& n.term() == m.term() && m.files.hard_state.voted_for is Some
        ==> n.files.hard_state.voted_for == m.files.hard_state.voted_for
}

/// A term and a vote that did not move.
pub open spec fn same_ballot<S: StateMachine>(m: NodeModel<S>, n: NodeModel<S>) -> bool {
    &&& n.settings == m.settings
    &&& n.origin == m.origin
    &&& n.files.hard_state == m.files.hard_state
}

proof fn lemma_commit_to_ballot<S: StateMachine>(m: NodeModel<S>, index: LogIndex)
    ensures
        same_ballot(m, m.commit_to(index)),
{
    let a = NodeModel { commit_index: index, ..m }.apply_backlog().resolve_pending();
    let b = a.resolve_reads();
    assert(same_ballot(m, a));
    assert(same_ballot(a, b));
    assert(same_ballot(b, b.maybe_capture()));
    assert(same_ballot(b.maybe_capture(), b.maybe_compact()));
}

proof fn lemma_become_follower_terms<S: StateMachine>(
    m: NodeModel<S>,
    term: Term,
    leader_id: Option<NodeId>,
    now: u64,
)
    ensures
        terms_advance(m, m.become_follower(term, leader_id, now)),
        term >= m.term() ==> m.become_follower(term, leader_id, now).term() == term,
{
}

proof fn lemma_advance_commit_terms<S: StateMachine>(m: NodeModel<S>, now: u64)
    ensures
        same_ballot(m, m.maybe_advance_commit(now)),
{
    if let RoleModel::Leader(leader) = m.role {
        let index = m.quorum_index(leader);
        let after = m.commit_to(index);
        lemma_commit_to_ballot(m, index);
        assert(same_ballot(after, after.retire(now)));
    }
}

proof fn lemma_append_entries_terms<S: StateMachine>(m: NodeModel<S>, args: AppendModel, now: u64)
    ensures
        terms_advance(m, m.on_append_entries(args, now).0),
{
    if args.term >= m.term() {
        let heard = m.hear_leader(args.term, args.leader_id, now);
        lemma_become_follower_terms(m, args.term, Some(args.leader_id), now);
        assert(terms_advance(m, heard));
        let merged = heard.merge(args);
        if !heard.has_all(args.entries) {
            let i = heard.first_new(args.entries);
            let roomy = heard.make_room(args.entries[i]);
            assert(same_ballot(heard, roomy));
            assert(same_ballot(roomy, merged));
        }
        assert(same_ballot(heard, merged));
        lemma_commit_to_ballot(merged, NodeModel::<S>::verified_commit(args));
    }
}

proof fn lemma_become_leader_terms<S: StateMachine>(m: NodeModel<S>, now: u64)
    ensures
        terms_advance(m, m.become_leader(now)),
{
    let bare = NodeModel {
        role: RoleModel::Leader(m.fresh_leader(now)),
        leader_id: Some(m.settings.id),
        ..m
    }.append(seq![m.noop()]);
    assert(same_ballot(m, bare));
    lemma_advance_commit_terms(bare, now);
    let advanced = bare.maybe_advance_commit(now);
    assert(terms_advance(advanced, advanced.on_heartbeat_tick(now)));
}

proof fn lemma_start_election_terms<S: StateMachine>(m: NodeModel<S>, now: u64)
    requires
        m.term() < u64::MAX,
    ensures
        terms_advance(m, m.start_election(now)),
{
    assert(m.candidacy(now).term() == m.term() + 1);
    lemma_become_leader_terms(m.candidacy(now), now);
}

proof fn lemma_reply_terms<S: StateMachine>(
    m: NodeModel<S>,
    from: NodeId,
    tag: ReplyTag,
    result: Result<RpcResponse, TransportError>,
    now: u64,
)
    requires
        m.term() < u64::MAX,
    ensures
        terms_advance(m, m.on_reply(from, tag, result, now)),
{
    match (tag, result) {
        (ReplyTag::PreVote { .. }, Ok(RpcResponse::PreVote(reply))) => {
            if let RoleModel::PreCandidate { votes } = m.role {
                lemma_start_election_terms(
                    NodeModel {
                        role: RoleModel::PreCandidate { votes: votes.insert(from) },
                        ..m
                    },
                    now,
                );
            }
        },
        (ReplyTag::Vote { .. }, Ok(RpcResponse::RequestVote(reply))) => {
            if let RoleModel::Candidate { votes } = m.role {
                lemma_become_leader_terms(
                    NodeModel {
                        role: RoleModel::Candidate { votes: votes.insert(from) },
                        ..m
                    },
                    now,
                );
            }
        },
        (
            ReplyTag::Append { sent_prev_index, sent_entries, sent_seq, .. },
            Ok(RpcResponse::AppendEntries(reply)),
        ) => {
            if let RoleModel::Leader(leader) = m.role {
                let heard = NodeModel::<S>::acknowledge(leader, from, sent_seq, now);
                let confirmed = (sent_prev_index + sent_entries) as u64;
                lemma_accepted_terms(m, heard, from, confirmed, now);
                assert(same_ballot(m, m.on_append_rejected(heard, from, sent_prev_index)));
                let a = m.on_append_accepted(heard, from, confirmed, now);
                assert(same_ballot(a, a.resolve_reads()));
                let b = m.on_append_rejected(heard, from, sent_prev_index);
                assert(same_ballot(b, b.resolve_reads()));
            }
        },
        (
            ReplyTag::InstallSnapshot { last_included_index, .. },
            Ok(RpcResponse::InstallSnapshot(reply)),
        ) => {
            if let RoleModel::Leader(leader) = m.role {
                lemma_installed_terms(m, leader, from, last_included_index, now);
            }
        },
        (ReplyTag::SnapshotChunk { .. }, Ok(RpcResponse::SnapshotChunk(reply))) => {
            assert(same_ballot(m, m.on_chunk_answered(from, now)));
        },
        _ => {},
    }
}

proof fn lemma_accepted_terms<S: StateMachine>(
    m: NodeModel<S>,
    leader: LeaderModel,
    from: NodeId,
    confirmed: u64,
    now: u64,
)
    ensures
        same_ballot(m, m.on_append_accepted(leader, from, confirmed, now)),
{
    let matched = super::model::lookup(leader.match_index, from, 0);
    let up = m.with_leader(
        LeaderModel {
            match_index: leader.match_index.insert(from, confirmed),
            next_index: leader.next_index.insert(from, (confirmed + 1) as u64),
            ..leader
        },
    );
    let same = m.with_leader(
        LeaderModel { match_index: leader.match_index.insert(from, matched), ..leader },
    );
    lemma_advance_commit_terms(up, now);
    lemma_advance_commit_terms(same, now);
    let moved = up.maybe_advance_commit(now);
    assert(same_ballot(moved, moved.send_append(from)));
}

proof fn lemma_installed_terms<S: StateMachine>(
    m: NodeModel<S>,
    leader: LeaderModel,
    from: NodeId,
    boundary: LogIndex,
    now: u64,
)
    ensures
        same_ballot(m, m.on_snapshot_installed(leader, from, boundary, now)),
{
    let up = m.with_leader(
        LeaderModel {
            last_contact: leader.last_contact.insert(from, now),
            match_index: leader.match_index.insert(
                from,
                super::model::larger(
                    super::model::lookup(leader.match_index, from, 0),
                    boundary,
                ),
            ),
            next_index: leader.next_index.insert(
                from,
                super::model::larger(
                    super::model::lookup(leader.next_index, from, 1),
                    (boundary + 1) as u64,
                ),
            ),
            ..leader
        },
    );
    lemma_advance_commit_terms(up, now);
    let moved = up.maybe_advance_commit(now);
    assert(same_ballot(moved, moved.send_append(from)));
}

/// Terms never move backwards, and a node votes at most once per term: over
/// any event the term only rises, and as long as it stays, a vote once cast
/// stands.
pub proof fn terms_rise_and_votes_stand<S: StateMachine>(
    m: NodeModel<S>,
    event: NodeEvent<S::State>,
    now: u64,
)
    requires
        m.settled(),
        m.admits(event, now),
    ensures
        terms_advance(m, m.step(event, now)),
{
    match event {
        NodeEvent::Propose { command, ticket } => {
            if m.refusal(command, now) is None {
                let accepted = m.accept(command, ticket);
                assert(same_ballot(m, accepted));
                lemma_advance_commit_terms(accepted, now);
                let advanced = accepted.maybe_advance_commit(now);
                assert(same_ballot(advanced, advanced.broadcast()));
            }
        },
        NodeEvent::Read { ticket } => {},
        NodeEvent::Request(request) => match request {
            RequestModel::RequestVote(args) => {
                lemma_become_follower_terms(m, args.term, None, now);
            },
            RequestModel::AppendEntries(args) => lemma_append_entries_terms(m, args, now),
            RequestModel::PreVote(_) => {},
            RequestModel::InstallSnapshot(args) => {
                lemma_become_follower_terms(m, args.term, Some(args.leader_id), now);
            },
            RequestModel::SnapshotChunk(args) => {
                let transfer = args.transfer;
                lemma_become_follower_terms(m, transfer.term, Some(transfer.leader_id), now);
            },
        },
        NodeEvent::Reply { from, tag, result } => lemma_reply_terms(m, from, tag, result, now),
        NodeEvent::Timer => {
            if !m.is_leader() {
                lemma_start_election_terms(m.pre_campaign(now), now);
            }
        },
    }
}

// ---- the log ----

/// Nothing committed is lost or changed: it is still there, or compacted.
pub open spec fn committed_stays<S: StateMachine>(m: NodeModel<S>, n: NodeModel<S>) -> bool {
    &&& n.commit_index >= m.commit_index
    &&& n.files.snapshot_index() >= m.files.snapshot_index()
    &&& forall|i: int|
        #![trigger n.files.entry_at(i)]
        n.files.snapshot_index() < i <= m.commit_index ==> {
            &&& n.files.holds(i)
            &&& n.files.entry_at(i) == m.files.entry_at(i)
        }
}

/// No entry is dropped or changed: each is still there, or compacted.
pub open spec fn log_grows<S: StateMachine>(m: NodeModel<S>, n: NodeModel<S>) -> bool {
    &&& n.commit_index >= m.commit_index
    &&& n.files.snapshot_index() >= m.files.snapshot_index()
    &&& n.files.last_index() >= m.files.last_index()
    &&& forall|i: int|
        #![trigger n.files.entry_at(i)]
        n.files.snapshot_index() < i <= m.files.last_index() ==> {
            &&& n.files.holds(i)
            &&& n.files.entry_at(i) == m.files.entry_at(i)
        }
}

/// A log, a boundary and a commit point that did not move.
pub open spec fn same_log<S: StateMachine>(m: NodeModel<S>, n: NodeModel<S>) -> bool {
    &&& n.commit_index == m.commit_index
    &&& n.files.snapshot == m.files.snapshot
    &&& n.files.log == m.files.log
}

proof fn lemma_log_grows_twice<S: StateMachine>(a: NodeModel<S>, b: NodeModel<S>, c: NodeModel<S>)
    requires
        log_grows(a, b),
        log_grows(b, c),
    ensures
        log_grows(a, c),
{
    assert forall|i: int|
        #![trigger c.files.entry_at(i)]
        c.files.snapshot_index() < i <= a.files.last_index() implies {
        &&& c.files.holds(i)
        &&& c.files.entry_at(i) == a.files.entry_at(i)
    } by {
        assert(b.files.entry_at(i) == a.files.entry_at(i));
    }
}

/// Committing and compacting drop no entry.
pub proof fn commit_keeps_the_log<S: StateMachine>(m: NodeModel<S>, index: LogIndex)
    requires
        m.inv(),
        m.commit_index <= index <= m.files.last_index(),
    ensures
        log_grows(m, m.commit_to(index)),
{
    commit_to_settles(m, index);
    let committed = NodeModel { commit_index: index, ..m };
    apply_committed_settles(committed);
    let told = committed.apply_backlog().resolve_pending().resolve_reads();
    assert(same_log(committed, told));
    maybe_compact_keeps(told);
    let captured = told.maybe_capture();
    assert(same_log(told, captured));
    if let Some(capture) = captured.captured {
        if captured.last_applied - capture.index >= captured.settings.snapshot_trailing {
            assert(captured.files.holds(capture.index as int));
            compaction_keeps_the_answers(captured.files, capture.index, capture.state);
        }
    }
}

proof fn lemma_advance_commit_log<S: StateMachine>(m: NodeModel<S>, now: u64)
    requires
        m.inv(),
    ensures
        log_grows(m, m.maybe_advance_commit(now)),
{
    if let RoleModel::Leader(leader) = m.role {
        let index = m.quorum_index(leader);
        if m.members().len() > 0 && index > m.commit_index && m.files.term_at(index as int) == Some(
            m.term(),
        ) {
            commit_keeps_the_log(m, index);
            let after = m.commit_to(index);
            assert(same_log(after, after.retire(now)));
        }
    }
}

proof fn lemma_append_log<S: StateMachine>(m: NodeModel<S>, entries: Seq<LogEntry>)
    ensures
        log_grows(m, m.append(entries)),
{
}

proof fn lemma_become_leader_log<S: StateMachine>(m: NodeModel<S>, now: u64)
    requires
        m.settled(),
        m.files.last_index() + 1 <= u64::MAX,
    ensures
        log_grows(m, m.become_leader(now)),
{
    become_leader_keeps(m, now);
    let bare = NodeModel {
        role: RoleModel::Leader(m.fresh_leader(now)),
        leader_id: Some(m.settings.id),
        ..m
    };
    let appended = bare.append(seq![m.noop()]);
    lemma_append_log(bare, seq![m.noop()]);
    lemma_advance_commit_log(appended, now);
    let advanced = appended.maybe_advance_commit(now);
    lemma_log_grows_twice(bare, appended, advanced);
    assert(same_log(advanced, advanced.on_heartbeat_tick(now)));
    assert(same_log(m, bare));
}

proof fn lemma_start_election_log<S: StateMachine>(m: NodeModel<S>, now: u64)
    requires
        m.settled(),
        m.files.last_index() + 1 <= u64::MAX,
    ensures
        log_grows(m, m.start_election(now)),
{
    candidacy_keeps(m, now);
    assert(same_log(m, m.candidacy(now)));
    lemma_become_leader_log(m.candidacy(now), now);
}

proof fn lemma_with_leader_log<S: StateMachine>(
    m: NodeModel<S>,
    leader: LeaderModel,
    from: NodeId,
    now: u64,
)
    requires
        m.settled(),
        leader.within_log(m.files.last_index()),
    ensures
        log_grows(m, m.with_leader(leader).maybe_advance_commit(now)),
        log_grows(m, m.with_leader(leader).maybe_advance_commit(now).send_append(from)),
{
    with_leader_keeps(m, leader);
    lemma_advance_commit_log(m.with_leader(leader), now);
    let moved = m.with_leader(leader).maybe_advance_commit(now);
    assert(same_log(m, m.with_leader(leader)));
    assert(same_log(moved, moved.send_append(from)));
}

proof fn lemma_reply_log<S: StateMachine>(
    m: NodeModel<S>,
    from: NodeId,
    tag: ReplyTag,
    result: Result<RpcResponse, TransportError>,
    now: u64,
)
    requires
        m.settled(),
        m.issued(tag),
        m.files.last_index() + 1 <= u64::MAX,
    ensures
        log_grows(m, m.on_reply(from, tag, result, now)),
{
    match (tag, result) {
        (ReplyTag::PreVote { .. }, Ok(RpcResponse::PreVote(reply))) => {
            if let RoleModel::PreCandidate { votes } = m.role {
                let more = NodeModel {
                    role: RoleModel::PreCandidate { votes: votes.insert(from) },
                    ..m
                };
                lemma_start_election_log(more, now);
                assert(same_log(m, more));
            }
        },
        (ReplyTag::Vote { .. }, Ok(RpcResponse::RequestVote(reply))) => {
            if let RoleModel::Candidate { votes } = m.role {
                let more = NodeModel {
                    role: RoleModel::Candidate { votes: votes.insert(from) },
                    ..m
                };
                lemma_become_leader_log(more, now);
                assert(same_log(m, more));
            }
        },
        (
            ReplyTag::Append { sent_term, sent_prev_index, sent_entries, sent_seq },
            Ok(RpcResponse::AppendEntries(reply)),
        ) => {
            if let RoleModel::Leader(leader) = m.role {
                if reply.term <= m.term() && sent_term == m.term() {
                    let heard = NodeModel::<S>::acknowledge(leader, from, sent_seq, now);
                    let confirmed = (sent_prev_index + sent_entries) as u64;
                    if reply.success {
                        let moved = moved_forward(heard, from, confirmed);
                        lemma_with_leader_log(m, moved, from, now);
                        let after = m.on_append_accepted(heard, from, confirmed, now);
                        assert(log_grows(m, after));
                        assert(same_log(after, after.resolve_reads()));
                    } else {
                        let after = m.on_append_rejected(heard, from, sent_prev_index);
                        assert(same_log(m, after));
                        assert(same_log(after, after.resolve_reads()));
                    }
                }
            }
        },
        (
            ReplyTag::InstallSnapshot { sent_term, last_included_index },
            Ok(RpcResponse::InstallSnapshot(reply)),
        ) => {
            if let RoleModel::Leader(leader) = m.role {
                if reply.term <= m.term() && sent_term == m.term() {
                    let moved = moved_by_snapshot(leader, from, last_included_index, now);
                    lemma_with_leader_log(m, moved, from, now);
                    assert(log_grows(
                        m,
                        m.on_snapshot_installed(leader, from, last_included_index, now),
                    ));
                }
            }
        },
        (ReplyTag::SnapshotChunk { .. }, Ok(RpcResponse::SnapshotChunk(reply))) => {
            assert(same_log(m, m.on_chunk_answered(from, now)));
        },
        _ => {},
    }
}

/// A leader's bookkeeping after a peer confirmed it matches through
/// `confirmed`.
pub open spec fn moved_forward(leader: LeaderModel, from: NodeId, confirmed: u64) -> LeaderModel {
    let matched = super::model::lookup(leader.match_index, from, 0);
    if confirmed > matched {
        LeaderModel {
            match_index: leader.match_index.insert(from, confirmed),
            next_index: leader.next_index.insert(from, (confirmed + 1) as u64),
            ..leader
        }
    } else {
        LeaderModel { match_index: leader.match_index.insert(from, matched), ..leader }
    }
}

/// A leader's bookkeeping after a peer took a snapshot.
pub open spec fn moved_by_snapshot(
    leader: LeaderModel,
    from: NodeId,
    boundary: LogIndex,
    now: u64,
) -> LeaderModel {
    LeaderModel {
        last_contact: leader.last_contact.insert(from, now),
        match_index: leader.match_index.insert(
            from,
            super::model::larger(super::model::lookup(leader.match_index, from, 0), boundary),
        ),
        next_index: leader.next_index.insert(
            from,
            super::model::larger(
                super::model::lookup(leader.next_index, from, 1),
                (boundary + 1) as u64,
            ),
        ),
        ..leader
    }
}

proof fn lemma_merge_log<S: StateMachine>(m: NodeModel<S>, args: AppendModel)
    requires
        m.inv(),
        !m.is_leader(),
        m.takes(args),
    ensures
        committed_stays(m, m.merge(args)),
{
    merge_keeps(m, args);
    if !m.has_all(args.entries) {
        let i = m.first_new(args.entries);
        let roomy = m.make_room(args.entries[i]);
        assert(committed_stays(m, roomy));
        let merged = m.merge(args);
        assert forall|k: int|
            #![trigger merged.files.entry_at(k)]
            merged.files.snapshot_index() < k <= m.commit_index implies {
            &&& merged.files.holds(k)
            &&& merged.files.entry_at(k) == m.files.entry_at(k)
        } by {
            assert(roomy.files.entry_at(k) == m.files.entry_at(k));
        }
    }
}

proof fn lemma_append_entries_log<S: StateMachine>(m: NodeModel<S>, args: AppendModel, now: u64)
    requires
        m.settled(),
        m.admits_append(args),
    ensures
        committed_stays(m, m.on_append_entries(args, now).0),
{
    on_append_entries_keeps(m, args, now);
    if args.term >= m.term() {
        let heard = m.hear_leader(args.term, args.leader_id, now);
        assert(same_log(m, heard));
        if heard.prev_matches(args) {
            let merged = heard.merge(args);
            lemma_merge_log(heard, args);
            let commit = NodeModel::<S>::verified_commit(args);
            if commit > merged.commit_index {
                commit_keeps_the_log(merged, commit);
                let after = merged.commit_to(commit);
                assert forall|k: int|
                    #![trigger after.files.entry_at(k)]
                    after.files.snapshot_index() < k <= m.commit_index implies {
                    &&& after.files.holds(k)
                    &&& after.files.entry_at(k) == m.files.entry_at(k)
                } by {
                    assert(merged.files.entry_at(k) == heard.files.entry_at(k));
                }
            }
        }
    }
}

/// What is committed is final: over any event the commit point only rises,
/// and every committed entry stays what it was, in the log or inside the
/// snapshot.
pub proof fn committed_entries_are_final<S: StateMachine>(
    m: NodeModel<S>,
    event: NodeEvent<S::State>,
    now: u64,
)
    requires
        m.settled(),
        m.admits(event, now),
    ensures
        committed_stays(m, m.step(event, now)),
{
    match event {
        NodeEvent::Propose { command, ticket } => lemma_propose_log(m, command, ticket, now),
        NodeEvent::Read { ticket } => {
            assert(same_log(m, m.on_read(ticket).0));
        },
        NodeEvent::Request(request) => match request {
            RequestModel::RequestVote(args) => {
                assert(same_log(m, m.on_request_vote(args, now).0));
            },
            RequestModel::AppendEntries(args) => lemma_append_entries_log(m, args, now),
            RequestModel::PreVote(_) => {},
            RequestModel::InstallSnapshot(args) => {
                let heard = m.hear_leader(args.term, args.leader_id, now);
                assert(same_log(m, heard));
            },
            RequestModel::SnapshotChunk(args) => {
                assert(same_log(m, m.on_snapshot_chunk(args, now).0));
            },
        },
        NodeEvent::Reply { from, tag, result } => lemma_reply_log(m, from, tag, result, now),
        NodeEvent::Timer => lemma_timer_log(m, now),
    }
}

proof fn lemma_propose_log<S: StateMachine>(
    m: NodeModel<S>,
    command: Command,
    ticket: u64,
    now: u64,
)
    requires
        m.settled(),
        m.files.last_index() + 1 <= u64::MAX,
    ensures
        log_grows(m, m.on_propose(command, ticket, now).0),
{
    if m.refusal(command, now) is None {
        on_propose_keeps(m, command, ticket, now);
        let accepted = m.accept(command, ticket);
        assert(log_grows(m, accepted));
        lemma_advance_commit_log(accepted, now);
        let advanced = accepted.maybe_advance_commit(now);
        lemma_log_grows_twice(m, accepted, advanced);
        assert(same_log(advanced, advanced.broadcast()));
    }
}

proof fn lemma_timer_log<S: StateMachine>(m: NodeModel<S>, now: u64)
    requires
        m.settled(),
        m.files.last_index() + 1 <= u64::MAX,
    ensures
        log_grows(m, m.on_timer(now)),
{
    if m.is_leader() {
        assert(same_log(m, m.on_heartbeat_tick(now)));
    } else if m.is_member() {
        on_election_timeout_keeps(m, now);
        assert(same_log(m, m.pre_campaign(now)));
        lemma_start_election_log(m.pre_campaign(now), now);
    }
}

/// A leader never drops or changes an entry of its own log: after any event
/// that leaves the node leading, every entry is still there, or compacted.
pub proof fn a_leader_only_appends<S: StateMachine>(
    m: NodeModel<S>,
    event: NodeEvent<S::State>,
    now: u64,
)
    requires
        m.settled(),
        m.admits(event, now),
        m.step(event, now).is_leader(),
    ensures
        log_grows(m, m.step(event, now)),
{
    match event {
        NodeEvent::Propose { command, ticket } => lemma_propose_log(m, command, ticket, now),
        NodeEvent::Read { ticket } => {
            assert(same_log(m, m.on_read(ticket).0));
        },
        NodeEvent::Request(request) => match request {
            RequestModel::RequestVote(args) => {
                assert(same_log(m, m.on_request_vote(args, now).0));
            },
            RequestModel::AppendEntries(args) => {
                if args.term >= m.term() {
                    lemma_append_entries_role(m, args, now);
                }
            },
            RequestModel::PreVote(_) => {},
            RequestModel::InstallSnapshot(args) => {},
            RequestModel::SnapshotChunk(args) => {
                assert(same_log(m, m.on_snapshot_chunk(args, now).0));
            },
        },
        NodeEvent::Reply { from, tag, result } => lemma_reply_log(m, from, tag, result, now),
        NodeEvent::Timer => lemma_timer_log(m, now),
    }
}

proof fn lemma_commit_to_role<S: StateMachine>(m: NodeModel<S>, index: LogIndex)
    ensures
        !m.is_leader() ==> m.commit_to(index).role == m.role,
{
    let a = NodeModel { commit_index: index, ..m }.apply_backlog().resolve_pending();
    let b = a.resolve_reads();
    assert(!m.is_leader() ==> b.role == m.role);
    assert(b.maybe_capture().role == b.role);
    assert(b.maybe_compact().role == b.role);
}

proof fn lemma_append_entries_role<S: StateMachine>(m: NodeModel<S>, args: AppendModel, now: u64)
    requires
        args.term >= m.term(),
    ensures
        m.on_append_entries(args, now).0.role == RoleModel::Follower,
{
    let heard = m.hear_leader(args.term, args.leader_id, now);
    let merged = heard.merge(args);
    assert(merged.role == RoleModel::Follower) by {
        if !heard.has_all(args.entries) {
            let i = heard.first_new(args.entries);
            let roomy = heard.make_room(args.entries[i]);
            assert(roomy.role == RoleModel::Follower);
        }
    }
    lemma_commit_to_role(merged, NodeModel::<S>::verified_commit(args));
}

} // verus!
