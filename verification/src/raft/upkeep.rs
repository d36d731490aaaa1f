//! The node's invariant: every transition keeps it.

use vstd::prelude::*;

use super::machine::{run, run_in_parts, StateMachine};
use super::model::{
    larger, lookup, smaller, LeaderModel, NodeModel, PendingProposal, ReplyTag, RoleModel,
};
use super::rpc::{AppendModel, ChunkModel, InstallModel, RpcResponse};
use super::storage::numbered_from;
use super::transport::TransportError;
use super::types::{Command, LogEntry, LogIndex, NodeId, Term};

verus! {

/// What a filter keeps comes from the sequence and passes the test.
pub proof fn filter_keeps<A>(s: Seq<A>, p: spec_fn(A) -> bool)
    ensures
        forall|i: int|
            #![trigger s.filter(p)[i]]
            0 <= i < s.filter(p).len() ==> p(s.filter(p)[i]) && s.contains(s.filter(p)[i]),
    decreases s.len(),
{
    reveal(Seq::filter);
    if s.len() > 0 {
        let init = s.drop_last();
        filter_keeps(init, p);
        assert forall|i: int|
            #![trigger s.filter(p)[i]]
            0 <= i < s.filter(p).len() implies p(s.filter(p)[i]) && s.contains(s.filter(p)[i]) by {
            if i < init.filter(p).len() {
                let kept = init.filter(p)[i];
                assert(s.filter(p)[i] == kept);
                let j = choose|j: int| 0 <= j < init.len() && init[j] == kept;
                assert(s[j] == kept);
            } else {
                assert(s.filter(p)[i] == s.last());
                assert(s[s.len() - 1] == s.last());
            }
        }
    }
}

/// Settling waiters leaves only proposals above the commit point.
pub proof fn resolve_pending_keeps<S: StateMachine>(m: NodeModel<S>)
    ensures
        forall|i: int|
            #![trigger m.resolve_pending().pending[i]]
            0 <= i < m.resolve_pending().pending.len() ==> {
                &&& m.resolve_pending().pending[i].index > m.commit_index
                &&& m.pending.contains(m.resolve_pending().pending[i])
            },
        m.inv() ==> m.resolve_pending().inv(),
{
    filter_keeps(m.pending, |p: PendingProposal| !m.decided(p));
}

/// Granting reads changes nothing that the invariant speaks of.
pub proof fn resolve_reads_keeps<S: StateMachine>(m: NodeModel<S>)
    requires
        m.inv(),
    ensures
        m.resolve_reads().inv(),
        m.resolve_reads().files == m.files,
        m.resolve_reads().commit_index == m.commit_index,
        m.resolve_reads().last_applied == m.last_applied,
{
}

/// Compaction keeps the state machine a replay of the log.
pub proof fn compact_captured_keeps<S: StateMachine>(m: NodeModel<S>)
    requires
        m.inv(),
    ensures
        m.compact_captured().inv(),
        m.compact_captured().files.last_index() == m.files.last_index(),
        m.compact_captured().files.membership() == m.files.membership(),
        m.compact_captured().files.hard_state == m.files.hard_state,
        m.compact_captured().commit_index == m.commit_index,
        m.compact_captured().last_applied == m.last_applied,
{
    if let Some(capture) = m.captured {
        if m.last_applied - capture.index >= m.settings.snapshot_trailing {
            let after = m.compact_captured();
            let log = m.files.log;
            let cut = capture.index - m.files.snapshot_index();
            let applied = m.last_applied - m.files.snapshot_index();
            assert(m.files.holds(capture.index as int));
            super::durability::compaction_keeps_the_answers(m.files, capture.index, capture.state);
            assert(after.files.log =~= log.skip(cut));
            run_in_parts::<S>(m.base(), log.take(cut), log.subrange(cut, applied));
            assert(log.take(cut) + log.subrange(cut, applied) =~= log.take(applied));
            assert(after.files.log.take(applied - cut) =~= log.subrange(cut, applied));
        }
    }
}

/// Capturing and compacting keep the state machine a replay of the log.
pub proof fn maybe_compact_keeps<S: StateMachine>(m: NodeModel<S>)
    requires
        m.inv(),
    ensures
        m.maybe_capture().inv(),
        m.maybe_compact().inv(),
        m.maybe_compact().files.last_index() == m.files.last_index(),
        m.maybe_compact().files.membership() == m.files.membership(),
        m.maybe_compact().files.hard_state == m.files.hard_state,
        m.maybe_compact().commit_index == m.commit_index,
        m.maybe_compact().last_applied == m.last_applied,
{
    compact_captured_keeps(m.maybe_capture());
}

/// Applying the backlog brings the state to the commit point.
pub proof fn apply_backlog_keeps<S: StateMachine>(m: NodeModel<S>)
    requires
        m.inv(),
    ensures
        m.apply_backlog().state == run::<S>(
            m.base(),
            m.files.log.take(m.commit_index - m.files.snapshot_index()),
        ),
{
    let applied = m.last_applied - m.files.snapshot_index();
    let committed = m.commit_index - m.files.snapshot_index();
    run_in_parts::<S>(m.base(), m.files.log.take(applied), m.backlog());
    assert(m.files.log.take(applied) + m.backlog() =~= m.files.log.take(committed));
}

/// After applying, the node is settled.
pub proof fn apply_committed_settles<S: StateMachine>(m: NodeModel<S>)
    requires
        m.inv(),
    ensures
        m.apply_committed().settled(),
        m.apply_committed().commit_index == m.commit_index,
        m.apply_committed().files.last_index() == m.files.last_index(),
        m.apply_backlog().resolve_pending().inv(),
        m.apply_backlog().resolve_pending().resolve_reads().inv(),
{
    apply_backlog_keeps(m);
    let applied = m.apply_backlog();
    resolve_pending_keeps(applied);
    let told = applied.resolve_pending();
    assert(told.inv());
    resolve_reads_keeps(told);
    maybe_compact_keeps(told.resolve_reads());
}

/// Committing further, within the log, keeps the node settled.
pub proof fn commit_to_settles<S: StateMachine>(m: NodeModel<S>, index: LogIndex)
    requires
        m.inv(),
        m.commit_index <= index <= m.files.last_index(),
    ensures
        m.commit_to(index).settled(),
        m.commit_to(index).commit_index == index,
        m.commit_to(index).files.last_index() == m.files.last_index(),
        (NodeModel { commit_index: index, ..m }).inv(),
{
    apply_committed_settles(NodeModel { commit_index: index, ..m });
}

/// Advancing the commit point keeps the node settled.
pub proof fn maybe_advance_commit_keeps<S: StateMachine>(m: NodeModel<S>, now: u64)
    requires
        m.inv(),
    ensures
        m.maybe_advance_commit(now).inv(),
        m.settled() ==> m.maybe_advance_commit(now).settled(),
        m.maybe_advance_commit(now).files.last_index() == m.files.last_index(),
        m.maybe_advance_commit(now).term() == m.term(),
        m.maybe_advance_commit(now).commit_index >= m.commit_index,
{
    if let RoleModel::Leader(leader) = m.role {
        let index = m.quorum_index(leader);
        if m.members().len() > 0 && index > m.commit_index && m.files.term_at(index as int) == Some(
            m.term(),
        ) {
            commit_to_settles(m, index);
        }
    }
}

/// The peers are the other members.
pub proof fn peers_are_members<S: StateMachine>(m: NodeModel<S>, i: int)
    requires
        0 <= i < m.peers().len(),
    ensures
        m.is_peer(m.peers()[i]),
{
    filter_keeps(m.members(), |id: NodeId| id != m.settings.id);
}

/// An appended run that continues the log keeps the invariant.
pub proof fn append_keeps<S: StateMachine>(m: NodeModel<S>, entries: Seq<LogEntry>)
    requires
        m.inv(),
        numbered_from(entries, m.files.last_index() + 1),
        m.files.last_index() + entries.len() <= u64::MAX,
    ensures
        m.append(entries).inv(),
        m.append(entries).files.last_index() == m.files.last_index() + entries.len(),
        m.append(entries).files.wf(),
{
    let after = m.append(entries);
    if entries.len() > 0 {
        let log = after.files.log;
        assert forall|k: int| #![trigger log[k]] 0 <= k < log.len() implies log[k].index
            == after.files.snapshot_index() + 1 + k by {
            if k < m.files.log.len() {
                assert(log[k] == m.files.log[k]);
            } else {
                assert(log[k] == entries[k - m.files.log.len()]);
            }
        }
        let applied = m.last_applied - m.files.snapshot_index();
        assert(log.take(applied) =~= m.files.log.take(applied));
        if let Some(capture) = m.captured {
            let cut = capture.index - m.files.snapshot_index();
            assert(log.take(cut) =~= m.files.log.take(cut));
        }
    }
}

/// Dropping an uncommitted suffix keeps the invariant of a non-leader.
pub proof fn truncate_keeps<S: StateMachine>(m: NodeModel<S>, index: int)
    requires
        m.inv(),
        !m.is_leader(),
        m.files.holds(index),
        index > m.commit_index,
    ensures
        m.truncate(index).inv(),
        m.truncate(index).files.last_index() == index - 1,
        m.truncate(index).resolve_pending().inv(),
{
    let after = m.truncate(index);
    let applied = m.last_applied - m.files.snapshot_index();
    assert(after.files.log.take(applied) =~= m.files.log.take(applied));
    if let Some(capture) = m.captured {
        let cut = capture.index - m.files.snapshot_index();
        assert(after.files.log.take(cut) =~= m.files.log.take(cut));
    }
    resolve_pending_keeps(after);
}

/// The first entry of a batch that is not here, if there is one.
pub proof fn first_new_exists<S: StateMachine>(m: NodeModel<S>, entries: Seq<LogEntry>)
    requires
        !m.has_all(entries),
    ensures
        m.is_first_new(entries, m.first_new(entries)),
{
    let some = choose|i: int|
        #![trigger entries[i]]
        0 <= i < entries.len() && !m.has_entry(entries[i]);
    let least = least_missing(m, entries, some);
    assert(m.is_first_new(entries, least));
}

proof fn least_missing<S: StateMachine>(m: NodeModel<S>, entries: Seq<LogEntry>, i: int) -> (least:
    int)
    requires
        0 <= i < entries.len(),
        !m.has_entry(entries[i]),
    ensures
        m.is_first_new(entries, least),
    decreases i,
{
    if forall|j: int| #![trigger entries[j]] 0 <= j < i ==> m.has_entry(entries[j]) {
        i
    } else {
        let j = choose|j: int| #![trigger entries[j]] 0 <= j < i && !m.has_entry(entries[j]);
        least_missing(m, entries, j)
    }
}

/// There is one first new entry.
pub proof fn first_new_unique<S: StateMachine>(m: NodeModel<S>, entries: Seq<LogEntry>, i: int)
    requires
        m.is_first_new(entries, i),
    ensures
        m.first_new(entries) == i,
        !m.has_all(entries),
{
    let other = m.first_new(entries);
    assert(m.is_first_new(entries, other));
    if other < i {
        assert(m.has_entry(entries[other]));
    } else if i < other {
        assert(m.has_entry(entries[i]));
    }
}

/// Behind a matching predecessor, the first new entry of a batch either
/// replaces a retained entry or continues the log.
pub proof fn first_new_fits<S: StateMachine>(m: NodeModel<S>, args: AppendModel, i: int)
    requires
        m.files.wf(),
        args.well_shaped(),
        m.prev_matches(args),
        m.is_first_new(args.entries, i),
    ensures
        args.entries[i].index == args.prev_log_index + 1 + i,
        m.files.snapshot_index() < args.entries[i].index <= m.files.last_index() + 1,
        numbered_from(args.entries.skip(i), args.entries[i].index as int),
{
    if i > 0 {
        assert(m.has_entry(args.entries[i - 1]));
    }
    assert forall|k: int| 0 <= k < args.entries.skip(i).len() implies (#[trigger] args.entries.skip(
        i,
    )[k]).index == args.entries[i].index + k by {
        assert(args.entries.skip(i)[k] == args.entries[i + k]);
    }
}

/// A batch numbered from right behind a matching predecessor, which spares
/// what is committed, can be taken over, and the follower then holds the log
/// through the batch.
pub proof fn shaped_batch_fits<S: StateMachine>(m: NodeModel<S>, args: AppendModel)
    requires
        m.inv(),
        !m.is_leader(),
        args.well_shaped(),
        args.prev_log_index + args.entries.len() < u64::MAX,
        m.prev_matches(args),
        m.spares_committed(args.entries),
    ensures
        m.takes(args),
        m.commits_held(args),
        !m.has_all(args.entries) ==> m.offset(args) == m.first_new(args.entries),
        m.merge(args).files.last_index() >= args.prev_log_index + args.entries.len()
            || args.prev_log_index + args.entries.len() <= m.files.snapshot_index(),
{
    let entries = args.entries;
    if m.has_all(entries) {
        if entries.len() > 0 {
            assert(m.has_entry(entries[entries.len() - 1]));
        }
    } else {
        first_new_exists(m, entries);
        let i = m.first_new(entries);
        first_new_fits(m, args, i);
        if m.files.holds(entries[i].index as int) {
            truncate_keeps(m, entries[i].index as int);
        }
        append_keeps(m.make_room(entries[i]), entries.skip(i));
    }
}

/// Taking over a batch keeps the invariant of a follower.
pub proof fn merge_keeps<S: StateMachine>(m: NodeModel<S>, args: AppendModel)
    requires
        m.inv(),
        !m.is_leader(),
        m.takes(args),
    ensures
        m.merge(args).inv(),
        m.merge(args).commit_index == m.commit_index,
        m.merge(args).last_applied == m.last_applied,
        m.merge(args).files.snapshot == m.files.snapshot,
        m.merge(args).files.hard_state == m.files.hard_state,
        m.merge(args).role == m.role,
{
    let entries = args.entries;
    if !m.has_all(entries) {
        let entry = entries[m.first_new(entries)];
        if m.files.holds(entry.index as int) {
            truncate_keeps(m, entry.index as int);
        }
        append_keeps(m.make_room(entry), entries.skip(m.offset(args)));
    }
}

/// Whether a batch can be taken over is a matter of the log and the commit
/// point alone.
pub proof fn takes_by_the_log<S: StateMachine>(
    m: NodeModel<S>,
    heard: NodeModel<S>,
    args: AppendModel,
)
    requires
        heard.files.log == m.files.log,
        heard.files.snapshot == m.files.snapshot,
        heard.commit_index == m.commit_index,
    ensures
        heard.takes(args) == m.takes(args),
        heard.commits_held(args) == m.commits_held(args),
{
    assert forall|entry: LogEntry| m.has_entry(entry) == #[trigger] heard.has_entry(entry) by {
    }
    assert(m.has_all(args.entries) == heard.has_all(args.entries));
    if !m.has_all(args.entries) {
        first_new_exists(m, args.entries);
        let i = m.first_new(args.entries);
        assert(heard.is_first_new(args.entries, i));
        first_new_unique(heard, args.entries, i);
    }
}

/// An AppendEntries that can be taken keeps the node settled.
pub proof fn on_append_entries_keeps<S: StateMachine>(m: NodeModel<S>, args: AppendModel, now: u64)
    requires
        m.settled(),
        m.admits_append(args),
    ensures
        m.on_append_entries(args, now).0.settled(),
        args.term >= m.term() ==> {
            let heard = m.hear_leader(args.term, args.leader_id, now);
            &&& heard.inv()
            &&& heard.prev_matches(args) ==> {
                let merged = heard.merge(args);
                &&& heard.takes(args)
                &&& merged.inv()
                &&& NodeModel::<S>::verified_commit(args) > merged.commit_index
                    ==> NodeModel::<S>::verified_commit(args) <= merged.files.last_index()
            }
        },
{
    if args.term >= m.term() {
        let heard = m.hear_leader(args.term, args.leader_id, now);
        assert(heard.files.log == m.files.log && heard.files.snapshot == m.files.snapshot);
        assert(heard.prev_matches(args) == m.prev_matches(args));
        assert(heard.inv());
        if heard.prev_matches(args) {
            takes_by_the_log(m, heard, args);
            merge_keeps(heard, args);
            let merged = heard.merge(args);
            let commit = NodeModel::<S>::verified_commit(args);
            if commit > merged.commit_index {
                commit_to_settles(merged, commit);
            }
        }
    }
}

/// Installing a snapshot keeps the node settled.
pub proof fn on_install_snapshot_keeps<S: StateMachine>(
    m: NodeModel<S>,
    args: InstallModel<S::State>,
    now: u64,
)
    requires
        m.settled(),
    ensures
        m.on_install_snapshot(args, now).0.settled(),
{
    if args.term >= m.term() {
        let heard = m.hear_leader(args.term, args.leader_id, now);
        let boundary = args.snapshot.last_included_index;
        assert(heard.inv());
        if boundary > heard.commit_index {
            let files = heard.files.installed(args.snapshot);
            assert(files.wf()) by {
                if heard.files.term_at(boundary as int) == Some(args.snapshot.last_included_term) {
                    let skipped = boundary - heard.files.snapshot_index();
                    assert(files.log =~= heard.files.log.skip(skipped));
                }
            }
            assert(files.log.take(0) =~= Seq::empty());
            let after = m.on_install_snapshot(args, now).0;
            let bare = NodeModel {
                files,
                state: args.snapshot.state,
                commit_index: boundary,
                last_applied: boundary,
                captured: None,
                writes: heard.writes.push(
                    super::storage::WriteModel::Snapshot(args.snapshot),
                ).push(super::storage::WriteModel::RewriteLog(files.log)),
                ..heard
            };
            filter_keeps(bare.pending, |p: PendingProposal| p.index > boundary);
            let hidden = bare.drop_hidden(boundary);
            assert(hidden.inv());
            resolve_pending_keeps(hidden);
            assert(after == hidden.resolve_pending());
        }
    }
}

/// Becoming a follower keeps the node settled.
pub proof fn become_follower_keeps<S: StateMachine>(
    m: NodeModel<S>,
    term: Term,
    leader_id: Option<NodeId>,
    now: u64,
)
    requires
        m.inv(),
    ensures
        m.become_follower(term, leader_id, now).inv(),
        m.settled() ==> m.become_follower(term, leader_id, now).settled(),
{
}

/// A piece of a snapshot keeps the node settled.
pub proof fn on_snapshot_chunk_keeps<S: StateMachine>(m: NodeModel<S>, args: ChunkModel, now: u64)
    requires
        m.settled(),
    ensures
        m.on_snapshot_chunk(args, now).0.settled(),
{
    become_follower_keeps(m, args.transfer.term, Some(args.transfer.leader_id), now);
}

/// A heartbeat tick keeps the node settled.
pub proof fn on_heartbeat_tick_keeps<S: StateMachine>(m: NodeModel<S>, now: u64)
    requires
        m.settled(),
    ensures
        m.on_heartbeat_tick(now).settled(),
{
    become_follower_keeps(m, m.term(), None, now);
}

/// Becoming leader keeps the node settled.
pub proof fn become_leader_keeps<S: StateMachine>(m: NodeModel<S>, now: u64)
    requires
        m.settled(),
        m.files.last_index() + 1 <= u64::MAX,
    ensures
        m.become_leader(now).settled(),
        ({
            let bare = NodeModel {
                role: RoleModel::Leader(m.fresh_leader(now)),
                leader_id: Some(m.settings.id),
                ..m
            };
            &&& bare.inv()
            &&& bare.append(seq![m.noop()]).inv()
            &&& bare.append(seq![m.noop()]).maybe_advance_commit(now).settled()
        }),
{
    let bare = NodeModel {
        role: RoleModel::Leader(m.fresh_leader(now)),
        leader_id: Some(m.settings.id),
        ..m
    };
    append_keeps(bare, seq![m.noop()]);
    let appended = bare.append(seq![m.noop()]);
    maybe_advance_commit_keeps(appended, now);
    on_heartbeat_tick_keeps(appended.maybe_advance_commit(now), now);
}

/// A durable candidacy keeps the node settled.
pub proof fn candidacy_keeps<S: StateMachine>(m: NodeModel<S>, now: u64)
    requires
        m.settled(),
    ensures
        m.candidacy(now).settled(),
        m.candidacy(now).files.last_index() == m.files.last_index(),
{
}

/// Starting an election keeps the node settled.
pub proof fn start_election_keeps<S: StateMachine>(m: NodeModel<S>, now: u64)
    requires
        m.settled(),
        m.files.last_index() + 1 <= u64::MAX,
    ensures
        m.start_election(now).settled(),
{
    candidacy_keeps(m, now);
    become_leader_keeps(m.candidacy(now), now);
}

/// An election timeout keeps the node settled.
pub proof fn on_election_timeout_keeps<S: StateMachine>(m: NodeModel<S>, now: u64)
    requires
        m.settled(),
        m.files.last_index() + 1 <= u64::MAX,
    ensures
        m.on_election_timeout(now).settled(),
        m.pre_campaign(now).settled(),
{
    start_election_keeps(m.pre_campaign(now), now);
}

/// A proposal keeps the node settled.
pub proof fn on_propose_keeps<S: StateMachine>(
    m: NodeModel<S>,
    command: Command,
    ticket: u64,
    now: u64,
)
    requires
        m.settled(),
        m.files.last_index() + 1 <= u64::MAX,
    ensures
        m.on_propose(command, ticket, now).0.settled(),
        m.is_leader() ==> {
            &&& m.accept(command, ticket).settled()
            &&& m.accept(command, ticket).maybe_advance_commit(now).settled()
        },
{
    if m.is_leader() {
        let index = (m.files.last_index() + 1) as u64;
        append_keeps(m, seq![LogEntry { term: m.term(), index, command }]);
        maybe_advance_commit_keeps(m.accept(command, ticket), now);
    }
}

/// A read keeps the node settled.
pub proof fn on_read_keeps<S: StateMachine>(m: NodeModel<S>, ticket: u64)
    requires
        m.settled(),
    ensures
        m.on_read(ticket).0.settled(),
{
    if let RoleModel::Leader(leader) = m.role {
        resolve_reads_keeps(m.register_read(leader, ticket).broadcast());
    }
}

/// One more pre-vote keeps the node settled.
pub proof fn count_pre_vote_keeps<S: StateMachine>(m: NodeModel<S>, from: NodeId, now: u64)
    requires
        m.settled(),
        m.files.last_index() + 1 <= u64::MAX,
    ensures
        m.count_pre_vote(from, now).settled(),
{
    if let RoleModel::PreCandidate { votes } = m.role {
        start_election_keeps(
            NodeModel { role: RoleModel::PreCandidate { votes: votes.insert(from) }, ..m },
            now,
        );
    }
}

/// One more vote keeps the node settled.
pub proof fn count_vote_keeps<S: StateMachine>(m: NodeModel<S>, from: NodeId, now: u64)
    requires
        m.settled(),
        m.files.last_index() + 1 <= u64::MAX,
    ensures
        m.count_vote(from, now).settled(),
{
    if let RoleModel::Candidate { votes } = m.role {
        become_leader_keeps(
            NodeModel { role: RoleModel::Candidate { votes: votes.insert(from) }, ..m },
            now,
        );
    }
}

/// Bookkeeping within the log keeps the node settled.
pub proof fn with_leader_keeps<S: StateMachine>(m: NodeModel<S>, leader: LeaderModel)
    requires
        m.settled(),
        leader.within_log(m.files.last_index()),
    ensures
        m.with_leader(leader).settled(),
{
}

/// An accepted AppendEntries keeps the node settled.
pub proof fn on_append_accepted_keeps<S: StateMachine>(
    m: NodeModel<S>,
    leader: LeaderModel,
    from: NodeId,
    confirmed: u64,
    now: u64,
)
    requires
        m.settled(),
        leader.within_log(m.files.last_index()),
        confirmed <= m.files.last_index(),
        m.files.last_index() + 1 <= u64::MAX,
    ensures
        m.on_append_accepted(leader, from, confirmed, now).settled(),
{
    let matched = lookup(leader.match_index, from, 0);
    let moved = if confirmed > matched {
        LeaderModel {
            match_index: leader.match_index.insert(from, confirmed),
            next_index: leader.next_index.insert(from, (confirmed + 1) as u64),
            ..leader
        }
    } else {
        LeaderModel { match_index: leader.match_index.insert(from, matched), ..leader }
    };
    with_leader_keeps(m, moved);
    maybe_advance_commit_keeps(m.with_leader(moved), now);
}

/// A rejected AppendEntries keeps the node settled.
pub proof fn on_append_rejected_keeps<S: StateMachine>(
    m: NodeModel<S>,
    leader: LeaderModel,
    from: NodeId,
    sent_prev_index: LogIndex,
)
    requires
        m.settled(),
        leader.within_log(m.files.last_index()),
    ensures
        m.on_append_rejected(leader, from, sent_prev_index).settled(),
{
    let moved = LeaderModel {
        next_index: leader.next_index.insert(
            from,
            smaller(lookup(leader.next_index, from, 1), larger(sent_prev_index, 1)),
        ),
        ..leader
    };
    with_leader_keeps(m, moved);
}

/// An answered InstallSnapshot keeps the node settled.
pub proof fn on_snapshot_installed_keeps<S: StateMachine>(
    m: NodeModel<S>,
    leader: LeaderModel,
    from: NodeId,
    boundary: LogIndex,
    now: u64,
)
    requires
        m.settled(),
        leader.within_log(m.files.last_index()),
        boundary <= m.files.last_index(),
        m.files.last_index() + 1 <= u64::MAX,
    ensures
        m.on_snapshot_installed(leader, from, boundary, now).settled(),
{
    let moved = LeaderModel {
        last_contact: leader.last_contact.insert(from, now),
        match_index: leader.match_index.insert(
            from,
            larger(lookup(leader.match_index, from, 0), boundary),
        ),
        next_index: leader.next_index.insert(
            from,
            larger(lookup(leader.next_index, from, 1), (boundary + 1) as u64),
        ),
        ..leader
    };
    with_leader_keeps(m, moved);
    maybe_advance_commit_keeps(m.with_leader(moved), now);
}

/// A reply under a tag that the node handed out keeps the node settled.
pub proof fn on_reply_keeps<S: StateMachine>(
    m: NodeModel<S>,
    from: NodeId,
    tag: ReplyTag,
    result: Result<RpcResponse, TransportError>,
    now: u64,
)
    requires
        m.settled(),
        m.issued(tag),
        m.files.last_index() + 1 <= u64::MAX,
    ensures
        m.on_reply(from, tag, result, now).settled(),
{
    match (tag, result) {
        (ReplyTag::PreVote { sent_term }, Ok(RpcResponse::PreVote(reply))) => {
            become_follower_keeps(m, reply.term, None, now);
            count_pre_vote_keeps(m, from, now);
        },
        (ReplyTag::Vote { sent_term }, Ok(RpcResponse::RequestVote(reply))) => {
            become_follower_keeps(m, reply.term, None, now);
            count_vote_keeps(m, from, now);
        },
        (
            ReplyTag::Append { sent_term, sent_prev_index, sent_entries, sent_seq },
            Ok(RpcResponse::AppendEntries(reply)),
        ) => {
            become_follower_keeps(m, reply.term, None, now);
            if let RoleModel::Leader(leader) = m.role {
                if reply.term <= m.term() && sent_term == m.term() {
                    let heard = NodeModel::<S>::acknowledge(leader, from, sent_seq, now);
                    let confirmed = (sent_prev_index + sent_entries) as u64;
                    if reply.success {
                        on_append_accepted_keeps(m, heard, from, confirmed, now);
                        resolve_reads_keeps(m.on_append_accepted(heard, from, confirmed, now));
                    } else {
                        on_append_rejected_keeps(m, heard, from, sent_prev_index);
                        resolve_reads_keeps(m.on_append_rejected(heard, from, sent_prev_index));
                    }
                }
            }
        },
        (
            ReplyTag::InstallSnapshot { sent_term, last_included_index },
            Ok(RpcResponse::InstallSnapshot(reply)),
        ) => {
            become_follower_keeps(m, reply.term, None, now);
            if let RoleModel::Leader(leader) = m.role {
                if reply.term <= m.term() && sent_term == m.term() {
                    on_snapshot_installed_keeps(m, leader, from, last_included_index, now);
                }
            }
        },
        (ReplyTag::SnapshotChunk { .. }, Ok(RpcResponse::SnapshotChunk(reply))) => {
            become_follower_keeps(m, reply.term, None, now);
            if let RoleModel::Leader(leader) = m.role {
                with_leader_keeps(
                    m,
                    LeaderModel { last_contact: leader.last_contact.insert(from, now), ..leader },
                );
            }
        },
        _ => {},
    }
}

} // verus!
