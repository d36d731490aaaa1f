//! The rules of the protocol, one by one, as they show in a single node.

use std::sync::Arc;

use vstd::prelude::*;

use super::chunks::{completes, reached};
use super::machine::StateMachine;
use super::membership::{config_of, last_config, single_change, Membership};
use super::model::{
    EffectModel, LeaderModel, NodeModel, PendingProposal, PendingRead, ProposeError, RoleModel,
};
use super::quorum::quorum_exists;
use super::rpc::{AppendModel, ChunkModel, InstallModel, RequestModel, RequestVoteArgs, RequestVoteReply};
use super::safety::{same_log, terms_advance};
use super::storage::WriteModel;
use super::types::{Command, HardState, LogEntry, LogIndex, NodeId, Term};
use super::upkeep::{
    commit_to_settles, filter_keeps, first_new_exists, first_new_fits, merge_keeps,
    on_append_entries_keeps,
};

verus! {

// ---- votes ----

/// A pre-vote probe changes nothing, whatever it is answered.
pub proof fn pre_votes_change_nothing<S: StateMachine>(
    m: NodeModel<S>,
    args: RequestVoteArgs,
    now: u64,
)
    ensures
        m.on_request(RequestModel::PreVote(args), now).0 == m,
{
}

/// Leader stickiness: a leader, and whoever heard from one within the
/// shortest election timeout, denies every pre-vote.
pub proof fn a_live_leader_denies_pre_votes<S: StateMachine>(
    m: NodeModel<S>,
    args: RequestVoteArgs,
    now: u64,
)
    requires
        m.leader_is_live(now),
    ensures
        !m.pre_vote_reply(args, now).vote_granted,
{
}

/// A granted vote is durable and deserved: the node's hard state then names
/// the candidate at the candidate's term, the write that says so is the last
/// one queued, and the candidate's log is at least as up-to-date as the
/// node's.
pub proof fn a_granted_vote_is_recorded<S: StateMachine>(
    m: NodeModel<S>,
    args: RequestVoteArgs,
    now: u64,
)
    requires
        m.on_request_vote(args, now).1.vote_granted,
    ensures
        ({
            let after = m.on_request_vote(args, now).0;
            let vote = HardState { current_term: args.term, voted_for: Some(args.candidate_id) };
            &&& after.files.hard_state == vote
            &&& after.writes.last() == WriteModel::<S::State>::HardState(vote)
            &&& m.up_to_date(args)
            &&& args.term >= m.term()
        }),
{
}

/// One vote per term: two candidates that were granted the vote of one node
/// in one term are the same, however much happened in between.
pub proof fn one_vote_per_term<S: StateMachine>(
    m: NodeModel<S>,
    first: RequestVoteArgs,
    first_now: u64,
    later: NodeModel<S>,
    second: RequestVoteArgs,
    second_now: u64,
)
    requires
        m.on_request_vote(first, first_now).1.vote_granted,
        terms_advance(m.on_request_vote(first, first_now).0, later),
        later.on_request_vote(second, second_now).1.vote_granted,
        second.term == first.term,
    ensures
        second.candidate_id == first.candidate_id,
{
}

/// The candidate that got a vote is granted it again when it repeats its
/// request, and every other candidate of that term is refused, for as long as
/// the voter is in that term with the log it had.
pub proof fn a_vote_is_granted_again_to_the_same_candidate_only<S: StateMachine>(
    m: NodeModel<S>,
    args: RequestVoteArgs,
    now: u64,
    later: NodeModel<S>,
    again: RequestVoteArgs,
    then_now: u64,
)
    requires
        m.on_request_vote(args, now).1.vote_granted,
        later.files.hard_state == m.on_request_vote(args, now).0.files.hard_state,
        later.files.log == m.files.log,
        later.files.snapshot == m.files.snapshot,
        again.term == args.term,
    ensures
        again == args ==> later.on_request_vote(again, then_now).1 == (RequestVoteReply {
            term: args.term,
            vote_granted: true,
        }),
        again.candidate_id != args.candidate_id ==> later.on_request_vote(again, then_now).1 == (
        RequestVoteReply { term: args.term, vote_granted: false }),
{
}

/// A pre-campaign persists nothing and moves no term.
pub proof fn a_pre_campaign_leaves_no_trace<S: StateMachine>(m: NodeModel<S>, now: u64)
    ensures
        m.pre_campaign(now).files == m.files,
        m.pre_campaign(now).writes == m.writes,
        m.pre_campaign(now).term() == m.term(),
{
}

/// Leadership takes a majority of votes.
pub proof fn a_leader_won_a_majority<S: StateMachine>(m: NodeModel<S>, now: u64)
    requires
        !m.is_leader(),
        m.maybe_become_leader(now) != m,
    ensures
        m.role is Candidate,
        m.majority_of(|id: NodeId| m.role->Candidate_votes.contains(id)),
{
}

/// CheckQuorum: a leader out of touch with the majority steps down at its own
/// term, without a vote or a term being written.
pub proof fn a_cut_off_leader_steps_down<S: StateMachine>(
    m: NodeModel<S>,
    leader: LeaderModel,
    now: u64,
)
    requires
        m.role == RoleModel::Leader(leader),
        !m.hears_majority(leader, now),
    ensures
        m.on_heartbeat_tick(now).role == RoleModel::Follower,
        m.on_heartbeat_tick(now).term() == m.term(),
        m.on_heartbeat_tick(now).files == m.files,
        m.on_heartbeat_tick(now).writes == m.writes,
{
}

// ---- replication ----

/// A message of a deposed leader changes nothing, and is answered with the
/// newer term.
pub proof fn stale_leaders_are_refused<S: StateMachine>(
    m: NodeModel<S>,
    append: AppendModel,
    install: InstallModel<S::State>,
    now: u64,
)
    requires
        append.term < m.term(),
        install.term < m.term(),
    ensures
        m.on_append_entries(append, now).0 == m,
        m.on_append_entries(append, now).1.term == m.term(),
        !m.on_append_entries(append, now).1.success,
        m.on_install_snapshot(install, now).0 == m,
        m.on_install_snapshot(install, now).1.term == m.term(),
{
}

proof fn lemma_merge_holds<S: StateMachine>(m: NodeModel<S>, args: AppendModel)
    requires
        m.inv(),
        !m.is_leader(),
        args.well_shaped(),
        m.prev_matches(args),
        m.takes(args),
    ensures
        m.merge(args).has_all(args.entries),
        m.merge(args).prev_matches(args),
{
    let merged = m.merge(args);
    merge_keeps(m, args);
    if !m.has_all(args.entries) {
        first_new_exists(m, args.entries);
        let i = m.first_new(args.entries);
        first_new_fits(m, args, i);
        assert(m.offset(args) == i);
        let roomy = m.make_room(args.entries[i]);
        assert(roomy.files.last_index() == args.entries[i].index - 1);
        assert(merged.files.log == roomy.files.log + args.entries.skip(i));
        assert forall|j: int| #![trigger args.entries[j]] 0 <= j < args.entries.len() implies merged.has_entry(
            args.entries[j],
        ) by {
            let index = args.entries[j].index as int;
            if j < i {
                assert(m.has_entry(args.entries[j]));
                if index > m.files.snapshot_index() {
                    assert(m.files.holds(index));
                    assert(roomy.files.entry_at(index) == m.files.entry_at(index));
                    assert(merged.files.entry_at(index) == roomy.files.entry_at(index));
                }
            } else {
                assert(merged.files.entry_at(index) == args.entries.skip(i)[j - i]);
            }
        }
        let prev = args.prev_log_index as int;
        if prev > m.files.snapshot_index() {
            assert(m.files.holds(prev));
            assert(roomy.files.entry_at(prev) == m.files.entry_at(prev));
            assert(merged.files.entry_at(prev) == roomy.files.entry_at(prev));
        }
    }
}

proof fn lemma_commit_to_holds<S: StateMachine>(m: NodeModel<S>, index: LogIndex, entry: LogEntry)
    requires
        m.inv(),
        m.commit_index <= index <= m.files.last_index(),
        m.has_entry(entry),
    ensures
        m.commit_to(index).has_entry(entry),
{
    commit_to_settles(m, index);
    super::safety::commit_keeps_the_log(m, index);
    let after = m.commit_to(index);
    let at = entry.index as int;
    if at > after.files.snapshot_index() {
        assert(after.files.entry_at(at) == m.files.entry_at(at));
    }
}

/// Log matching: a follower that accepts an AppendEntries whose batch is
/// numbered from right behind the entry that matched holds the whole batch
/// afterwards (or has compacted it, being committed), each entry with
/// the leader's term.
pub proof fn an_accepted_batch_is_held<S: StateMachine>(
    m: NodeModel<S>,
    args: AppendModel,
    now: u64,
)
    requires
        m.settled(),
        m.admits_append(args),
        args.well_shaped(),
        m.on_append_entries(args, now).1.success,
    ensures
        m.on_append_entries(args, now).0.has_all(args.entries),
{
    on_append_entries_keeps(m, args, now);
    let heard = m.hear_leader(args.term, args.leader_id, now);
    lemma_merge_holds(heard, args);
    let merged = heard.merge(args);
    let commit = NodeModel::<S>::verified_commit(args);
    if commit > merged.commit_index {
        let after = merged.commit_to(commit);
        assert forall|j: int| #![trigger args.entries[j]] 0 <= j < args.entries.len() implies after.has_entry(
            args.entries[j],
        ) by {
            assert(merged.has_entry(args.entries[j]));
            lemma_commit_to_holds(merged, commit, args.entries[j]);
        }
    }
}

/// A batch that is held already leaves the log alone.
pub proof fn a_duplicate_batch_changes_no_entry<S: StateMachine>(
    m: NodeModel<S>,
    args: AppendModel,
)
    requires
        m.has_all(args.entries),
    ensures
        m.merge(args) == m,
{
}

/// A snapshot whose boundary is already committed here only counts as
/// contact: log, state and commit point stay.
pub proof fn a_duplicate_snapshot_is_harmless<S: StateMachine>(
    m: NodeModel<S>,
    args: InstallModel<S::State>,
    now: u64,
)
    requires
        args.snapshot.last_included_index <= m.commit_index,
    ensures
        same_log(m, m.on_install_snapshot(args, now).0),
        m.on_install_snapshot(args, now).0.state == m.state,
        m.on_install_snapshot(args, now).0.pending == m.pending,
{
}

/// A piece of a snapshot installs nothing: the log, the commit point, the state
/// and the waiting proposals stay; the whole is let out exactly when the last
/// missing piece has come in.
pub proof fn a_chunk_installs_nothing<S: StateMachine>(m: NodeModel<S>, args: ChunkModel, now: u64)
    ensures
        same_log(m, m.on_snapshot_chunk(args, now).0),
        m.on_snapshot_chunk(args, now).0.state == m.state,
        m.on_snapshot_chunk(args, now).0.pending == m.pending,
        args.transfer.term >= m.term() ==> {
            let effects = m.on_snapshot_chunk(args, now).0.effects;
            completes(m.incoming, args) <==> effects.len() == m.effects.len()
                + m.dropped_reads().len() + 1 && effects.last() == (EffectModel::<
                S::State,
            >::Assembled { transfer: args.transfer, bytes: reached(m.incoming, args) })
        },
{
}

/// A new commit point is earned: the entry there is of the leader's own term,
/// and at least a majority of the members holds the log through it.
pub proof fn a_commit_has_a_majority<S: StateMachine>(
    m: NodeModel<S>,
    leader: LeaderModel,
    now: u64,
)
    requires
        m.inv(),
        m.role == RoleModel::Leader(leader),
        m.maybe_advance_commit(now).commit_index != m.commit_index,
    ensures
        ({
            let commit = m.maybe_advance_commit(now).commit_index;
            &&& commit > m.commit_index
            &&& m.files.term_at(commit as int) == Some(m.term())
            &&& super::quorum::reaching(m.replicated(leader), commit) >= m.majority()
        }),
{
    let index = m.quorum_index(leader);
    if m.members().len() > 0 {
        quorum_exists(m.replicated(leader), m.majority());
        if index > m.commit_index && m.files.term_at(index as int) == Some(m.term()) {
            commit_to_settles(m, index);
            let after = m.commit_to(index);
            assert(after.retire(now).commit_index == index);
        }
    }
}

// ---- proposals and reads ----

/// Verdicts are true: a proposal told "committed" is in the log at a
/// committed index, one told "lost" is not in the log any more, and one that
/// waits on is undecided.
pub proof fn verdicts_are_true<S: StateMachine>(m: NodeModel<S>, p: PendingProposal)
    requires
        m.inv(),
        m.pending.contains(p),
    ensures
        m.decided(p) && m.verdict(p) == (EffectModel::<S::State>::Resolve {
            ticket: p.ticket,
            committed: true,
        }) ==> {
            &&& p.index <= m.commit_index
            &&& m.files.holds(p.index as int)
            &&& m.files.entry_at(p.index as int).term == p.term
        },
        m.decided(p) && m.verdict(p) == (EffectModel::<S::State>::Resolve {
            ticket: p.ticket,
            committed: false,
        }) ==> !(m.files.holds(p.index as int) && m.files.entry_at(p.index as int).term == p.term),
{
    let i = choose|i: int| 0 <= i < m.pending.len() && m.pending[i] == p;
    assert(m.pending[i].index > m.last_applied);
}

/// Losing leadership gives up every pending read, keeps every pending
/// proposal, and touches neither the log nor the state.
pub proof fn stepping_down_drops_reads_and_keeps_proposals<S: StateMachine>(
    m: NodeModel<S>,
    leader: LeaderModel,
    term: Term,
    leader_id: Option<NodeId>,
    now: u64,
)
    requires
        m.role == RoleModel::Leader(leader),
    ensures
        ({
            let after = m.become_follower(term, leader_id, now);
            &&& after.effects == m.effects + leader.pending_reads.map_values(
                |read: PendingRead| EffectModel::<S::State>::DropRead { ticket: read.ticket },
            )
            &&& after.pending == m.pending
            &&& same_log(m, after)
            &&& after.state == m.state
        }),
{
}

/// A read waits for the right state: it is registered at or above the commit
/// point and this term's no-op, and is confirmed only by acknowledgements of
/// messages sent after it was registered.
pub proof fn a_read_reflects_what_was_committed<S: StateMachine>(
    m: NodeModel<S>,
    leader: LeaderModel,
    ticket: u64,
)
    requires
        m.role == RoleModel::Leader(leader),
        leader.heartbeat_seq < u64::MAX,
    ensures
        ({
            let read = m.register_read(leader, ticket).role->Leader_0.pending_reads.last();
            &&& read.ticket == ticket
            &&& read.read_index >= m.commit_index
            &&& read.read_index >= leader.term_start_index
            &&& read.needed_seq > leader.heartbeat_seq
        }),
{
}

/// Reads are granted only when a majority confirmed the leadership and the
/// state reflects everything the read must see.
pub proof fn granted_reads_are_confirmed<S: StateMachine>(
    m: NodeModel<S>,
    leader: LeaderModel,
    k: int,
)
    requires
        m.role == RoleModel::Leader(leader),
        m.effects.len() <= k < m.resolve_reads().effects.len(),
    ensures
        exists|read: PendingRead|
            leader.pending_reads.contains(read) && #[trigger] m.servable(leader.acked_seq, read)
                && m.resolve_reads().effects[k] == (EffectModel::<S::State>::GrantRead {
                ticket: read.ticket,
            }),
{
    let test = |read: PendingRead| m.servable(leader.acked_seq, read);
    filter_keeps(leader.pending_reads, test);
    let granted = leader.pending_reads.filter(test);
    let read = granted[k - m.effects.len()];
    assert(test(read));
    assert(m.servable(leader.acked_seq, read));
}

/// Non-leaders take neither writes nor reads, name the leader they know of,
/// and change nothing.
pub proof fn non_leaders_refuse<S: StateMachine>(
    m: NodeModel<S>,
    command: Command,
    ticket: u64,
    now: u64,
)
    requires
        !m.is_leader(),
    ensures
        m.on_propose(command, ticket, now) == (
            m,
            Err::<super::model::Proposal, ProposeError>(
                ProposeError::NotLeader { leader_hint: m.leader_id },
            ),
        ),
        m.on_read(ticket) == (
            m,
            Err::<(), ProposeError>(ProposeError::NotLeader { leader_hint: m.leader_id }),
        ),
{
}

// ---- membership ----

/// Without a configuration in the log or in the snapshot, the one the node
/// was started with holds.
pub proof fn membership_is_fixed_until_changed<S: StateMachine>(m: NodeModel<S>)
    requires
        forall|i: int|
            #![trigger m.files.log[i]]
            0 <= i < m.files.log.len() ==> config_of(m.files.log[i]) is None,
        match m.files.snapshot {
            Some(snapshot) => snapshot.membership is None,
            None => true,
        },
    ensures
        m.membership() == m.settings.bootstrap,
{
    assert(m.files.log.take(m.files.log.len() as int) =~= m.files.log);
    lemma_no_config(m.files.log);
}

proof fn lemma_no_config(log: Seq<LogEntry>)
    requires
        forall|i: int| #![trigger log[i]] 0 <= i < log.len() ==> config_of(log[i]) is None,
    ensures
        last_config(log) is None,
    decreases log.len(),
{
    if log.len() > 0 {
        let init = log.drop_last();
        assert forall|i: int| #![trigger init[i]] 0 <= i < init.len() implies config_of(init[i]) is None by {
            assert(init[i] == log[i]);
        }
        lemma_no_config(init);
        assert(log.last() == log[log.len() - 1]);
    }
}

/// A configuration is in effect from the moment it is appended.
pub proof fn a_configuration_counts_once_appended<S: StateMachine>(
    m: NodeModel<S>,
    members: Arc<Membership>,
    ticket: u64,
)
    ensures
        m.accept(Command::ConfigChange { members }, ticket).membership() == members,
{
    let after = m.accept(Command::ConfigChange { members }, ticket);
    assert(after.files.log.take(after.files.log.len() as int) =~= after.files.log);
    assert(config_of(after.files.log.last()) == Some(members));
}

/// Configuration changes are single-server and one at a time: an accepted one
/// finds this term's no-op committed and no other change waiting, differs from
/// the configuration in effect by exactly one member, leaves somebody, and
/// keeps a majority within reach.
pub proof fn accepted_changes_are_safe<S: StateMachine>(
    m: NodeModel<S>,
    members: Arc<Membership>,
    ticket: u64,
    now: u64,
)
    requires
        m.on_propose(Command::ConfigChange { members }, ticket, now).1 is Ok,
    ensures
        m.is_leader(),
        m.commit_index >= m.role->Leader_0.term_start_index,
        !m.change_in_flight(),
        members.ids().len() > 0,
        single_change(m.membership().addrs(), members.addrs()),
        members.ids().filter(|id: NodeId| m.heard(m.role->Leader_0, now, id)).len()
            >= members.ids().len() / 2 + 1,
{
}

/// A refused change leaves no trace.
pub proof fn refused_writes_leave_no_trace<S: StateMachine>(
    m: NodeModel<S>,
    command: Command,
    ticket: u64,
    now: u64,
)
    requires
        m.on_propose(command, ticket, now).1 is Err,
    ensures
        m.on_propose(command, ticket, now).0 == m,
{
}

/// A node outside the configuration never campaigns: a timeout only re-arms
/// its timer.
pub proof fn outsiders_never_campaign<S: StateMachine>(m: NodeModel<S>, now: u64)
    requires
        !m.is_member(),
    ensures
        m.on_election_timeout(now).role == m.role,
        m.on_election_timeout(now).files == m.files,
        m.on_election_timeout(now).effects == m.effects,
        m.on_election_timeout(now).writes == m.writes,
{
}

/// A leader that the committed configuration leaves out does not lead on.
pub proof fn a_removed_leader_retires<S: StateMachine>(m: NodeModel<S>, now: u64)
    requires
        !m.is_member(),
        !m.change_in_flight(),
    ensures
        !m.retire(now).is_leader(),
        m.retire(now).term() == m.term(),
{
}

// ---- the state machine ----

/// Replicas agree: nodes that start their retained logs from the same state
/// and have applied the same entries are in the same state.
pub proof fn same_entries_same_state<S: StateMachine>(a: NodeModel<S>, b: NodeModel<S>)
    requires
        a.inv(),
        b.inv(),
        a.base() == b.base(),
        a.files.log.take(a.last_applied - a.files.snapshot_index()) == b.files.log.take(
            b.last_applied - b.files.snapshot_index(),
        ),
    ensures
        a.state == b.state,
{
}

/// A restart loses nothing that was applied: a node that boots from another
/// node's files and commits as far is in the same state.
pub proof fn a_restart_replays_to_the_same_state<S: StateMachine>(
    m: NodeModel<S>,
    seed: u64,
    now: u64,
)
    requires
        m.settled(),
    ensures
        ({
            let fresh = NodeModel::<S>::booted(
                m.settings,
                seed,
                m.files,
                Seq::empty(),
                m.origin,
                now,
            );
            &&& fresh.settled()
            &&& (NodeModel { commit_index: m.commit_index, ..fresh }).apply_backlog().state
                == m.state
        }),
{
    let fresh = NodeModel::<S>::booted(m.settings, seed, m.files, Seq::empty(), m.origin, now);
    assert(fresh.files.log.take(0) =~= Seq::empty());
    let caught_up = NodeModel { commit_index: m.commit_index, ..fresh };
    assert(caught_up.backlog() =~= m.files.log.take(m.last_applied - m.files.snapshot_index()));
}

// ---- compaction ----

/// A node after several batches of entries were committed and applied, each up
/// to the given index.
pub open spec fn after_batches<S: StateMachine>(m: NodeModel<S>, commits: Seq<LogIndex>) -> NodeModel<S>
    decreases commits.len(),
{
    if commits.len() == 0 {
        m
    } else {
        after_batches(m, commits.drop_last()).commit_to(commits.last())
    }
}

/// The snapshot boundary lies the trailing window behind what is applied, or
/// there is none.
pub open spec fn trails<S: StateMachine>(m: NodeModel<S>) -> bool {
    m.files.snapshot_index() == 0 || m.last_applied - m.files.snapshot_index()
        >= m.settings.snapshot_trailing
}

/// The boundary stays the trailing window behind: whatever number of batches is
/// committed and applied, the snapshot boundary is 0 or at least the trailing
/// window of applied entries behind.
pub proof fn the_boundary_trails<S: StateMachine>(m: NodeModel<S>, commits: Seq<LogIndex>)
    requires
        m.inv(),
        trails(m),
        forall|i: int|
            #![trigger commits[i]]
            0 <= i < commits.len() ==> m.commit_index <= commits[i] <= m.files.last_index(),
        forall|i: int, j: int| 0 <= i <= j < commits.len() ==> commits[i] <= commits[j],
    ensures
        trails(after_batches(m, commits)),
        after_batches(m, commits).inv(),
        after_batches(m, commits).files.last_index() == m.files.last_index(),
        after_batches(m, commits).settings == m.settings,
        commits.len() > 0 ==> after_batches(m, commits).last_applied == commits.last(),
        commits.len() > 0 ==> after_batches(m, commits).commit_index == commits.last(),
    decreases commits.len(),
{
    if commits.len() > 0 {
        let init = commits.drop_last();
        assert forall|i: int| #![trigger init[i]] 0 <= i < init.len() implies m.commit_index
            <= init[i] <= m.files.last_index() by {
            assert(init[i] == commits[i]);
        }
        the_boundary_trails(m, init);
        let before = after_batches(m, init);
        let index = commits.last();
        assert(index == commits[commits.len() - 1]);
        if init.len() > 0 {
            assert(init.last() == commits[commits.len() - 2]);
        } else {
            assert(before == m);
        }
        commit_to_settles(before, index);
        let applied = NodeModel { commit_index: index, ..before };
        let ready = applied.apply_backlog().resolve_pending().resolve_reads();
        assert(ready.files == before.files);
        let caught = ready.maybe_capture();
        assert(caught.files == before.files);
        assert(before.commit_to(index) == caught.compact_captured());
    }
}

} // verus!
