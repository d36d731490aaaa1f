//! What becomes of what clients and operators ask for: writes are confirmed or
//! told lost, reads are granted, configurations change, the log is compacted.

use std::sync::Arc;

use vstd::prelude::*;

use super::duties::{has_own_entry, leads_in_order, outvotes};
use super::machine::StateMachine;
use super::membership::Membership;
use super::model::{
    lookup, EffectModel, LeaderModel, NodeEvent, NodeModel, PendingProposal, PendingRead,
    ProposeError, ReplyTag, RoleModel,
};
use super::node::RaftConfig;
use super::rpc::{AppendEntriesReply, AppendModel, RequestVoteArgs, RpcResponse};
use super::storage::Durable;
use super::types::{Command, LogEntry, LogIndex, NodeId, Term};
use super::upkeep::{
    commit_to_settles, filter_keeps, maybe_advance_commit_keeps, maybe_compact_keeps,
    resolve_pending_keeps, resolve_reads_keeps,
};

verus! {

/// A filter drops nothing that passes.
proof fn lemma_filter_has<A>(s: Seq<A>, test: spec_fn(A) -> bool, x: A)
    requires
        s.contains(x),
        test(x),
    ensures
        s.filter(test).contains(x),
{
    let i = choose|i: int| 0 <= i < s.len() && s[i] == x;
    s.filter_lemma(test);
    assert(s.filter(test).contains(s[i]));
}

// ---- writes ----

/// Whether the log holds an entry of `term` at `index`.
pub open spec fn has_entry_of<D>(files: Durable<D>, index: LogIndex, term: Term) -> bool {
    exists|i: int|
        #![trigger files.log[i]]
        0 <= i < files.log.len() && files.log[i].index == index && files.log[i].term == term
}

proof fn lemma_told<S: StateMachine>(m: NodeModel<S>, p: PendingProposal)
    requires
        m.files.wf(),
        m.pending.contains(p),
        p.index > m.files.snapshot_index(),
    ensures
        has_entry_of(m.files, p.index, p.term) && p.index <= m.commit_index
            ==> m.resolve_pending().effects.contains(
            EffectModel::Resolve { ticket: p.ticket, committed: true },
        ),
        !has_entry_of(m.files, p.index, p.term) ==> m.resolve_pending().effects.contains(
            EffectModel::Resolve { ticket: p.ticket, committed: false },
        ),
        has_entry_of(m.files, p.index, p.term) && p.index > m.commit_index
            ==> m.resolve_pending().pending.contains(p),
        forall|e: EffectModel<S::State>| #[trigger]
            m.effects.contains(e) ==> m.resolve_pending().effects.contains(e),
{
    super::exchange::files_answer_by_number(m.files, p.index);
    assert(has_entry_of(m.files, p.index, p.term) <==> m.files.term_at(p.index as int) == Some(
        p.term,
    ));
    let after = m.resolve_pending();
    let told = m.pending.filter(|q: PendingProposal| m.decided(q));
    let verdicts = told.map_values(|q: PendingProposal| m.verdict(q));
    if m.decided(p) {
        lemma_filter_has(m.pending, |q: PendingProposal| m.decided(q), p);
        let i = choose|i: int| 0 <= i < told.len() && told[i] == p;
        assert(verdicts[i] == m.verdict(p));
        assert(after.effects[m.effects.len() + i] == m.verdict(p));
    } else {
        lemma_filter_has(m.pending, |q: PendingProposal| !m.decided(q), p);
    }
    assert forall|e: EffectModel<S::State>| #[trigger] m.effects.contains(e) implies after.effects.contains(
        e,
    ) by {
        let i = choose|i: int| 0 <= i < m.effects.len() && m.effects[i] == e;
        assert(after.effects[i] == e);
    }
}

/// Committing settles every waiting write that it reaches, and no other: one
/// that the log holds through the new commit point is told committed, one that
/// the log does not hold any more is told lost, one that lies beyond waits on.
pub proof fn committing_settles_what_it_reaches<S: StateMachine>(
    m: NodeModel<S>,
    index: LogIndex,
    p: PendingProposal,
)
    requires
        m.inv(),
        m.commit_index <= index <= m.files.last_index(),
        m.pending.contains(p),
    ensures
        has_entry_of(m.files, p.index, p.term) && p.index <= index ==> m.commit_to(
            index,
        ).effects.contains(EffectModel::Resolve { ticket: p.ticket, committed: true }),
        !has_entry_of(m.files, p.index, p.term) ==> m.commit_to(index).effects.contains(
            EffectModel::Resolve { ticket: p.ticket, committed: false },
        ),
        has_entry_of(m.files, p.index, p.term) && p.index > index ==> m.commit_to(
            index,
        ).pending.contains(p),
        m.commit_to(index).commit_index == index,
        m.commit_to(index).last_applied == index,
{
    commit_to_settles(m, index);
    let i = choose|i: int| 0 <= i < m.pending.len() && m.pending[i] == p;
    assert(m.pending[i].index > m.last_applied);
    let applied = NodeModel { commit_index: index, ..m }.apply_backlog();
    lemma_told(applied, p);
    let told = applied.resolve_pending();
    lemma_reads_keep_effects(told);
    let served = told.resolve_reads();
    assert(served.maybe_compact().effects == served.effects);
    assert(served.maybe_compact().pending == told.pending);
}

proof fn lemma_reads_keep_effects<S: StateMachine>(m: NodeModel<S>)
    ensures
        forall|e: EffectModel<S::State>| #[trigger]
            m.effects.contains(e) ==> m.resolve_reads().effects.contains(e),
{
    let after = m.resolve_reads();
    assert forall|e: EffectModel<S::State>| #[trigger] m.effects.contains(e) implies after.effects.contains(
        e,
    ) by {
        let i = choose|i: int| 0 <= i < m.effects.len() && m.effects[i] == e;
        assert(after.effects[i] == e);
    }
}

/// The event of an answered AppendEntries.
pub open spec fn answered<D>(
    term: Term,
    from: NodeId,
    prev: LogIndex,
    count: u64,
    seq: u64,
    reply: AppendEntriesReply,
) -> NodeEvent<D> {
    NodeEvent::Reply {
        from,
        tag: ReplyTag::Append {
            sent_term: term,
            sent_prev_index: prev,
            sent_entries: count,
            sent_seq: seq,
        },
        result: Ok(RpcResponse::AppendEntries(reply)),
    }
}

/// The leader's books once an acceptance is in them.
spec fn booked(leader: LeaderModel, from: NodeId, confirmed: u64, seq: u64, now: u64) -> LeaderModel {
    let acked = super::model::larger(lookup(leader.acked_seq, from, 0), seq);
    let known = lookup(leader.match_index, from, 0);
    LeaderModel {
        acked_seq: leader.acked_seq.insert(from, acked),
        last_contact: leader.last_contact.insert(from, now),
        match_index: leader.match_index.insert(from, super::model::larger(known, confirmed)),
        next_index: if confirmed > known {
            leader.next_index.insert(from, (confirmed + 1) as u64)
        } else {
            leader.next_index
        },
        ..leader
    }
}

proof fn lemma_accepted_path<S: StateMachine>(
    m: NodeModel<S>,
    leader: LeaderModel,
    from: NodeId,
    prev: LogIndex,
    count: u64,
    seq: u64,
    reply: AppendEntriesReply,
    now: u64,
)
    requires
        m.settled(),
        m.role == RoleModel::Leader(leader),
        m.room(now),
        prev + count <= m.files.last_index(),
        reply.success,
        reply.term <= m.files.hard_state.current_term,
    ensures
        ({
            let after = m.step(
                answered(m.files.hard_state.current_term, from, prev, count, seq, reply),
                now,
            );
            let held = m.with_leader(booked(leader, from, (prev + count) as u64, seq, now));
            let moved = held.maybe_advance_commit(now);
            &&& held.inv()
            &&& after == moved.resolve_reads() || after == moved.send_append(from).resolve_reads()
        }),
{
    let heard = NodeModel::<S>::acknowledge(leader, from, seq, now);
    let confirmed = (prev + count) as u64;
    let next = if confirmed > lookup(heard.match_index, from, 0) {
        LeaderModel {
            match_index: heard.match_index.insert(from, confirmed),
            next_index: heard.next_index.insert(from, (confirmed + 1) as u64),
            ..heard
        }
    } else {
        LeaderModel {
            match_index: heard.match_index.insert(from, lookup(heard.match_index, from, 0)),
            ..heard
        }
    };
    assert(next =~= booked(leader, from, confirmed, seq, now));
}

/// A write is acknowledged once a majority of the members holds it: the answer
/// that completes the majority makes the leader tell whoever waits for the
/// write that it is committed.
#[verifier::rlimit(30)]
pub proof fn a_write_that_a_majority_holds_is_confirmed<S: StateMachine>(
    m: NodeModel<S>,
    leader: LeaderModel,
    from: NodeId,
    prev: LogIndex,
    count: u64,
    seq: u64,
    reply: AppendEntriesReply,
    now: u64,
    p: PendingProposal,
    some: Set<NodeId>,
)
    requires
        m.settled(),
        m.role == RoleModel::Leader(leader),
        leads_in_order(m, leader),
        m.room(now),
        prev + count <= m.files.last_index(),
        reply.success,
        reply.term <= m.files.hard_state.current_term,
        m.pending.contains(p),
        p.term == m.files.hard_state.current_term,
        has_own_entry(m, p.index),
        outvotes(some, m.members()),
        forall|x: NodeId| #[trigger] some.contains(x) ==> {
            ||| x == m.settings.id
            ||| x == from && prev + count >= p.index
            ||| leader.match_index.contains_key(x) && leader.match_index[x] >= p.index
        },
    ensures
        m.step(
            answered(m.files.hard_state.current_term, from, prev, count, seq, reply),
            now,
        ).effects.contains(EffectModel::Resolve { ticket: p.ticket, committed: true }),
{
    lemma_accepted_path(m, leader, from, prev, count, seq, reply, now);
    lemma_acceptance_tells(
        m,
        leader,
        from,
        (prev + count) as u64,
        seq,
        now,
        p,
        some,
        m.step(answered(m.files.hard_state.current_term, from, prev, count, seq, reply), now),
    );
}

proof fn lemma_acceptance_tells<S: StateMachine>(
    m: NodeModel<S>,
    leader: LeaderModel,
    from: NodeId,
    confirmed: u64,
    seq: u64,
    now: u64,
    p: PendingProposal,
    some: Set<NodeId>,
    after: NodeModel<S>,
)
    requires
        m.settled(),
        m.role == RoleModel::Leader(leader),
        leads_in_order(m, leader),
        confirmed <= m.files.last_index(),
        m.pending.contains(p),
        p.term == m.files.hard_state.current_term,
        has_own_entry(m, p.index),
        outvotes(some, m.members()),
        forall|x: NodeId| #[trigger] some.contains(x) ==> {
            ||| x == m.settings.id
            ||| x == from && confirmed >= p.index
            ||| leader.match_index.contains_key(x) && leader.match_index[x] >= p.index
        },
        ({
            let held = m.with_leader(booked(leader, from, confirmed, seq, now));
            let moved = held.maybe_advance_commit(now);
            &&& held.inv()
            &&& after == moved.resolve_reads() || after == moved.send_append(from).resolve_reads()
        }),
    ensures
        after.effects.contains(EffectModel::Resolve { ticket: p.ticket, committed: true }),
{
    let told = EffectModel::<S::State>::Resolve { ticket: p.ticket, committed: true };
    let next = booked(leader, from, confirmed, seq, now);
    let held = m.with_leader(next);
    assert(leads_in_order(held, next));
    assert(has_own_entry(held, p.index));
    lemma_commit_tells(held, next, now, p, some);
    let moved = held.maybe_advance_commit(now);
    lemma_reads_keep_effects(moved);
    let sent = moved.send_append(from);
    lemma_reads_keep_effects(sent);
    let k = choose|k: int| 0 <= k < moved.effects.len() && moved.effects[k] == told;
    assert(sent.effects[k] == told);
    assert(moved.effects.contains(told));
    assert(sent.effects.contains(told));
    assert(moved.resolve_reads().effects.contains(told));
    assert(sent.resolve_reads().effects.contains(told));
}

proof fn lemma_commit_tells<S: StateMachine>(
    m: NodeModel<S>,
    leader: LeaderModel,
    now: u64,
    p: PendingProposal,
    some: Set<NodeId>,
)
    requires
        m.inv(),
        m.last_applied == m.commit_index,
        m.role == RoleModel::Leader(leader),
        leads_in_order(m, leader),
        m.pending.contains(p),
        p.term == m.files.hard_state.current_term,
        has_own_entry(m, p.index),
        outvotes(some, m.members()),
        forall|x: NodeId| #[trigger] some.contains(x) ==> x == m.settings.id || (
        leader.match_index.contains_key(x) && leader.match_index[x] >= p.index),
    ensures
        m.maybe_advance_commit(now).effects.contains(
            EffectModel::Resolve { ticket: p.ticket, committed: true },
        ),
{
    let told = EffectModel::<S::State>::Resolve { ticket: p.ticket, committed: true };
    let i = choose|i: int| 0 <= i < m.pending.len() && m.pending[i] == p;
    assert(m.pending[i].index > m.last_applied);
    super::duties::a_majority_reaches(m, leader, now, p.index, some);
    let index = m.quorum_index(leader);
    assert(has_entry_of(m.files, p.index, p.term));
    committing_settles_what_it_reaches(m, index, p);
    let committed = m.commit_to(index);
    let k = choose|k: int| 0 <= k < committed.effects.len() && committed.effects[k] == told;
    assert(committed.retire(now).effects[k] == told);
}

// ---- reads ----

/// Whether `x` is known to have acknowledged the leadership at `seq` or later.
pub open spec fn acknowledged<S: StateMachine>(
    m: NodeModel<S>,
    leader: LeaderModel,
    x: NodeId,
    seq: u64,
) -> bool {
    x == m.settings.id || (leader.acked_seq.contains_key(x) && leader.acked_seq[x] >= seq)
}

proof fn lemma_read_served<S: StateMachine>(
    m: NodeModel<S>,
    leader: LeaderModel,
    read: PendingRead,
    some: Set<NodeId>,
)
    requires
        m.role == RoleModel::Leader(leader),
        leader.pending_reads.contains(read),
        outvotes(some, m.members()),
        forall|x: NodeId| #[trigger]
            some.contains(x) ==> acknowledged(m, leader, x, read.needed_seq),
        m.last_applied >= read.read_index,
    ensures
        m.resolve_reads().effects.contains(EffectModel::GrantRead { ticket: read.ticket }),
{
    super::duties::more_than_half_are_enough(
        m,
        |id: NodeId| m.acked(leader.acked_seq, read.needed_seq, id),
        some,
    );
    assert(m.servable(leader.acked_seq, read));
    let test = |r: PendingRead| m.servable(leader.acked_seq, r);
    lemma_filter_has(leader.pending_reads, test, read);
    let served = leader.pending_reads.filter(test);
    let granted = served.map_values(
        |r: PendingRead| EffectModel::<S::State>::GrantRead { ticket: r.ticket },
    );
    let i = choose|i: int| 0 <= i < served.len() && served[i] == read;
    assert(m.resolve_reads().effects[m.effects.len() + i] == granted[i]);
}

proof fn lemma_served_here<S: StateMachine>(
    m: NodeModel<S>,
    read: PendingRead,
    some: Set<NodeId>,
)
    requires
        m.role is Leader,
        m.role->Leader_0.pending_reads.contains(read) || m.effects.contains(
            EffectModel::GrantRead { ticket: read.ticket },
        ),
        outvotes(some, m.members()),
        forall|x: NodeId| #[trigger]
            some.contains(x) ==> acknowledged(m, m.role->Leader_0, x, read.needed_seq),
        m.last_applied >= read.read_index,
    ensures
        m.resolve_reads().effects.contains(EffectModel::GrantRead { ticket: read.ticket }),
{
    if m.role->Leader_0.pending_reads.contains(read) {
        lemma_read_served(m, m.role->Leader_0, read, some);
    } else {
        lemma_reads_keep_effects(m);
    }
}

/// A read that waits is granted, or waits on with everything it waited for.
proof fn lemma_read_stays<S: StateMachine>(m: NodeModel<S>, read: PendingRead)
    requires
        m.role is Leader,
        m.role->Leader_0.pending_reads.contains(read),
    ensures
        ({
            let after = m.resolve_reads();
            ||| after.effects.contains(EffectModel::GrantRead { ticket: read.ticket })
            ||| after.role->Leader_0.pending_reads.contains(read)
        }),
        m.resolve_reads().role is Leader,
        m.resolve_reads().role->Leader_0.acked_seq == m.role->Leader_0.acked_seq,
{
    let leader = m.role->Leader_0;
    let test = |r: PendingRead| m.servable(leader.acked_seq, r);
    let rest = |r: PendingRead| !m.servable(leader.acked_seq, r);
    if test(read) {
        lemma_filter_has(leader.pending_reads, test, read);
        let served = leader.pending_reads.filter(test);
        let granted = served.map_values(
            |r: PendingRead| EffectModel::<S::State>::GrantRead { ticket: r.ticket },
        );
        let i = choose|i: int| 0 <= i < served.len() && served[i] == read;
        assert(m.resolve_reads().effects[m.effects.len() + i] == granted[i]);
    } else {
        lemma_filter_has(leader.pending_reads, rest, read);
    }
}

proof fn lemma_read_over_commit<S: StateMachine>(m: NodeModel<S>, now: u64, read: PendingRead)
    requires
        m.inv(),
        m.role is Leader,
        m.members().contains(m.settings.id),
        m.role->Leader_0.pending_reads.contains(read),
    ensures
        ({
            let after = m.maybe_advance_commit(now);
            ||| after.effects.contains(EffectModel::GrantRead { ticket: read.ticket })
            ||| after.role->Leader_0.pending_reads.contains(read)
        }),
{
    let leader = m.role->Leader_0;
    let index = m.quorum_index(leader);
    if m.members().len() > 0 && index > m.commit_index && m.files.term_at(index as int) == Some(
        m.term(),
    ) {
        let moved = NodeModel { commit_index: index, ..m };
        commit_to_settles(m, index);
        let told = moved.apply_backlog().resolve_pending();
        assert(told.role == m.role);
        lemma_read_stays(told, read);
        let served = told.resolve_reads();
        assert(served.maybe_compact().effects == served.effects);
        assert(served.maybe_compact().role == served.role);
        super::duties::advancing_keeps_a_member_leading(m, now);
        assert(m.maybe_advance_commit(now) == m.commit_to(index));
    }
}

/// A read that waits is granted as soon as more than half of the members have
/// acknowledged the leadership since it was asked for (the leader itself
/// counted in, whoever just answered by the message it answered) and the state
/// reflects what the read must see: by an acceptance and by a rejection alike.
#[verifier::rlimit(30)]
pub proof fn a_confirmed_read_is_granted<S: StateMachine>(
    m: NodeModel<S>,
    leader: LeaderModel,
    from: NodeId,
    prev: LogIndex,
    count: u64,
    seq: u64,
    reply: AppendEntriesReply,
    now: u64,
    read: PendingRead,
    some: Set<NodeId>,
)
    requires
        m.settled(),
        m.role == RoleModel::Leader(leader),
        m.room(now),
        m.members().contains(m.settings.id),
        prev + count <= m.files.last_index(),
        reply.term <= m.files.hard_state.current_term,
        leader.pending_reads.contains(read),
        m.last_applied >= read.read_index,
        outvotes(some, m.members()),
        forall|x: NodeId| #[trigger] some.contains(x) ==> {
            ||| x == m.settings.id
            ||| x == from && seq >= read.needed_seq
            ||| leader.acked_seq.contains_key(x) && leader.acked_seq[x] >= read.needed_seq
        },
    ensures
        m.step(
            answered(m.files.hard_state.current_term, from, prev, count, seq, reply),
            now,
        ).effects.contains(EffectModel::GrantRead { ticket: read.ticket }),
{
    let grant = EffectModel::<S::State>::GrantRead { ticket: read.ticket };
    let heard = NodeModel::<S>::acknowledge(leader, from, seq, now);
    if reply.success {
        lemma_accepted_path(m, leader, from, prev, count, seq, reply, now);
        let held = m.with_leader(booked(leader, from, (prev + count) as u64, seq, now));
        lemma_read_over_commit(held, now, read);
        super::duties::advancing_keeps_a_member_leading(held, now);
        maybe_advance_commit_keeps(held, now);
        let moved = held.maybe_advance_commit(now);
        assert(moved.last_applied >= held.last_applied);
        lemma_served_here(moved, read, some);
        let sent = moved.send_append(from);
        assert(moved.effects.contains(grant) ==> sent.effects.contains(grant)) by {
            if moved.effects.contains(grant) {
                let k = choose|k: int| 0 <= k < moved.effects.len() && moved.effects[k] == grant;
                assert(sent.effects[k] == grant);
            }
        }
        lemma_served_here(sent, read, some);
    } else {
        let back = m.on_append_rejected(heard, from, prev);
        lemma_read_served(back, back.role->Leader_0, read, some);
    }
}

/// A read that a leader takes is not answered from the past: it waits for
/// acknowledgements of messages sent after it came in, and for the state to
/// reach the commit point and the no-op of the leader's term; it is granted or
/// waits; and what it waits for is sent for, to every other member.
pub proof fn a_read_is_taken_by_a_leader<S: StateMachine>(
    m: NodeModel<S>,
    leader: LeaderModel,
    ticket: u64,
)
    requires
        m.role == RoleModel::Leader(leader),
        leader.heartbeat_seq < u64::MAX,
    ensures
        ({
            let (after, answer) = m.on_read(ticket);
            let read = PendingRead {
                needed_seq: (leader.heartbeat_seq + 1) as u64,
                read_index: if m.commit_index >= leader.term_start_index {
                    m.commit_index
                } else {
                    leader.term_start_index
                },
                ticket,
            };
            &&& answer is Ok
            &&& after.role is Leader
            &&& after.role->Leader_0.heartbeat_seq == leader.heartbeat_seq + 1
            &&& after.effects.contains(EffectModel::GrantRead { ticket })
                || after.role->Leader_0.pending_reads.contains(read)
            &&& after.files == m.files
            &&& after.commit_index == m.commit_index
            &&& forall|id: NodeId|
                m.members().contains(id) && id != m.settings.id
                    ==> #[trigger] super::duties::sent_to(
                    after.effects,
                    id,
                    super::duties::replicates(m.settings.id, m.files.hard_state.current_term),
                )
        }),
{
    let asked = m.register_read(leader, ticket);
    let read = asked.role->Leader_0.pending_reads.last();
    assert(asked.role->Leader_0.pending_reads.contains(read));
    let sent = asked.broadcast();
    lemma_read_stays(sent, read);
    assert forall|id: NodeId|
        m.members().contains(id) && id != m.settings.id implies #[trigger] super::duties::sent_to(
        m.on_read(ticket).0.effects,
        id,
        super::duties::replicates(m.settings.id, m.files.hard_state.current_term),
    ) by {
        super::duties::a_broadcast_reaches_every_peer(asked, id);
        super::duties::resolving_reads_keeps_what_is_sent(
            sent,
            id,
            super::duties::replicates(m.settings.id, m.files.hard_state.current_term),
        );
    }
}

/// A write whose entry a newer leader replaces is told lost: a batch that puts
/// an entry of another term where the write's entry stands leaves nobody
/// waiting for it.
pub proof fn a_replaced_write_is_told_lost<S: StateMachine>(
    m: NodeModel<S>,
    args: AppendModel,
    now: u64,
    p: PendingProposal,
    j: int,
)
    requires
        m.settled(),
        m.admits_append(args),
        args.well_shaped(),
        args.term >= m.files.hard_state.current_term,
        super::exchange::matches_at(m.files, args.prev_log_index, args.prev_log_term),
        m.pending.contains(p),
        has_entry_of(m.files, p.index, p.term),
        0 <= j < args.entries.len(),
        args.entries[j].index == p.index,
        args.entries[j].term != p.term,
    ensures
        m.on_append_entries(args, now).0.effects.contains(
            EffectModel::Resolve { ticket: p.ticket, committed: false },
        ),
{
    let lost = EffectModel::<S::State>::Resolve { ticket: p.ticket, committed: false };
    let at = choose|at: int| 0 <= at < m.pending.len() && m.pending[at] == p;
    assert(m.pending[at].index > m.last_applied);
    super::exchange::an_append_succeeds_exactly_when_it_matches(m, args, now);
    super::upkeep::on_append_entries_keeps(m, args, now);
    super::exchange::files_answer_by_number(m.files, p.index);
    let heard = m.hear_leader(args.term, args.leader_id, now);
    let entries = args.entries;
    assert(!heard.has_entry(entries[j]));
    super::upkeep::first_new_exists(heard, entries);
    let i = heard.first_new(entries);
    assert(i <= j) by {
        if i > j {
            assert(heard.has_entry(entries[j]));
        }
    }
    super::upkeep::first_new_fits(heard, args, i);
    let index = entries[i].index;
    assert(index <= p.index);
    assert(heard.files.holds(index as int));
    super::upkeep::truncate_keeps(heard, index as int);
    let cut = heard.truncate(index as int);
    assert(!has_entry_of(cut.files, p.index, p.term)) by {
        assert forall|k: int| #![trigger cut.files.log[k]] 0 <= k < cut.files.log.len() implies cut.files.log[k].index
            != p.index by {
            assert(cut.files.log[k] == heard.files.log[k]);
        }
    }
    assert(cut.pending.contains(p));
    lemma_told(cut, p);
    let roomy = heard.make_room(entries[i]);
    let merged = heard.merge(args);
    assert(merged.effects == roomy.effects);
    super::upkeep::merge_keeps(heard, args);
    let commit = NodeModel::<S>::verified_commit(args);
    if commit > merged.commit_index {
        let k = choose|k: int| 0 <= k < merged.effects.len() && merged.effects[k] == lost;
        let applied = NodeModel { commit_index: commit, ..merged }.apply_backlog();
        let told = applied.resolve_pending();
        assert(told.effects[k] == lost);
        let served = told.resolve_reads();
        assert(served.effects[k] == lost);
        assert(merged.commit_to(commit).effects == served.effects);
    }
}

// ---- compaction ----

/// When the log is compacted: without a threshold, never. With one and no
/// trailing window, as soon as that many entries (at least one) are applied
/// behind the boundary, at what is applied; and not before. The snapshot holds
/// the state there, the term there and the configuration in effect there.
pub proof fn the_log_is_compacted_exactly_at_the_threshold<S: StateMachine>(
    m: NodeModel<S>,
    index: LogIndex,
)
    requires
        m.inv(),
        m.commit_index <= index <= m.files.last_index(),
        m.captured is None,
    ensures
        ({
            let after = m.commit_to(index);
            let behind = index - m.files.snapshot_index();
            &&& m.settings.snapshot_threshold is None ==> after.files == m.files
                && after.captured is None
            &&& m.settings.snapshot_threshold matches Some(threshold) ==> {
                let due = behind >= 1 && behind >= threshold;
                &&& !due ==> after.files == m.files && after.captured is None
                &&& due && m.settings.snapshot_trailing == 0 ==> {
                    &&& after.files.snapshot is Some
                    &&& after.files.snapshot->0.last_included_index == index
                    &&& after.files.snapshot->0.state == after.state
                    &&& after.files.snapshot->0.last_included_term == m.files.log[behind - 1].term
                    &&& after.files.log == m.files.log.skip(behind)
                    &&& after.files.hard_state == m.files.hard_state
                    &&& after.files.snapshot->0.membership == m.files.membership_through(
                        index as int,
                    )
                }
                &&& due && m.settings.snapshot_trailing > 0 ==> {
                    &&& after.files == m.files
                    &&& after.captured is Some
                    &&& after.captured->0.index == index
                    &&& after.captured->0.state == after.state
                }
            }
        }),
{
    commit_to_settles(m, index);
    let applied = NodeModel { commit_index: index, ..m }.apply_backlog();
    let ready = applied.resolve_pending().resolve_reads();
    assert(ready.files == m.files && ready.state == applied.state && ready.captured is None
        && ready.last_applied == index && ready.settings == m.settings);
    let behind = index - m.files.snapshot_index();
    let caught = ready.maybe_capture();
    if caught.captured is Some && m.settings.snapshot_trailing == 0 {
        assert(m.files.entries_from(index + 1) =~= m.files.log.skip(behind));
    }
}

/// With a trailing window, a captured state is what the log is compacted to
/// once that many entries were applied behind it, and not before; meanwhile no
/// other state is captured.
pub proof fn a_captured_state_waits_for_the_window<S: StateMachine>(
    m: NodeModel<S>,
    index: LogIndex,
)
    requires
        m.inv(),
        m.commit_index <= index <= m.files.last_index(),
        m.captured is Some,
    ensures
        ({
            let after = m.commit_to(index);
            let capture = m.captured->0;
            let cut = capture.index - m.files.snapshot_index();
            &&& index - capture.index < m.settings.snapshot_trailing ==> after.files == m.files
                && after.captured == m.captured
            &&& index - capture.index >= m.settings.snapshot_trailing ==> {
                &&& after.captured is None
                &&& after.files.snapshot is Some
                &&& after.files.snapshot->0.last_included_index == capture.index
                &&& after.files.snapshot->0.state == capture.state
                &&& after.files.snapshot->0.last_included_term == m.files.log[cut - 1].term
                &&& after.files.log == m.files.log.skip(cut)
                &&& after.files.hard_state == m.files.hard_state
            }
        }),
{
    commit_to_settles(m, index);
    let applied = NodeModel { commit_index: index, ..m }.apply_backlog();
    let ready = applied.resolve_pending().resolve_reads();
    assert(ready.files == m.files && ready.captured == m.captured && ready.last_applied == index
        && ready.settings == m.settings);
    let capture = m.captured->0;
    let cut = capture.index - m.files.snapshot_index();
    assert(ready.maybe_capture() == ready);
    assert(m.files.entries_from(capture.index + 1) =~= m.files.log.skip(cut));
}

// ---- the state ----

/// Committing applies every entry behind what was applied, once each, in the
/// order of the log, up to the new commit point.
pub proof fn committing_applies_in_order<S: StateMachine>(m: NodeModel<S>, index: LogIndex)
    requires
        m.inv(),
        m.commit_index < index <= m.files.last_index(),
        m.last_applied == m.commit_index,
        index == m.commit_index + 1,
    ensures
        m.commit_to(index).state == S::transition(
            m.state,
            m.files.log[index - m.files.snapshot_index() - 1],
        ),
        m.commit_to(index).last_applied == index,
{
    let applied = NodeModel { commit_index: index, ..m };
    let entry = m.files.log[index - m.files.snapshot_index() - 1];
    assert(applied.backlog() =~= seq![entry]);
    assert(seq![entry].drop_last() =~= Seq::<LogEntry>::empty());
    reveal_with_fuel(super::machine::run, 2);
    let ready = applied.apply_backlog().resolve_pending().resolve_reads();
    assert(ready.maybe_compact().state == ready.state);
}

/// Committing in two steps leaves the state that committing at once does.
pub proof fn committing_composes<S: StateMachine>(m: NodeModel<S>, first: LogIndex, second: LogIndex)
    requires
        m.inv(),
        m.commit_index <= first <= second <= m.files.last_index(),
    ensures
        m.commit_to(first).commit_to(second).state == m.commit_to(second).state,
        m.commit_to(first).commit_to(second).commit_index == m.commit_to(second).commit_index,
{
    commit_to_settles(m, first);
    commit_to_settles(m, second);
    let half = m.commit_to(first);
    commit_to_settles(half, second);
    let twice = half.commit_to(second);
    let once = m.commit_to(second);
    let a = NodeModel { commit_index: first, ..m };
    let b = NodeModel { commit_index: second, ..m };
    let c = NodeModel { commit_index: second, ..half };
    assert(half.state == a.apply_backlog().state);
    assert(once.state == b.apply_backlog().state);
    assert(twice.state == c.apply_backlog().state);
    super::safety::commit_keeps_the_log(m, first);
    assert(c.backlog() =~= m.files.log.subrange(
        first - m.files.snapshot_index(),
        second - m.files.snapshot_index(),
    )) by {
        let from = first - m.files.snapshot_index();
        let to = second - m.files.snapshot_index();
        let whole = m.files.log.subrange(from, to);
        assert(c.backlog().len() == whole.len());
        assert forall|k: int| 0 <= k < whole.len() implies c.backlog()[k] == whole[k] by {
            let index = first + 1 + k;
            assert(half.files.entry_at(index) == m.files.entry_at(index));
        }
    }
    super::machine::run_in_parts::<S>(m.state, a.backlog(), c.backlog());
    assert(a.backlog() + c.backlog() =~= b.backlog());
}

// ---- configurations ----

/// The configuration in effect is that of the last change in the log, committed
/// or not; without one, the snapshot's; without that, the one that the node was
/// started with.
pub proof fn the_last_configuration_is_in_effect<S: StateMachine>(m: NodeModel<S>)
    ensures
        forall|i: int|
            #![trigger m.files.log[i]]
            0 <= i < m.files.log.len() && m.files.log[i].command is ConfigChange && (forall|j: int|
                #![trigger m.files.log[j]]
                i < j < m.files.log.len() ==> !(m.files.log[j].command is ConfigChange))
                ==> m.membership() == m.files.log[i].command->members,
        (forall|j: int|
            #![trigger m.files.log[j]]
            0 <= j < m.files.log.len() ==> !(m.files.log[j].command is ConfigChange)) ==> {
            m.membership() == (match m.files.snapshot {
                Some(s) if s.membership is Some => s.membership->0,
                _ => m.settings.bootstrap,
            })
        },
        m.members() == m.membership().ids(),
{
    let log = m.files.log;
    assert(log.take(log.len() as int) =~= log);
    assert forall|i: int|
        #![trigger m.files.log[i]]
        0 <= i < log.len() && log[i].command is ConfigChange && (forall|j: int|
            #![trigger log[j]]
            i < j < log.len() ==> !(log[j].command is ConfigChange)) implies m.membership()
        == log[i].command->members by {
        lemma_last_change(log, i);
    }
    if forall|j: int|
        #![trigger log[j]]
        0 <= j < log.len() ==> !(log[j].command is ConfigChange) {
        lemma_no_change(log);
    }
}

proof fn lemma_no_change(log: Seq<LogEntry>)
    requires
        forall|j: int|
            #![trigger log[j]]
            0 <= j < log.len() ==> !(log[j].command is ConfigChange),
    ensures
        super::membership::last_config(log) is None,
    decreases log.len(),
{
    if log.len() > 0 {
        let init = log.drop_last();
        assert forall|j: int| #![trigger init[j]] 0 <= j < init.len() implies !(
        init[j].command is ConfigChange) by {
            assert(init[j] == log[j]);
        }
        lemma_no_change(init);
        assert(log.last() == log[log.len() - 1]);
    }
}

proof fn lemma_last_change(log: Seq<LogEntry>, i: int)
    requires
        0 <= i < log.len(),
        log[i].command is ConfigChange,
        forall|j: int|
            #![trigger log[j]]
            i < j < log.len() ==> !(log[j].command is ConfigChange),
    ensures
        super::membership::last_config(log) == Some(log[i].command->members),
    decreases log.len(),
{
    assert(log.last() == log[log.len() - 1]);
    if i < log.len() - 1 {
        let init = log.drop_last();
        assert(init[i] == log[i]);
        assert forall|j: int| #![trigger init[j]] i < j < init.len() implies !(
        init[j].command is ConfigChange) by {
            assert(init[j] == log[j]);
        }
        lemma_last_change(init, i);
    }
}

/// What stands against a change of the configuration: nothing but a no-op of
/// the leader's term that is not committed, another change that is not, an
/// empty configuration, one that is not the present one with one member more or
/// one fewer, or too few members of it heard from lately. A change with none of
/// that is accepted.
pub proof fn a_fit_change_is_accepted<S: StateMachine>(
    m: NodeModel<S>,
    leader: LeaderModel,
    members: Arc<Membership>,
    ticket: u64,
    now: u64,
    id: NodeId,
    some: Set<NodeId>,
)
    requires
        m.files.wf(),
        m.role == RoleModel::Leader(leader),
        m.commit_index >= leader.term_start_index,
        m.commit_index >= m.files.snapshot_index(),
        forall|i: int|
            #![trigger m.files.log[i]]
            0 <= i < m.files.log.len() && m.files.log[i].index > m.commit_index ==> !(
            m.files.log[i].command is ConfigChange),
        members.ids().len() > 0,
        m.membership().addrs().contains_key(id) != members.addrs().contains_key(id),
        forall|x: NodeId| #[trigger]
            members.addrs().contains_key(x) && x != id ==> m.membership().addrs().contains_key(x)
                && m.membership().addrs()[x] == members.addrs()[x],
        forall|x: NodeId| #[trigger]
            m.membership().addrs().contains_key(x) && x != id ==> members.addrs().contains_key(x),
        outvotes(some, members.ids()),
        forall|x: NodeId| #[trigger] some.contains(x) ==> x == m.settings.id || (
        leader.last_contact.contains_key(x) && leader.last_contact[x] <= now && now
            - leader.last_contact[x] < m.settings.election_timeout_max),
    ensures
        m.on_propose(Command::ConfigChange { members }, ticket, now).1 is Ok,
{
    let held = m.membership().addrs();
    let new = members.addrs();
    if new.contains_key(id) {
        assert(new.remove(id) =~= held);
    } else {
        assert(held.remove(id) =~= new);
    }
    assert(super::membership::single_change(held, new));
    let test = |x: NodeId| m.heard(leader, now, x);
    super::duties::passing_members_count(members.ids(), test, some);
    assert(!m.change_in_flight()) by {
        if m.change_in_flight() {
            let i = choose|i: int|
                #![trigger m.files.log[i]]
                m.commit_index - m.files.snapshot_index() <= i < m.files.log.len()
                    && super::membership::config_of(m.files.log[i]) is Some;
            assert(m.files.log[i].index > m.commit_index);
        }
    }
}

/// And a change with any of that is refused, and leaves no trace.
pub proof fn an_unfit_change_is_refused<S: StateMachine>(
    m: NodeModel<S>,
    leader: LeaderModel,
    members: Arc<Membership>,
    ticket: u64,
    now: u64,
    heard: Set<NodeId>,
)
    requires
        m.files.wf(),
        m.role == RoleModel::Leader(leader),
        m.commit_index >= m.files.snapshot_index(),
        heard.finite(),
        ({
            ||| m.commit_index < leader.term_start_index
            ||| exists|i: int|
                #![trigger m.files.log[i]]
                0 <= i < m.files.log.len() && m.files.log[i].index > m.commit_index
                    && m.files.log[i].command is ConfigChange
            ||| members.ids().len() == 0
            ||| members.addrs() == m.membership().addrs()
            ||| exists|x: NodeId|
                members.addrs().contains_key(x) && m.membership().addrs().contains_key(x)
                    && #[trigger] members.addrs()[x] != m.membership().addrs()[x]
            ||| exists|x: NodeId, y: NodeId|
                x != y && #[trigger] members.addrs().contains_key(x) != m.membership().addrs().contains_key(
                    x,
                ) && #[trigger] members.addrs().contains_key(y) != m.membership().addrs().contains_key(
                    y,
                )
            ||| members.ids().no_duplicates() && 2 * heard.len() <= members.ids().len() && forall|
                x: NodeId,
            | #[trigger]
                members.ids().contains(x) && (x == m.settings.id || (
                leader.last_contact.contains_key(x) && (now < leader.last_contact[x] || now
                    - leader.last_contact[x] < m.settings.election_timeout_max)))
                    ==> heard.contains(x)
        }),
    ensures
        m.on_propose(Command::ConfigChange { members }, ticket, now).1 is Err,
        m.on_propose(Command::ConfigChange { members }, ticket, now).0 == m,
{
    let command = Command::ConfigChange { members };
    if m.on_propose(command, ticket, now).1 is Ok {
        let held = m.membership().addrs();
        let new = members.addrs();
        assert(m.config_fault(leader, members, now) is None);
        if exists|i: int|
            #![trigger m.files.log[i]]
            0 <= i < m.files.log.len() && m.files.log[i].index > m.commit_index
                && m.files.log[i].command is ConfigChange {
            let i = choose|i: int|
                #![trigger m.files.log[i]]
                0 <= i < m.files.log.len() && m.files.log[i].index > m.commit_index
                    && m.files.log[i].command is ConfigChange;
            assert(super::membership::config_of(m.files.log[i]) is Some);
            assert(m.change_in_flight());
        }
        lemma_single(held, new);
        if members.ids().no_duplicates() && 2 * heard.len() <= members.ids().len() && forall|
            x: NodeId,
        | #[trigger]
            members.ids().contains(x) && (x == m.settings.id || (leader.last_contact.contains_key(x)
                && (now < leader.last_contact[x] || now - leader.last_contact[x]
                < m.settings.election_timeout_max))) ==> heard.contains(x) {
            let test = |x: NodeId| m.heard(leader, now, x);
            super::duties::no_more_than_may_pass(members.ids(), test, heard);
        }
    }
}

proof fn lemma_single(
    held: Map<NodeId, super::membership::AddrModel>,
    new: Map<NodeId, super::membership::AddrModel>,
)
    requires
        super::membership::single_change(held, new),
    ensures
        held != new,
        forall|x: NodeId|
            new.contains_key(x) && held.contains_key(x) ==> #[trigger] new[x] == held[x],
        forall|x: NodeId, y: NodeId|
            #[trigger] new.contains_key(x) != held.contains_key(x) && #[trigger] new.contains_key(y)
                != held.contains_key(y) ==> x == y,
{
    if exists|id: NodeId|
        !held.contains_key(id) && new.contains_key(id) && #[trigger] new.remove(id) == held {
        let id = choose|id: NodeId|
            !held.contains_key(id) && new.contains_key(id) && #[trigger] new.remove(id) == held;
        assert forall|x: NodeId| x != id implies new.contains_key(x) == #[trigger] held.contains_key(
            x,
        ) by {
            assert(new.remove(id).contains_key(x) == new.contains_key(x));
        }
        assert forall|x: NodeId|
            new.contains_key(x) && held.contains_key(x) implies #[trigger] new[x] == held[x] by {
            assert(new.remove(id)[x] == new[x]);
        }
    } else {
        let id = choose|id: NodeId| held.contains_key(id) && #[trigger] held.remove(id) == new;
        assert forall|x: NodeId| x != id implies new.contains_key(x) == #[trigger] held.contains_key(
            x,
        ) by {
            assert(held.remove(id).contains_key(x) == held.contains_key(x));
        }
        assert forall|x: NodeId|
            new.contains_key(x) && held.contains_key(x) implies #[trigger] new[x] == held[x] by {
            assert(held.remove(id)[x] == held[x]);
        }
    }
}

/// The configuration that a snapshot carries is the one that was in effect at
/// its boundary: that of the last change at or below it, or else the one of the
/// snapshot before.
pub proof fn a_snapshot_carries_the_configuration_there<D>(files: Durable<D>, index: LogIndex)
    requires
        files.wf(),
        files.holds(index as int),
    ensures
        forall|i: int|
            #![trigger files.log[i]]
            0 <= i < files.log.len() && files.log[i].index <= index
                && files.log[i].command is ConfigChange && (forall|j: int|
                #![trigger files.log[j]]
                i < j < files.log.len() && files.log[j].index <= index ==> !(
                files.log[j].command is ConfigChange)) ==> files.membership_through(index as int)
                == Some(files.log[i].command->members),
        (forall|j: int|
            #![trigger files.log[j]]
            0 <= j < files.log.len() && files.log[j].index <= index ==> !(
            files.log[j].command is ConfigChange)) ==> files.membership_through(index as int)
            == match files.snapshot {
            Some(s) => s.membership,
            None => None,
        },
{
    let log = files.log;
    let part = log.take(index - files.snapshot_index());
    assert forall|i: int|
        #![trigger files.log[i]]
        0 <= i < log.len() && log[i].index <= index && log[i].command is ConfigChange && (forall|
            j: int,
        |
            #![trigger files.log[j]]
            i < j < log.len() && log[j].index <= index ==> !(
            log[j].command is ConfigChange)) implies files.membership_through(index as int) == Some(
        log[i].command->members,
    ) by {
        assert(part[i] == log[i]);
        assert forall|j: int| #![trigger part[j]] i < j < part.len() implies !(
        part[j].command is ConfigChange) by {
            assert(part[j] == log[j]);
        }
        lemma_last_change(part, i);
    }
    if forall|j: int|
        #![trigger files.log[j]]
        0 <= j < log.len() && log[j].index <= index ==> !(log[j].command is ConfigChange) {
        assert forall|j: int| #![trigger part[j]] 0 <= j < part.len() implies !(
        part[j].command is ConfigChange) by {
            assert(part[j] == log[j]);
        }
        lemma_no_change(part);
    }
}

/// A leader that a committed configuration leaves out stops leading as it
/// commits; one whose removal is not committed leads on, and so does every
/// leader that is a member.
pub proof fn a_leader_retires_exactly_when_it_is_out<S: StateMachine>(
    m: NodeModel<S>,
    leader: LeaderModel,
    now: u64,
    some: Set<NodeId>,
    index: LogIndex,
)
    requires
        m.inv(),
        m.role == RoleModel::Leader(leader),
        leads_in_order(m, leader),
        m.commit_index < index,
        has_own_entry(m, index),
        outvotes(some, m.members()),
        forall|x: NodeId| #[trigger] some.contains(x) ==> x == m.settings.id || (
        leader.match_index.contains_key(x) && leader.match_index[x] >= index),
    ensures
        m.members().contains(m.settings.id) ==> m.maybe_advance_commit(now).role is Leader,
        ({
            let after = m.maybe_advance_commit(now);
            let open = exists|i: int|
                #![trigger after.files.log[i]]
                0 <= i < after.files.log.len() && after.files.log[i].index > after.commit_index
                    && after.files.log[i].command is ConfigChange;
            !m.members().contains(m.settings.id) ==> (after.role is Leader <==> open)
        }),
{
    super::duties::a_majority_reaches(m, leader, now, index, some);
    let high = m.quorum_index(leader);
    commit_to_settles(m, high);
    let committed = m.commit_to(high);
    let moved = NodeModel { commit_index: high, ..m };
    let told = moved.apply_backlog().resolve_pending();
    let served = told.resolve_reads();
    super::upkeep::apply_backlog_keeps(moved);
    resolve_pending_keeps(moved.apply_backlog());
    resolve_reads_keeps(told);
    maybe_compact_keeps(served);
    assert(committed.role is Leader);
    assert(committed.members() == m.members());
    assert(committed.settings == m.settings);
    let after = committed.retire(now);
    assert(after.files.log == committed.files.log && after.commit_index == high);
    let open = exists|i: int|
        #![trigger after.files.log[i]]
        0 <= i < after.files.log.len() && after.files.log[i].index > after.commit_index
            && after.files.log[i].command is ConfigChange;
    assert(open == committed.change_in_flight()) by {
        if open {
            let i = choose|i: int|
                #![trigger after.files.log[i]]
                0 <= i < after.files.log.len() && after.files.log[i].index > after.commit_index
                    && after.files.log[i].command is ConfigChange;
            assert(super::membership::config_of(committed.files.log[i]) is Some);
        }
        if committed.change_in_flight() {
            let i = choose|i: int|
                #![trigger committed.files.log[i]]
                committed.commit_index - committed.files.snapshot_index() <= i
                    < committed.files.log.len() && super::membership::config_of(
                    committed.files.log[i],
                ) is Some;
            assert(after.files.log[i].index > after.commit_index);
        }
    }
}

// ---- time ----

/// Election timeouts lie between the shortest and the longest: whenever a node
/// starts, follows, grants its vote or gives up waiting, its deadline is then
/// at least the shortest timeout and at most the longest one away.
pub proof fn deadlines_lie_in_range<S: StateMachine>(
    m: NodeModel<S>,
    vote: RequestVoteArgs,
    append: AppendModel,
    now: u64,
    seed: u64,
)
    requires
        m.settled(),
        now + m.settings.election_timeout_max <= u64::MAX,
    ensures
        ({
            let due = |x: NodeModel<S>|
                now + m.settings.election_timeout_min <= x.election_deadline <= now
                    + m.settings.election_timeout_max;
            let booted = NodeModel::<S>::booted(
                m.settings,
                seed,
                m.files,
                Seq::empty(),
                m.origin,
                now,
            );
            let (voted, reply) = m.on_request_vote(vote, now);
            &&& due(booted)
            &&& booted.role is Follower
            &&& booted.next_deadline() == booted.election_deadline
            &&& reply.vote_granted ==> due(voted)
            &&& !reply.vote_granted && vote.term <= m.files.hard_state.current_term
                ==> voted.election_deadline == m.election_deadline
            &&& append.term >= m.files.hard_state.current_term && m.admits_append(append) ==> due(
                m.on_append_entries(append, now).0,
            )
            &&& !(m.role is Leader) && !m.members().contains(m.settings.id) ==> due(
                m.step(NodeEvent::Timer, now),
            )
            &&& !(m.role is Leader) ==> m.next_deadline() == m.election_deadline
        }),
{
    let s = m.settings;
    assert forall|draw: u64|
        s.election_timeout_min <= #[trigger] crate::rng::reduce(
            s.election_timeout_min,
            s.election_timeout_max,
            draw,
        ) <= s.election_timeout_max by {
        crate::rng::reduced_draws_lie_in_range(s.election_timeout_min, s.election_timeout_max, draw);
    }
    if append.term >= m.files.hard_state.current_term && m.admits_append(append) {
        super::upkeep::on_append_entries_keeps(m, append, now);
        let heard = m.hear_leader(append.term, append.leader_id, now);
        if heard.prev_matches(append) {
            let merged = heard.merge(append);
            assert(merged.election_deadline == heard.election_deadline);
            let commit = NodeModel::<S>::verified_commit(append);
            let moved = NodeModel { commit_index: commit, ..merged };
            let ready = moved.apply_backlog().resolve_pending().resolve_reads();
            assert(ready.maybe_compact().election_deadline == merged.election_deadline);
        }
    }
}

/// A node boots as what its files say: a follower of nobody, with its term, its
/// vote and its log, in the state of the snapshot if there is one and in the
/// first state otherwise, with nothing committed behind the boundary.
pub proof fn a_node_boots_from_its_files<S: StateMachine>(
    settings: super::model::Settings,
    seed: u64,
    files: Durable<S::State>,
    writes: Seq<super::storage::WriteModel<S::State>>,
    origin: S::State,
    now: u64,
)
    requires
        files.wf(),
    ensures
        ({
            let m = NodeModel::<S>::booted(settings, seed, files, writes, origin, now);
            &&& m.files == files
            &&& m.settings == settings
            &&& m.origin == origin
            &&& m.writes == writes
            &&& m.role is Follower
            &&& m.leader_id is None
            &&& m.last_leader_contact is None
            &&& m.pending.len() == 0
            &&& m.effects.len() == 0
            &&& m.captured is None
            &&& files.snapshot matches Some(snapshot) ==> m.state == snapshot.state
                && m.commit_index == snapshot.last_included_index && m.last_applied
                == snapshot.last_included_index
            &&& files.snapshot is None ==> m.state == origin && m.commit_index == 0
                && m.last_applied == 0
        }),
{
}

/// A write that a leader accepts is waited for: whoever asked is told at once
/// that it is committed, or is told later, as long as the node can tell.
pub proof fn an_accepted_write_is_waited_for<S: StateMachine>(
    m: NodeModel<S>,
    command: Command,
    ticket: u64,
    now: u64,
)
    requires
        m.settled(),
        m.room(now),
        m.on_propose(command, ticket, now).1 is Ok,
    ensures
        ({
            let after = m.on_propose(command, ticket, now).0;
            let p = PendingProposal {
                term: m.files.hard_state.current_term,
                index: (m.files.last_index() + 1) as u64,
                ticket,
            };
            ||| after.pending.contains(p)
            ||| after.effects.contains(EffectModel::Resolve { ticket, committed: true })
        }),
        forall|q: PendingProposal| #[trigger]
            m.pending.contains(q) && has_entry_of(m.files, q.index, q.term) ==> {
                let after = m.on_propose(command, ticket, now).0;
                ||| after.pending.contains(q)
                ||| after.effects.contains(
                    EffectModel::Resolve { ticket: q.ticket, committed: true },
                )
            },
{
    let entry = LogEntry {
        term: m.files.hard_state.current_term,
        index: (m.files.last_index() + 1) as u64,
        command,
    };
    super::upkeep::append_keeps(m, seq![entry]);
    let taken = m.accept(command, ticket);
    assert(taken.inv());
    let p = taken.pending.last();
    assert(taken.pending.contains(p));
    assert(taken.files.log[m.files.log.len() as int] == entry);
    assert(has_entry_of(taken.files, p.index, p.term));
    let moved = taken.maybe_advance_commit(now);
    lemma_wait_over_commit(taken, now, p);
    let after = moved.broadcast();
    assert(after.pending == moved.pending);
    assert forall|e: EffectModel<S::State>| #[trigger] moved.effects.contains(e) implies after.effects.contains(
        e,
    ) by {
        let i = choose|i: int| 0 <= i < moved.effects.len() && moved.effects[i] == e;
        assert(after.effects[i] == e);
    }
    assert forall|q: PendingProposal| #[trigger]
        m.pending.contains(q) && has_entry_of(m.files, q.index, q.term) implies {
        ||| after.pending.contains(q)
        ||| after.effects.contains(EffectModel::Resolve { ticket: q.ticket, committed: true })
    } by {
        let i = choose|i: int| 0 <= i < m.pending.len() && m.pending[i] == q;
        assert(taken.pending[i] == q);
        let j = choose|j: int|
            #![trigger m.files.log[j]]
            0 <= j < m.files.log.len() && m.files.log[j].index == q.index && m.files.log[j].term
                == q.term;
        assert(taken.files.log[j] == m.files.log[j]);
        lemma_wait_over_commit(taken, now, q);
    }
}

proof fn lemma_wait_over_commit<S: StateMachine>(m: NodeModel<S>, now: u64, p: PendingProposal)
    requires
        m.inv(),
        m.pending.contains(p),
        has_entry_of(m.files, p.index, p.term),
    ensures
        ({
            let after = m.maybe_advance_commit(now);
            ||| after.pending.contains(p)
            ||| after.effects.contains(EffectModel::Resolve { ticket: p.ticket, committed: true })
        }),
{
    if let RoleModel::Leader(leader) = m.role {
        let index = m.quorum_index(leader);
        if m.members().len() > 0 && index > m.commit_index && m.files.term_at(index as int) == Some(
            m.term(),
        ) {
            committing_settles_what_it_reaches(m, index, p);
            let told = EffectModel::<S::State>::Resolve { ticket: p.ticket, committed: true };
            let committed = m.commit_to(index);
            let after = committed.retire(now);
            assert(after.pending == committed.pending);
            if committed.effects.contains(told) {
                let k = choose|k: int|
                    0 <= k < committed.effects.len() && committed.effects[k] == told;
                assert(after.effects[k] == told);
            }
        }
    }
}

/// A snapshot from the leader settles the writes that it reaches: whoever waits
/// for one at or below the boundary is told that its outcome cannot be told;
/// one above it is told lost if its entry is gone, and waits on otherwise.
pub proof fn an_installed_snapshot_settles_what_it_hides<S: StateMachine>(
    m: NodeModel<S>,
    args: super::rpc::InstallModel<S::State>,
    now: u64,
    p: PendingProposal,
)
    requires
        m.settled(),
        args.term >= m.files.hard_state.current_term,
        args.snapshot.last_included_index > m.commit_index,
        m.pending.contains(p),
    ensures
        ({
            let after = m.on_install_snapshot(args, now).0;
            &&& p.index <= args.snapshot.last_included_index ==> after.effects.contains(
                EffectModel::DropProposal { ticket: p.ticket },
            ) && !after.pending.contains(p)
            &&& p.index > args.snapshot.last_included_index && has_entry_of(
                after.files,
                p.index,
                p.term,
            ) ==> after.pending.contains(p)
            &&& p.index > args.snapshot.last_included_index && !has_entry_of(
                after.files,
                p.index,
                p.term,
            ) ==> after.effects.contains(
                EffectModel::Resolve { ticket: p.ticket, committed: false },
            )
        }),
{
    let boundary = args.snapshot.last_included_index;
    let heard = m.hear_leader(args.term, args.leader_id, now);
    let files = heard.files.installed(args.snapshot);
    super::upkeep::on_install_snapshot_keeps(m, args, now);
    let bare = NodeModel {
        files,
        writes: heard.writes.push(super::storage::WriteModel::Snapshot(args.snapshot)).push(
            super::storage::WriteModel::RewriteLog(files.log),
        ),
        state: args.snapshot.state,
        commit_index: boundary,
        last_applied: boundary,
        captured: None,
        ..heard
    };
    let above = |q: PendingProposal| q.index > boundary;
    let below = |q: PendingProposal| q.index <= boundary;
    let hidden = bare.drop_hidden(boundary);
    let after = hidden.resolve_pending();
    assert(m.on_install_snapshot(args, now).0 == after);
    assert(bare.pending.contains(p));
    filter_keeps(bare.pending, above);
    filter_keeps(hidden.pending, |q: PendingProposal| !hidden.decided(q));
    if p.index <= boundary {
        lemma_filter_has(bare.pending, below, p);
        let gone = bare.pending.filter(below);
        let dropped = gone.map_values(
            |q: PendingProposal| EffectModel::<S::State>::DropProposal { ticket: q.ticket },
        );
        let i = choose|i: int| 0 <= i < gone.len() && gone[i] == p;
        assert(hidden.effects[bare.effects.len() + i] == dropped[i]);
        assert(after.effects[bare.effects.len() + i] == dropped[i]);
        if after.pending.contains(p) {
            let k = choose|k: int| 0 <= k < after.pending.len() && after.pending[k] == p;
            assert(hidden.pending.contains(after.pending[k]));
            let j = choose|j: int| 0 <= j < hidden.pending.len() && hidden.pending[j] == p;
            assert(above(hidden.pending[j]));
        }
    } else {
        lemma_filter_has(bare.pending, above, p);
        assert(hidden.pending.contains(p));
        assert(after.files == files);
        lemma_told(hidden, p);
    }
}

/// Refusals tell the truth: the reason that is given for refusing a change of
/// the configuration is one that stands against it, and whoever does not lead
/// refuses by naming the leader it knows.
pub proof fn refusals_name_a_true_reason<S: StateMachine>(
    m: NodeModel<S>,
    members: Arc<Membership>,
    ticket: u64,
    now: u64,
)
    requires
        m.files.wf(),
        m.commit_index >= m.files.snapshot_index(),
    ensures
        match m.on_propose(Command::ConfigChange { members }, ticket, now).1 {
            Ok(_) => m.role is Leader,
            Err(ProposeError::NotLeader { leader_hint }) => !(m.role is Leader) && leader_hint
                == m.leader_id,
            Err(ProposeError::InvalidConfigChange { reason }) => m.role is Leader && match reason {
                super::model::ConfigFault::NoopUncommitted => m.commit_index
                    < m.role->Leader_0.term_start_index,
                super::model::ConfigFault::ChangeInFlight => exists|i: int|
                    #![trigger m.files.log[i]]
                    0 <= i < m.files.log.len() && m.files.log[i].index > m.commit_index
                        && m.files.log[i].command is ConfigChange,
                super::model::ConfigFault::Empty => members.ids().len() == 0,
                super::model::ConfigFault::NotSingleServer => forall|id: NodeId|
                    #![trigger members.addrs().contains_key(id)]
                    members.addrs().contains_key(id) && !m.membership().addrs().contains_key(id)
                        ==> members.addrs().remove(id) != m.membership().addrs(),
                super::model::ConfigFault::MajorityUnreachable => forall|some: Set<NodeId>|
                    #![trigger outvotes(some, members.ids())]
                    outvotes(some, members.ids()) ==> exists|x: NodeId| #[trigger]
                        some.contains(x) && x != m.settings.id && !(
                        m.role->Leader_0.last_contact.contains_key(x)
                            && m.role->Leader_0.last_contact[x] <= now && now
                            - m.role->Leader_0.last_contact[x] < m.settings.election_timeout_max),
            },
            Err(ProposeError::Shutdown) => false,
        },
{
    if let RoleModel::Leader(leader) = m.role {
        if let Some(reason) = m.config_fault(leader, members, now) {
            if reason is ChangeInFlight {
                let i = choose|i: int|
                    #![trigger m.files.log[i]]
                    m.commit_index - m.files.snapshot_index() <= i < m.files.log.len()
                        && super::membership::config_of(m.files.log[i]) is Some;
                assert(m.files.log[i].index > m.commit_index);
            }
            if reason is MajorityUnreachable {
                assert forall|some: Set<NodeId>|
                    #![trigger outvotes(some, members.ids())]
                    outvotes(some, members.ids()) implies exists|x: NodeId| #[trigger]
                    some.contains(x) && x != m.settings.id && !(leader.last_contact.contains_key(x)
                        && leader.last_contact[x] <= now && now - leader.last_contact[x]
                        < m.settings.election_timeout_max) by {
                    if forall|x: NodeId| #[trigger]
                        some.contains(x) ==> x == m.settings.id || (leader.last_contact.contains_key(
                            x,
                        ) && leader.last_contact[x] <= now && now - leader.last_contact[x]
                            < m.settings.election_timeout_max) {
                        super::duties::passing_members_count(
                            members.ids(),
                            |x: NodeId| m.heard(leader, now, x),
                            some,
                        );
                    }
                }
            }
        }
    }
}

/// A node can go on as long as 64 bits last: its terms, its indexes, its
/// sequence numbers and the time are all that can run out.
pub proof fn there_is_room_until_numbers_run_out<S: StateMachine>(m: NodeModel<S>, now: u64)
    requires
        m.files.hard_state.current_term < u64::MAX,
        m.files.last_index() + 2 < u64::MAX,
        now + m.settings.election_timeout_max <= u64::MAX,
        now + m.settings.heartbeat_interval <= u64::MAX,
        m.role is Leader ==> m.role->Leader_0.heartbeat_seq < u64::MAX,
    ensures
        m.room(now),
        m.admits(NodeEvent::Timer, now),
        forall|command: Command, ticket: u64| #[trigger]
            m.admits(NodeEvent::Propose { command, ticket }, now),
        forall|ticket: u64| #[trigger] m.admits(NodeEvent::Read { ticket }, now),
{
}

/// A node runs with the parameters that it is given, each for what it is, and
/// starts with itself and its peers as members, at the addresses that the book
/// has for them; to join later, it starts with nobody.
pub proof fn a_node_runs_as_configured(
    config: &RaftConfig,
    bootstrap: Arc<Membership>,
    members: Membership,
    id: NodeId,
)
    requires
        config.starts_with(members),
    ensures
        config.settings(bootstrap).id == config.id,
        config.settings(bootstrap).bootstrap == bootstrap,
        config.settings(bootstrap).election_timeout_min == config.election_timeout_min,
        config.settings(bootstrap).election_timeout_max == config.election_timeout_max,
        config.settings(bootstrap).heartbeat_interval == config.heartbeat_interval,
        config.settings(bootstrap).snapshot_threshold == config.snapshot_threshold,
        config.settings(bootstrap).snapshot_trailing == config.snapshot_trailing,
        config.settings(bootstrap).max_append_bytes == config.max_append_bytes,
        members.addrs().contains_key(id) <==> !config.join && (id == config.id
            || config.peers@.contains(id)),
        members.addrs().contains_key(id) && config.bootstrap_addrs.addrs().contains_key(id)
            ==> members.addrs()[id] == config.bootstrap_addrs.addrs()[id],
        members.addrs().contains_key(id) && !config.bootstrap_addrs.addrs().contains_key(id)
            ==> members.addrs()[id].raft.len() == 0 && members.addrs()[id].client.len() == 0,
{
}

} // verus!
