//! Every transition of a node is a step of the cluster's history.

use vstd::prelude::*;

use super::agreement::{agree_at, sound_at};
use super::history::{
    Accepted, agree, entry_valid, last_term, majority, one_apart, sound, steady, History,
    Replica, Stage,
};
use super::machine::{run_in_parts, StateMachine};
use super::membership::{ascending, config_of, last_config, last_config_of_parts};
use super::model::{
    lookup, EffectModel, LeaderModel, NodeModel, PendingProposal, PendingRead, ReplyTag, RoleModel,
};
use super::progress::{
    append_keeps, campaign_keeps, commit_keeps, elect_keeps, follow_keeps, leader_commit_keeps,
};
use super::quorum::{quorum_exists, reaching};
use super::rpc::RequestModel;
use super::batch::{batch, batches_are_bounded};
use super::durability::{overlapping_log_opens, tail_above};
use super::storage::{Durable, WriteModel};
use super::ties::{
    all_pending_ok, backed, disk_of_tied, final_less, journal_tied, journal_write, leads_log,
    letter_ok, logged, moved, moved_nowhere, moves_compose, no_reads_compose, pending_ok, pending_stay,
    registers_no_read, role_tied, sends_ok, sends_stay, settled_write, snapshot_fits, tied, told_ok,
    Anchor,
};
use super::types::{HardState, LogEntry, LogIndex, NodeId, Term};
use super::upkeep::{
    apply_committed_settles, become_follower_keeps, commit_to_settles, compact_captured_keeps,
};

verus! {

// ---- what the files say ----

/// A backed log, read through the files.
pub proof fn backed_ends<S: StateMachine>(
    files: Durable<S::State>,
    log: Seq<LogEntry>,
    origin: S::State,
)
    requires
        backed::<S>(files, log, origin),
    ensures
        files.last_index() == log.len(),
        files.last_term() == last_term(log),
        files.membership() == last_config(log),
{
    let si = files.snapshot_index();
    if files.log.len() > 0 {
        assert(files.log.last() == log.last());
    }
    assert(files.log.take(files.log.len() as int) =~= files.log);
    assert(log.take(si) + log.skip(si) =~= log);
    last_config_of_parts(log.take(si), log.skip(si));
    if files.snapshot is None {
        assert(log.take(0) =~= Seq::<LogEntry>::empty());
    }
}

/// The term of an index, read through the files.
pub proof fn backed_term<S: StateMachine>(
    files: Durable<S::State>,
    log: Seq<LogEntry>,
    origin: S::State,
    index: int,
)
    requires
        backed::<S>(files, log, origin),
    ensures
        files.holds(index) ==> files.entry_at(index) == log[index - 1],
        files.term_at(index) == (if index < files.snapshot_index() || index > log.len() {
            None
        } else if index == 0 {
            Some(0)
        } else {
            Some(log[index - 1].term)
        }),
{
}

/// What a node's members are by its whole log.
pub proof fn members_by_log<S: StateMachine>(h: History, origin: S::State, n: NodeId, m: NodeModel<S>)
    requires
        h.inv(),
        tied(h, origin, n, m),
    ensures
        ascending(m.members()),
        m.members().len() == 0 || m.members().to_set() == h.config(h.replicas[n].log),
        m.files.last_index() == h.replicas[n].log.len(),
        m.is_leader() ==> m.members().len() > 0,
{
    let log = h.replicas[n].log;
    backed_ends::<S>(m.files, log, origin);
    assert(h.replica_ok(n, h.replicas[n]));
    if last_config(log) is Some {
        last_config_valid(h, log, log.len() as int);
        assert(log.take(log.len() as int) =~= log);
    }
}

/// A configuration of a sound log lists its members in order.
proof fn last_config_valid(h: History, log: Seq<LogEntry>, n: int)
    requires
        sound(h.reigns, log),
        0 <= n <= log.len(),
    ensures
        match last_config(log.take(n)) {
            Some(members) => ascending(members.ids()),
            None => true,
        },
        match last_config(log.take(n)) {
            Some(members) => members.ids().len() > 0,
            None => true,
        },
    decreases n,
{
    if n > 0 {
        assert(log.take(n).drop_last() =~= log.take(n - 1));
        assert(log.take(n).last() == log[n - 1]);
        sound_at(h.reigns, log, n - 1);
        last_config_valid(h, log, n - 1);
    }
}

// ---- majorities ----

/// A filter of an ordered list, counted as a set.
proof fn filter_count(ids: Seq<NodeId>, test: spec_fn(NodeId) -> bool, set: Set<NodeId>)
    requires
        ascending(ids),
        forall|id: NodeId| ids.contains(id) && test(id) ==> #[trigger] set.contains(id),
    ensures
        ids.to_set().finite(),
        ids.to_set().len() == ids.len(),
        ids.filter(test).len() <= ids.to_set().intersect(set).len(),
    decreases ids.len(),
{
    reveal(Seq::filter);
    assert(ids.no_duplicates());
    ids.unique_seq_to_set();
    if ids.len() == 0 {
        assert(ids.filter(test).len() == 0);
    } else {
        let init = ids.drop_last();
        let last = ids.last();
        assert forall|id: NodeId| init.contains(id) && test(id) implies #[trigger] set.contains(id) by {
            let k = choose|k: int| 0 <= k < init.len() && init[k] == id;
            assert(ids[k] == id);
        }
        filter_count(init, test, set);
        let small = init.to_set().intersect(set);
        let large = ids.to_set().intersect(set);
        assert forall|id: NodeId| small.contains(id) implies large.contains(id) by {
            let k = choose|k: int| 0 <= k < init.len() && init[k] == id;
            assert(ids[k] == id);
        }
        if test(last) {
            assert(ids.contains(last));
            assert(set.contains(last));
            if small.contains(last) {
                let k = choose|k: int| 0 <= k < init.len() && init[k] == last;
                assert(ids[k] < ids[ids.len() - 1]);
            }
            assert(small.insert(last).subset_of(large));
            vstd::set_lib::lemma_len_subset(small.insert(last), large);
        } else {
            vstd::set_lib::lemma_len_subset(small, large);
        }
    }
}

/// A majority of the node's members is a majority of its log's configuration.
pub proof fn majority_counts<S: StateMachine>(
    h: History,
    origin: S::State,
    n: NodeId,
    m: NodeModel<S>,
    test: spec_fn(NodeId) -> bool,
    set: Set<NodeId>,
)
    requires
        h.inv(),
        tied(h, origin, n, m),
        m.majority_of(test),
        forall|id: NodeId| m.members().contains(id) && test(id) ==> #[trigger] set.contains(id),
    ensures
        majority(h.config(h.replicas[n].log), set),
{
    members_by_log(h, origin, n, m);
    filter_count(m.members(), test, set);
}

/// Filtering by value is filtering by what has the value.
proof fn reaching_counts(ids: Seq<NodeId>, value: spec_fn(NodeId) -> u64, bound: u64)
    ensures
        reaching(ids.map_values(value), bound) == ids.filter(|id: NodeId| value(id) >= bound).len(),
    decreases ids.len(),
{
    reveal(Seq::filter);
    let values = ids.map_values(value);
    if ids.len() > 0 {
        reaching_counts(ids.drop_last(), value, bound);
        assert(values.drop_last() =~= ids.drop_last().map_values(value));
    }
}

// ---- effects ----

pub proof fn emit_sends<S: StateMachine>(
    h: History,
    origin: S::State,
    n: NodeId,
    a: Seq<EffectModel<S::State>>,
    b: Seq<EffectModel<S::State>>,
)
    requires
        sends_ok::<S>(h, origin, n, a),
        sends_ok::<S>(h, origin, n, b),
    ensures
        sends_ok::<S>(h, origin, n, a + b),
{
    let c = a + b;
    assert forall|i: int| #![trigger c[i]] 0 <= i < c.len() implies match c[i] {
        EffectModel::Send { to, request, tag } => letter_ok::<S>(h, origin, n, request, tag),
        EffectModel::Resolve { ticket, committed } => committed ==> told_ok(h, n, ticket),
        _ => true,
    } by {
        if i < a.len() {
            assert(c[i] == a[i]);
        } else {
            assert(c[i] == b[i - a.len()]);
        }
    }
}

// ---- following ----

/// Following in one's own term or a later one.
pub proof fn become_follower_moves<S: StateMachine>(
    h: History,
    o: Anchor<S>,
    n: NodeId,
    m: NodeModel<S>,
    term: Term,
    leader_id: Option<NodeId>,
    now: u64,
) -> (h2: History)
    requires
        h.inv(),
        logged(h, o, n, m),
        term >= m.term(),
    ensures
        h2.inv(),
        moved(h, h2, n),
        logged(h2, o, n, m.become_follower(term, leader_id, now)),
        h2.reigns == h.reigns,
        h2.replicas[n].log == h.replicas[n].log,
        h2.replicas[n].stage == Stage::Follower,
        h2.replicas[n].term == term,
        h2.bids == h.bids,
{
    let h2 = follow_keeps(h, n, term);
    let m2 = m.become_follower(term, leader_id, now);
    become_follower_keeps(m, term, leader_id, now);
    sends_stay::<S>(h, h2, o.origin, n, m.effects);
    pending_stay(h, h2, n, m.pending);
    emit_sends::<S>(h2, o.origin, n, m.effects, m.dropped_reads());
    assert(m2.effects =~= m.effects + m.dropped_reads());
    no_reads_compose(o.start, h, h2, n);
    assert(tied(h2, o.origin, n, m2));
    if term > m.term() {
        journal_tied(
            h2,
            o,
            n,
            m,
            m2,
            WriteModel::HardState(HardState { current_term: term, voted_for: None }),
        );
    }
    h2
}

// ---- committing ----

/// Proposals that wait on were waiting before.
pub proof fn pending_left<S: StateMachine>(h: History, n: NodeId, x: NodeModel<S>)
    requires
        all_pending_ok(h, n, x.pending),
    ensures
        all_pending_ok(h, n, x.resolve_pending().pending),
{
    let left = x.resolve_pending().pending;
    super::upkeep::resolve_pending_keeps(x);
    assert forall|i: int| #![trigger left[i]] 0 <= i < left.len() implies pending_ok(h, n, left[i]) by {
        assert(x.pending.contains(left[i]));
        let k = choose|k: int| 0 <= k < x.pending.len() && x.pending[k] == left[i];
        assert(pending_ok(h, n, x.pending[k]));
    }
}

/// A proposal told "committed" is.
proof fn verdicts_ok<S: StateMachine>(h: History, origin: S::State, n: NodeId, m: NodeModel<S>)
    requires
        h.inv(),
        tied(h, origin, n, m),
    ensures
        sends_ok::<S>(
            h,
            origin,
            n,
            m.apply_backlog().pending.filter(
                |p: PendingProposal| m.apply_backlog().decided(p),
            ).map_values(|p: PendingProposal| m.apply_backlog().verdict(p)),
        ),
{
    let x = m.apply_backlog();
    let decided = |p: PendingProposal| x.decided(p);
    let told = x.pending.filter(decided);
    let verdicts = told.map_values(|p: PendingProposal| x.verdict(p));
    super::upkeep::filter_keeps(x.pending, decided);
    assert forall|i: int| #![trigger verdicts[i]] 0 <= i < verdicts.len() implies match verdicts[i] {
        EffectModel::Send { to, request, tag } => letter_ok::<S>(h, origin, n, request, tag),
        EffectModel::Resolve { ticket, committed } => committed ==> told_ok(h, n, ticket),
        _ => true,
    } by {
        let p = told[i];
        assert(decided(p));
        assert(x.pending.contains(p));
        let k = choose|k: int| 0 <= k < x.pending.len() && x.pending[k] == p;
        assert(pending_ok(h, n, m.pending[k]));
        if m.files.term_at(p.index as int) == Some(p.term) {
            write_told(h, origin, n, m, p);
        }
    }
}

/// A proposal that the log still holds, at or below the commit point.
proof fn write_told<S: StateMachine>(
    h: History,
    origin: S::State,
    n: NodeId,
    m: NodeModel<S>,
    p: PendingProposal,
)
    requires
        h.inv(),
        tied(h, origin, n, m),
        pending_ok(h, n, p),
        m.files.term_at(p.index as int) == Some(p.term),
        p.index <= m.commit_index,
    ensures
        told_ok(h, n, p.ticket),
{
    let w = choose|w: Accepted| #[trigger]
        h.accepted.contains(w) && w.node == n && w.ticket == p.ticket && w.entry.term == p.term
            && w.entry.index == p.index;
    let r = h.replicas[n];
    let k = p.index - 1;
    assert(h.replica_ok(n, r));
    assert(h.accepted_ok(w));
    backed_term::<S>(m.files, r.log, origin, p.index as int);
    sound_at(h.reigns, r.log, k);
    agree_at(r.log, h.reigns[p.term].log, p.index as int, k);
    let (t, i, q) = choose|t: Term, i: int, q: int| #[trigger]
        h.vouched(t, i, q) && t <= r.term && r.commit <= i && agree(
            h.reigns[t].log,
            r.log,
            r.commit as int,
        );
    agree_at(h.reigns[t].log, r.log, r.commit as int, k);
    assert(settled_write(h, w, r.term));
}

/// Applying what is committed moves no one: it only turns log into snapshot.
#[verifier::rlimit(30)]
pub proof fn apply_committed_tied<S: StateMachine>(
    h: History,
    o: Anchor<S>,
    n: NodeId,
    m: NodeModel<S>,
)
    requires
        h.inv(),
        logged(h, o, n, m),
    ensures
        logged(h, o, n, m.apply_committed()),
{
    apply_committed_settles(m);
    let told = m.apply_backlog().resolve_pending();
    let granted = told.resolve_reads();
    let log = h.replicas[n].log;
    let verdicts = m.apply_backlog().pending.filter(
        |p: PendingProposal| m.apply_backlog().decided(p),
    ).map_values(|p: PendingProposal| m.apply_backlog().verdict(p));
    verdicts_ok(h, o.origin, n, m);
    emit_sends::<S>(h, o.origin, n, m.effects, verdicts);
    assert(told.effects == m.effects + verdicts);
    pending_left(h, n, m.apply_backlog());
    if let RoleModel::Leader(leader) = told.role {
        let grants = leader.pending_reads.filter(
            |read: PendingRead| told.servable(leader.acked_seq, read),
        ).map_values(|read: PendingRead| EffectModel::<S::State>::GrantRead { ticket: read.ticket });
        emit_sends::<S>(h, o.origin, n, told.effects, grants);
        assert(granted.effects == told.effects + grants);
        reads_left(h, h.replicas[n], told);
    }
    assert(logged(h, o, n, granted));
    let caught = granted.maybe_capture();
    assert(logged(h, o, n, caught)) by {
        super::upkeep::maybe_compact_keeps(granted);
    }
    compact_tied(h, o, n, caught);
}

/// Compaction keeps the whole log what it was.
#[verifier::rlimit(30)]
proof fn compact_tied<S: StateMachine>(h: History, o: Anchor<S>, n: NodeId, m: NodeModel<S>)
    requires
        h.inv(),
        logged(h, o, n, m),
    ensures
        logged(h, o, n, m.compact_captured()),
{
    compact_captured_keeps(m);
    if let Some(capture) = m.captured {
        if m.last_applied - capture.index >= m.settings.snapshot_trailing {
            let log = h.replicas[n].log;
            let si = m.files.snapshot_index();
            let at = capture.index as int;
            let snapshot = m.files.compaction(capture.index, capture.state);
            backed_term::<S>(m.files, log, o.origin, at);
            backed_ends::<S>(m.files, log, o.origin);
            assert(m.files.log.take(at - si) =~= log.subrange(si, at));
            assert(log.take(si) + log.subrange(si, at) =~= log.take(at));
            last_config_of_parts(log.take(si), log.subrange(si, at));
            run_in_parts::<S>(o.origin, log.take(si), log.subrange(si, at));
            if m.files.snapshot is None {
                assert(log.take(0) =~= Seq::<LogEntry>::empty());
            }
            assert(snapshot_fits::<S>(snapshot, log, o.origin));
            assert(m.files.entries_from(at + 1) =~= log.skip(at));
            let m2 = m.compact_captured();
            assert(tied(h, o.origin, n, m2));
            disk_of_tied(h, o.origin, n, m2);
            let between = m.files.after(WriteModel::Snapshot(snapshot));
            overlapping_log_opens(between, si + 1);
            tail_above(m.files.log, si + 1, at);
            assert(between.reopened() =~= m2.files);
            journal_write(o, n, m.writes, m.files, WriteModel::Snapshot(snapshot), h);
            assert(between.after(WriteModel::RewriteLog(m2.files.log)) =~= m2.files);
            journal_write(
                o,
                n,
                m.writes.push(WriteModel::Snapshot(snapshot)),
                between,
                WriteModel::RewriteLog(m2.files.log),
                h,
            );
        }
    }
}

/// A node whose commit point has moved in the history applies the rest.
proof fn commit_to_tied<S: StateMachine>(
    h: History,
    h2: History,
    o: Anchor<S>,
    n: NodeId,
    m: NodeModel<S>,
    index: LogIndex,
)
    requires
        logged(h, o, n, m),
        h2.inv(),
        registers_no_read(h, h2, n),
        h2.replicas[n] == (Replica { commit: index as nat, ..h.replicas[n] }),
        m.is_leader() ==> h.reigns.contains_key(m.term()) && h2.reigns[m.term()].pulses
            == h.reigns[m.term()].pulses,
        m.commit_index <= index <= h.replicas[n].log.len(),
    ensures
        logged(h2, o, n, m.commit_to(index)),
{
    backed_ends::<S>(m.files, h.replicas[n].log, o.origin);
    commit_to_settles(m, index);
    sends_stay::<S>(h, h2, o.origin, n, m.effects);
    pending_stay(h, h2, n, m.pending);
    assert(h2.replicas.dom().contains(n));
    let bare = NodeModel { commit_index: index, ..m };
    no_reads_compose(o.start, h, h2, n);
    if let RoleModel::Leader(leader) = m.role {
        assert forall|id: NodeId| #[trigger] leader.match_index.contains_key(id) implies h2.held_by(
            id,
            m.term(),
        ) >= leader.match_index[id] by {
            assert(h2.held_by(id, m.term()) >= h.held_by(id, m.term()));
        }
    }
    assert(logged(h2, o, n, bare));
    apply_committed_tied(h2, o, n, bare);
}

/// A higher commit point that the history bears out, for a follower.
pub proof fn commit_to_moves<S: StateMachine>(
    h: History,
    o: Anchor<S>,
    n: NodeId,
    m: NodeModel<S>,
    index: LogIndex,
) -> (h2: History)
    requires
        h.inv(),
        logged(h, o, n, m),
        !m.is_leader(),
        m.commit_index <= index <= h.replicas[n].log.len(),
        h.final_through(h.replicas[n].log, index as int, h.replicas[n].term),
    ensures
        h2.inv(),
        moved(h, h2, n),
        logged(h2, o, n, m.commit_to(index)),
        h2 == h.with_replica(n, Replica { commit: index as nat, ..h.replicas[n] }),
{
    let h2 = commit_keeps(h, n, index as nat);
    commit_to_tied(h, h2, o, n, m, index);
    h2
}

/// A leader's commit.
#[verifier::rlimit(30)]
pub proof fn maybe_advance_commit_moves<S: StateMachine>(
    h: History,
    o: Anchor<S>,
    n: NodeId,
    m: NodeModel<S>,
    now: u64,
) -> (h2: History)
    requires
        h.inv(),
        logged(h, o, n, m),
    ensures
        h2.inv(),
        moved(h, h2, n),
        logged(h2, o, n, m.maybe_advance_commit(now)),
        h2.replicas[n].log == h.replicas[n].log,
        h2.replicas[n].term == h.replicas[n].term,
        m.is_leader() ==> leads_log(h2, n, m.term()),
{
    assert(h.replica_ok(n, h.replicas[n]));
    moved_nowhere(h, n);
    match m.role {
        RoleModel::Leader(leader) => {
            let index = m.quorum_index(leader);
            let log = h.replicas[n].log;
            backed_ends::<S>(m.files, log, o.origin);
            backed_term::<S>(m.files, log, o.origin, index as int);
            if m.members().len() > 0 && index > m.commit_index && m.files.term_at(index as int) == Some(
                m.term(),
            ) {
                quorum_held(h, o.origin, n, m, leader);
                assert(h.replica_ok(n, h.replicas[n]));
                leader_commit_keeps(h, n, index as int);
                let h2 = h.found_committed(n, index as int);
                commit_to_tied(h, h2, o, n, m, index);
                let done = m.commit_to(index);
                if done.is_leader() && !done.is_member() && !done.change_in_flight() {
                    let h3 = become_follower_moves(h2, o, n, done, done.term(), None, now);
                    moves_compose(h, h2, h3, n);
                    h3
                } else {
                    h2
                }
            } else {
                h
            }
        },
        _ => h,
    }
}

/// The quorum index is held by a majority of the configuration.
proof fn quorum_held<S: StateMachine>(
    h: History,
    origin: S::State,
    n: NodeId,
    m: NodeModel<S>,
    leader: LeaderModel,
)
    requires
        h.inv(),
        tied(h, origin, n, m),
        m.role == RoleModel::Leader(leader),
        m.members().len() > 0,
        m.quorum_index(leader) > 0,
    ensures
        majority(
            h.config(h.replicas[n].log),
            h.holders(h.replicas[n].term, m.quorum_index(leader) as int),
        ),
{
    let index = m.quorum_index(leader);
    let value = |id: NodeId|
        if id == m.settings.id {
            m.files.last_index() as u64
        } else {
            lookup(leader.match_index, id, 0)
        };
    let r = h.replicas[n];
    assert(m.replicated(leader) =~= m.members().map_values(value));
    quorum_exists(m.replicated(leader), m.majority());
    reaching_counts(m.members(), value, index);
    let test = |id: NodeId| value(id) >= index;
    assert(m.majority_of(test));
    assert(h.replica_ok(n, r));
    backed_ends::<S>(m.files, r.log, origin);
    assert forall|id: NodeId| m.members().contains(id) && test(id) implies #[trigger] h.holders(
        r.term,
        index as int,
    ).contains(id) by {
        if id != n {
            assert(leader.match_index.contains_key(id));
        }
    }
    majority_counts(h, origin, n, m, test, h.holders(r.term, index as int));
}

// ---- replicating ----

/// What a leader sends is a stretch of its log, or its snapshot.
proof fn replication_ok<S: StateMachine>(
    h: History,
    origin: S::State,
    n: NodeId,
    m: NodeModel<S>,
    leader: LeaderModel,
    peer: NodeId,
)
    requires
        h.inv(),
        tied(h, origin, n, m),
        m.role == RoleModel::Leader(leader),
        h.replicas[n].log.len() + 1 < u64::MAX,
    ensures
        sends_ok::<S>(h, origin, n, seq![m.replication(leader, peer)]),
{
    let r = h.replicas[n];
    let log = r.log;
    assert(h.replica_ok(n, r));
    backed_ends::<S>(m.files, log, origin);
    let next = lookup(leader.next_index, peer, (m.files.last_index() + 1) as u64);
    let si = m.files.snapshot_index();
    if next <= si {
        final_less(h, log, r.commit as int, si, r.term);
    } else {
        backed_term::<S>(m.files, log, origin, next - 1);
        let tail = m.files.entries_from(next as int);
        assert(tail =~= log.subrange(next - 1, log.len() as int));
        batches_are_bounded(tail, m.settings.max_append_bytes);
        let sent = batch(tail, m.settings.max_append_bytes);
        assert(sent =~= log.subrange(next - 1, next - 1 + sent.len()));
    }
}

pub proof fn broadcast_tied<S: StateMachine>(h: History, origin: S::State, n: NodeId, m: NodeModel<S>)
    requires
        h.inv(),
        tied(h, origin, n, m),
        h.replicas[n].log.len() + 1 < u64::MAX,
    ensures
        tied(h, origin, n, m.broadcast()),
{
    if let RoleModel::Leader(leader) = m.role {
        let sends = m.peers().map_values(|peer: NodeId| m.replication(leader, peer));
        assert forall|i: int| #![trigger sends[i]] 0 <= i < sends.len() implies match sends[i] {
            EffectModel::Send { to, request, tag } => letter_ok::<S>(h, origin, n, request, tag),
            EffectModel::Resolve { ticket, committed } => committed ==> told_ok(h, n, ticket),
            _ => true,
        } by {
            let peer = m.peers()[i];
            replication_ok(h, origin, n, m, leader, peer);
            assert(seq![m.replication(leader, peer)][0] == sends[i]);
        }
        emit_sends::<S>(h, origin, n, m.effects, sends);
    }
}

pub proof fn send_append_tied<S: StateMachine>(
    h: History,
    origin: S::State,
    n: NodeId,
    m: NodeModel<S>,
    peer: NodeId,
)
    requires
        h.inv(),
        tied(h, origin, n, m),
        h.replicas[n].log.len() + 1 < u64::MAX,
    ensures
        tied(h, origin, n, m.send_append(peer)),
{
    if let RoleModel::Leader(leader) = m.role {
        replication_ok(h, origin, n, m, leader, peer);
        emit_sends::<S>(h, origin, n, m.effects, seq![m.replication(leader, peer)]);
    }
}

/// Reads that wait on were waiting before.
proof fn reads_left<S: StateMachine>(h: History, r: Replica, m: NodeModel<S>)
    requires
        role_tied(h, m.role, r),
    ensures
        role_tied(h, m.resolve_reads().role, r),
{
    if let RoleModel::Leader(leader) = m.role {
        let left = |read: PendingRead| !m.servable(leader.acked_seq, read);
        super::upkeep::filter_keeps(leader.pending_reads, left);
        let reads = leader.pending_reads.filter(left);
        assert forall|i: int| #![trigger reads[i]] 0 <= i < reads.len() implies super::ties::read_ok(
            h,
            r.term,
            reads[i],
        ) by {
            assert(leader.pending_reads.contains(reads[i]));
            let k = choose|k: int|
                0 <= k < leader.pending_reads.len() && leader.pending_reads[k] == reads[i];
            assert(super::ties::read_ok(h, r.term, leader.pending_reads[k]));
        }
    }
}

pub proof fn resolve_reads_tied<S: StateMachine>(
    h: History,
    origin: S::State,
    n: NodeId,
    m: NodeModel<S>,
)
    requires
        h.inv(),
        tied(h, origin, n, m),
    ensures
        tied(h, origin, n, m.resolve_reads()),
{
    if let RoleModel::Leader(leader) = m.role {
        let grants = leader.pending_reads.filter(
            |read: PendingRead| m.servable(leader.acked_seq, read),
        ).map_values(|read: PendingRead| EffectModel::<S::State>::GrantRead { ticket: read.ticket });
        emit_sends::<S>(h, origin, n, m.effects, grants);
        reads_left(h, h.replicas[n], m);
    }
}

/// A leader's tick: it replicates, or steps down.
pub proof fn heartbeat_moves<S: StateMachine>(
    h: History,
    o: Anchor<S>,
    n: NodeId,
    m: NodeModel<S>,
    now: u64,
) -> (h2: History)
    requires
        h.inv(),
        logged(h, o, n, m),
        h.replicas[n].log.len() + 1 < u64::MAX,
    ensures
        h2.inv(),
        moved(h, h2, n),
        logged(h2, o, n, m.on_heartbeat_tick(now)),
        m.is_leader() ==> leads_log(h2, n, m.term()),
{
    assert(h.replica_ok(n, h.replicas[n]));
    moved_nowhere(h, n);
    match m.role {
        RoleModel::Leader(leader) => {
            if m.hears_majority(leader, now) {
                broadcast_tied(h, o.origin, n, m);
                h
            } else {
                become_follower_moves(h, o, n, m, m.term(), None, now)
            }
        },
        _ => h,
    }
}

/// A leader's append.
#[verifier::rlimit(30)]
pub proof fn leader_append_moves<S: StateMachine>(
    h: History,
    o: Anchor<S>,
    n: NodeId,
    m: NodeModel<S>,
    entry: LogEntry,
) -> (h2: History)
    requires
        h.inv(),
        logged(h, o, n, m),
        m.is_leader(),
        entry.term == m.term(),
        entry.index == m.files.last_index() + 1,
        m.files.last_index() + 1 <= u64::MAX,
        entry_valid(entry),
        config_of(entry) is Some ==> {
            let r = h.replicas[n];
            &&& one_apart(h.config(r.log), h.config(r.log.push(entry)))
            &&& r.commit > h.reigns[r.term].start.len()
            &&& steady(r.log, r.commit as int, r.log.len() as int)
        },
    ensures
        h2.inv(),
        moved(h, h2, n),
        logged(h2, o, n, m.append(seq![entry])),
        h2.replicas[n].log == h.replicas[n].log.push(entry),
{
    let r = h.replicas[n];
    backed_ends::<S>(m.files, r.log, o.origin);
    append_keeps(h, n, entry);
    let h2 = h.appended(n, entry);
    let m2 = m.append(seq![entry]);
    super::upkeep::append_keeps(m, seq![entry]);
    sends_stay::<S>(h, h2, o.origin, n, m.effects);
    pending_stay(h, h2, n, m.pending);
    let log = r.log.push(entry);
    let si = m.files.snapshot_index();
    assert(m2.files.log =~= log.skip(si));
    assert(log.take(si) =~= r.log.take(si));
    assert(log.drop_last() =~= r.log);
    if let RoleModel::Leader(leader) = m.role {
        assert forall|id: NodeId| #[trigger] leader.match_index.contains_key(id) implies h2.held_by(
            id,
            r.term,
        ) >= leader.match_index[id] by {
            assert(h2.held_by(id, r.term) >= h.held_by(id, r.term));
        }
    }
    no_reads_compose(o.start, h, h2, n);
    assert(tied(h2, o.origin, n, m2));
    assert(m2.files =~= m.files.after(WriteModel::AppendLog(seq![entry])));
    journal_tied(h2, o, n, m, m2, WriteModel::AppendLog(seq![entry]));
    h2
}

// ---- elections ----

/// An elected candidate leads.
#[verifier::rlimit(30)]
pub proof fn become_leader_moves<S: StateMachine>(
    h: History,
    o: Anchor<S>,
    n: NodeId,
    m: NodeModel<S>,
    now: u64,
) -> (h2: History)
    requires
        h.inv(),
        logged(h, o, n, m),
        m.settled(),
        m.role matches RoleModel::Candidate { votes } && m.majority_of(|id: NodeId| votes.contains(id)),
        m.files.last_index() + 2 < u64::MAX,
    ensures
        h2.inv(),
        moved(h, h2, n),
        logged(h2, o, n, m.become_leader(now)),
{
    let votes = m.role->Candidate_votes;
    let r = h.replicas[n];
    backed_ends::<S>(m.files, r.log, o.origin);
    members_by_log(h, o.origin, n, m);
    majority_counts(h, o.origin, n, m, |id: NodeId| votes.contains(id), votes);
    elect_keeps(h, n);
    let h1 = h.elected(n, votes);
    super::upkeep::become_leader_keeps(m, now);
    let bare = NodeModel {
        role: RoleModel::Leader(m.fresh_leader(now)),
        leader_id: Some(m.settings.id),
        ..m
    };
    sends_stay::<S>(h, h1, o.origin, n, m.effects);
    pending_stay(h, h1, n, m.pending);
    if m.members().len() == 0 {
        reveal(Seq::filter);
        assert(m.members().filter(|id: NodeId| votes.contains(id)).len() == 0);
    }
    no_reads_compose(o.start, h, h1, n);
    assert(logged(h1, o, n, bare));
    let h2 = leader_append_moves(h1, o, n, bare, m.noop());
    moves_compose(h, h1, h2, n);
    let held = bare.append(seq![m.noop()]);
    let h3 = maybe_advance_commit_moves(h2, o, n, held, now);
    moves_compose(h, h2, h3, n);
    let h4 = heartbeat_moves(h3, o, n, held.maybe_advance_commit(now), now);
    moves_compose(h, h3, h4, n);
    h4
}

/// A candidate with enough votes leads; any other waits on.
pub proof fn maybe_become_leader_moves<S: StateMachine>(
    h: History,
    o: Anchor<S>,
    n: NodeId,
    m: NodeModel<S>,
    now: u64,
) -> (h2: History)
    requires
        h.inv(),
        logged(h, o, n, m),
        m.settled(),
        m.files.last_index() + 2 < u64::MAX,
    ensures
        h2.inv(),
        moved(h, h2, n),
        logged(h2, o, n, m.maybe_become_leader(now)),
{
    moved_nowhere(h, n);
    match m.role {
        RoleModel::Candidate { votes } => {
            if m.majority_of(|id: NodeId| votes.contains(id)) {
                become_leader_moves(h, o, n, m, now)
            } else {
                h
            }
        },
        _ => h,
    }
}

/// A real election.
#[verifier::rlimit(30)]
pub proof fn start_election_moves<S: StateMachine>(
    h: History,
    o: Anchor<S>,
    n: NodeId,
    m: NodeModel<S>,
    now: u64,
) -> (h2: History)
    requires
        h.inv(),
        logged(h, o, n, m),
        m.settled(),
        m.term() < u64::MAX,
        m.files.last_index() + 2 < u64::MAX,
    ensures
        h2.inv(),
        moved(h, h2, n),
        logged(h2, o, n, m.start_election(now)),
{
    let r = h.replicas[n];
    backed_ends::<S>(m.files, r.log, o.origin);
    campaign_keeps(h, n);
    let h1 = h.campaigned(n);
    let m1 = m.candidacy(now);
    super::upkeep::candidacy_keeps(m, now);
    sends_stay::<S>(h, h1, o.origin, n, m.effects);
    pending_stay(h, h1, n, m.pending);
    let term = (m.term() + 1) as u64;
    let sends = m.peers().map_values(
        |peer: NodeId|
            EffectModel::<S::State>::Send {
                to: peer,
                request: RequestModel::RequestVote(m.ballot(term)),
                tag: ReplyTag::Vote { sent_term: term },
            },
    );
    assert(h1.bids.contains_key((n, term)));
    emit_sends::<S>(h1, o.origin, n, m.effects, sends);
    assert(m1.effects =~= m.effects + sends);
    no_reads_compose(o.start, h, h1, n);
    assert(tied(h1, o.origin, n, m1));
    journal_tied(
        h1,
        o,
        n,
        m,
        m1,
        WriteModel::HardState(HardState { current_term: term, voted_for: Some(n) }),
    );
    let h2 = maybe_become_leader_moves(h1, o, n, m1, now);
    moves_compose(h, h1, h2, n);
    h2
}

/// A pre-candidate with enough pre-votes starts the election.
pub proof fn maybe_start_election_moves<S: StateMachine>(
    h: History,
    o: Anchor<S>,
    n: NodeId,
    m: NodeModel<S>,
    now: u64,
) -> (h2: History)
    requires
        h.inv(),
        logged(h, o, n, m),
        m.settled(),
        m.term() < u64::MAX,
        m.files.last_index() + 2 < u64::MAX,
    ensures
        h2.inv(),
        moved(h, h2, n),
        logged(h2, o, n, m.maybe_start_election(now)),
{
    moved_nowhere(h, n);
    match m.role {
        RoleModel::PreCandidate { votes } => {
            if m.majority_of(|id: NodeId| votes.contains(id)) {
                start_election_moves(h, o, n, m, now)
            } else {
                h
            }
        },
        _ => h,
    }
}

/// An election timeout.
#[verifier::rlimit(30)]
pub proof fn election_timeout_moves<S: StateMachine>(
    h: History,
    o: Anchor<S>,
    n: NodeId,
    m: NodeModel<S>,
    now: u64,
) -> (h2: History)
    requires
        h.inv(),
        logged(h, o, n, m),
        m.settled(),
        m.term() < u64::MAX,
        m.files.last_index() + 2 < u64::MAX,
    ensures
        h2.inv(),
        moved(h, h2, n),
        logged(h2, o, n, m.on_election_timeout(now)),
{
    moved_nowhere(h, n);
    if m.is_member() {
        let h1 = become_follower_moves(h, o, n, m, m.term(), None, now);
        let m1 = m.pre_campaign(now);
        super::upkeep::on_election_timeout_keeps(m, now);
        let prospective = (m.term() + 1) as u64;
        let sends = m.peers().map_values(
            |peer: NodeId|
                EffectModel::<S::State>::Send {
                    to: peer,
                    request: RequestModel::PreVote(m.ballot(prospective)),
                    tag: ReplyTag::PreVote { sent_term: prospective },
                },
        );
        sends_stay::<S>(h, h1, o.origin, n, m.effects);
        pending_stay(h, h1, n, m.pending);
        emit_sends::<S>(h1, o.origin, n, m.effects, sends);
        assert(m1.effects =~= m.effects + sends);
        assert(logged(h1, o, n, m1));
        let h2 = maybe_start_election_moves(h1, o, n, m1, now);
        moves_compose(h, h1, h2, n);
        h2
    } else {
        h
    }
}

} // verus!
