//! What a cluster promises, over every run of it: whatever the network does
//! to messages, whichever nodes crash and restart, and however the
//! configuration changes.

use vstd::prelude::*;

use super::agreement::{
    agree_across, agree_at, agree_back, agree_takes, logs_match, no_later_leader,
};
use super::cluster::{
    crash_moves, execution, explains, explains_run, explains_step, node_moves, records, run_explained,
    run_explained_with, Answer, Cluster, ClusterEvent,
};
use super::duties::{
    has_own_entry, leads_in_order, outvotes, what_a_majority_holds_is_committed,
};
use super::history::{agree, Accepted, History, Pulse};
use super::machine::{run, run_in_parts, StateMachine};
use super::model::{
    EffectModel, NodeModel, PendingProposal, PendingRead, Proposal, ProposeError, ReplyTag,
};
use super::moves::{backed_ends, backed_term, majority_counts};
use super::outcomes::{answered, a_write_that_a_majority_holds_is_confirmed};
use super::progress::{final_in_reign, final_stays};
use super::reads::{confirms, grants_are_earned, registered};
use super::rpc::{AppendEntriesReply, RequestVoteReply, RpcResponse};
use super::ties::{
    answer_ok, disk_of_tied, extends_compose, final_less, moved, moved_nowhere, read_ok,
    settled_write, settled_write_stays, tied, told_ok,
};
use super::types::{HardState, LogEntry, LogIndex, NodeId, Term};

verus! {

/// A history grows along a run.
proof fn histories_grow(hs: Seq<History>, i: int, j: int)
    requires
        forall|k: int| #![trigger hs[k]] 0 <= k < hs.len() - 1 ==> hs[k + 1].extends(hs[k]),
        0 <= i <= j < hs.len(),
    ensures
        hs[j].extends(hs[i]),
    decreases j - i,
{
    if i == j {
        moved_nowhere(hs[i], 0);
    } else {
        histories_grow(hs, i, j - 1);
        assert(hs[j - 1 + 1].extends(hs[j - 1]));
        extends_compose(hs[i], hs[j - 1], hs[j]);
    }
}

/// What an explained node is.
proof fn node_explained<S: StateMachine>(h: History, origin: S::State, c: Cluster<S>, id: NodeId)
    requires
        explains(h, origin, c),
        c.nodes.contains_key(id),
    ensures
        h.inv(),
        tied(h, origin, id, c.nodes[id]),
        c.nodes[id].settled(),
        c.nodes[id].effects.len() == 0,
        h.replica_ok(id, h.replicas[id]),
{
    reveal(explains);
}

/// At most one leader per term: at no two points of a run do two different
/// nodes lead the same term.
pub proof fn at_most_one_leader_per_term<S: StateMachine>(
    trace: Seq<Cluster<S>>,
    founders: Set<NodeId>,
    origin: S::State,
    i: int,
    j: int,
    a: NodeId,
    b: NodeId,
)
    requires
        execution(trace, founders, origin),
        0 <= i < trace.len(),
        0 <= j < trace.len(),
        trace[i].nodes.contains_key(a),
        trace[j].nodes.contains_key(b),
        trace[i].nodes[a].is_leader(),
        trace[j].nodes[b].is_leader(),
        trace[i].nodes[a].term() == trace[j].nodes[b].term(),
    ensures
        a == b,
{
    let hs = run_explained(trace, founders, origin);
    assert(explains(hs[i], origin, trace[i]));
    assert(explains(hs[j], origin, trace[j]));
    node_explained(hs[i], origin, trace[i], a);
    node_explained(hs[j], origin, trace[j], b);
    let t = trace[i].nodes[a].term();
    assert(hs[i].reigns.contains_key(t) && hs[j].reigns.contains_key(t));
    if i <= j {
        histories_grow(hs, i, j);
    } else {
        histories_grow(hs, j, i);
    }
}

/// Committed beginnings of two logs agree.
proof fn finals_agree(
    h: History,
    a: Seq<LogEntry>,
    b: Seq<LogEntry>,
    k: int,
    ta: Term,
    tb: Term,
)
    requires
        h.inv(),
        h.final_through(a, k, ta),
        h.final_through(b, k, tb),
        0 <= k <= a.len(),
        k <= b.len(),
    ensures
        agree(a, b, k),
{
    if k > 0 {
        let (t1, i1, q1) = choose|t: Term, i: int, q: int| #[trigger]
            h.vouched(t, i, q) && t <= ta && k <= i && agree(h.reigns[t].log, a, k);
        let (t2, i2, q2) = choose|t: Term, i: int, q: int| #[trigger]
            h.vouched(t, i, q) && t <= tb && k <= i && agree(h.reigns[t].log, b, k);
        if t1 <= t2 {
            assert(h.vouched(t1, i1, q1) && t1 <= t1);
            final_in_reign(h, a, k, t1, t2);
            agree_across(a, h.reigns[t2].log, b, k);
        } else {
            assert(h.vouched(t2, i2, q2) && t2 <= t2);
            final_in_reign(h, b, k, t2, t1);
            agree_across(b, h.reigns[t1].log, a, k);
            agree_back(b, a, k);
        }
    } else {
        reveal(agree);
    }
}

/// What two nodes have committed, at whatever points of a run, agrees.
proof fn commits_agree<S: StateMachine>(
    hs: Seq<History>,
    trace: Seq<Cluster<S>>,
    origin: S::State,
    i: int,
    j: int,
    a: NodeId,
    b: NodeId,
    k: int,
)
    requires
        explains_run(hs, origin, trace),
        0 <= i < trace.len(),
        0 <= j < trace.len(),
        trace[i].nodes.contains_key(a),
        trace[j].nodes.contains_key(b),
        0 <= k <= trace[i].nodes[a].commit_index,
        k <= trace[j].nodes[b].commit_index,
    ensures
        agree(hs[i].replicas[a].log, hs[j].replicas[b].log, k),
{
    assert(explains(hs[i], origin, trace[i]));
    assert(explains(hs[j], origin, trace[j]));
    node_explained(hs[i], origin, trace[i], a);
    node_explained(hs[j], origin, trace[j], b);
    let top = if i <= j { j } else { i };
    let h = hs[top];
    assert(explains(h, origin, trace[top]));
    reveal(explains);
    histories_grow(hs, i, top);
    histories_grow(hs, j, top);
    let ra = hs[i].replicas[a];
    let rb = hs[j].replicas[b];
    final_stays(hs[i], h, ra.log, ra.commit as int, ra.term, ra.term);
    final_stays(hs[j], h, rb.log, rb.commit as int, rb.term, rb.term);
    final_less(h, ra.log, ra.commit as int, k, ra.term);
    final_less(h, rb.log, rb.commit as int, k, rb.term);
    finals_agree(h, ra.log, rb.log, k, ra.term, rb.term);
}

/// Committed entries are the same everywhere and for good: an entry that one
/// node has committed at some point of a run is the entry that any node that
/// has committed that far, at any point, has there (where both still retain
/// it).
#[verifier::rlimit(30)]
pub proof fn committed_entries_never_differ<S: StateMachine>(
    trace: Seq<Cluster<S>>,
    founders: Set<NodeId>,
    origin: S::State,
    i: int,
    j: int,
    a: NodeId,
    b: NodeId,
    index: int,
)
    requires
        execution(trace, founders, origin),
        0 <= i < trace.len(),
        0 <= j < trace.len(),
        trace[i].nodes.contains_key(a),
        trace[j].nodes.contains_key(b),
        trace[i].nodes[a].files.holds(index),
        trace[j].nodes[b].files.holds(index),
        index <= trace[i].nodes[a].commit_index,
        index <= trace[j].nodes[b].commit_index,
    ensures
        trace[i].nodes[a].files.entry_at(index) == trace[j].nodes[b].files.entry_at(index),
{
    let hs = run_explained(trace, founders, origin);
    assert(explains(hs[i], origin, trace[i]));
    assert(explains(hs[j], origin, trace[j]));
    node_explained(hs[i], origin, trace[i], a);
    node_explained(hs[j], origin, trace[j], b);
    commits_agree(hs, trace, origin, i, j, a, b, index);
    agree_at(hs[i].replicas[a].log, hs[j].replicas[b].log, index, index - 1);
    backed_term::<S>(trace[i].nodes[a].files, hs[i].replicas[a].log, origin, index);
    backed_term::<S>(trace[j].nodes[b].files, hs[j].replicas[b].log, origin, index);
}

/// No committed entry is ever lost: what any node has committed, every leader
/// of that node's term or a later one has from then on, in the same place (or
/// compacted into its snapshot).
#[verifier::rlimit(30)]
pub proof fn committed_entries_are_never_lost<S: StateMachine>(
    trace: Seq<Cluster<S>>,
    founders: Set<NodeId>,
    origin: S::State,
    i: int,
    j: int,
    a: NodeId,
    b: NodeId,
    index: int,
)
    requires
        execution(trace, founders, origin),
        0 <= i <= j < trace.len(),
        trace[i].nodes.contains_key(a),
        trace[j].nodes.contains_key(b),
        trace[i].nodes[a].files.holds(index),
        index <= trace[i].nodes[a].commit_index,
        trace[j].nodes[b].is_leader(),
        trace[j].nodes[b].term() >= trace[i].nodes[a].term(),
    ensures
        index <= trace[j].nodes[b].files.last_index(),
        trace[j].nodes[b].files.holds(index) ==> trace[j].nodes[b].files.entry_at(index)
            == trace[i].nodes[a].files.entry_at(index),
{
    let hs = run_explained(trace, founders, origin);
    assert(explains(hs[i], origin, trace[i]));
    assert(explains(hs[j], origin, trace[j]));
    node_explained(hs[i], origin, trace[i], a);
    node_explained(hs[j], origin, trace[j], b);
    histories_grow(hs, i, j);
    let ra = hs[i].replicas[a];
    let rb = hs[j].replicas[b];
    final_stays(hs[i], hs[j], ra.log, ra.commit as int, ra.term, ra.term);
    final_less(hs[j], ra.log, ra.commit as int, index, ra.term);
    final_in_reign(hs[j], ra.log, index, ra.term, rb.term);
    agree_at(ra.log, rb.log, index, index - 1);
    backed_ends::<S>(trace[j].nodes[b].files, rb.log, origin);
    backed_term::<S>(trace[i].nodes[a].files, ra.log, origin, index);
    backed_term::<S>(trace[j].nodes[b].files, rb.log, origin, index);
}

/// Log matching: logs that have an entry of the same term at the same index
/// have the same entries before it, as far as both retain them.
#[verifier::rlimit(30)]
pub proof fn logs_with_a_common_entry_agree<S: StateMachine>(
    trace: Seq<Cluster<S>>,
    founders: Set<NodeId>,
    origin: S::State,
    i: int,
    a: NodeId,
    b: NodeId,
    index: int,
    earlier: int,
)
    requires
        execution(trace, founders, origin),
        0 <= i < trace.len(),
        trace[i].nodes.contains_key(a),
        trace[i].nodes.contains_key(b),
        trace[i].nodes[a].files.holds(index),
        trace[i].nodes[b].files.holds(index),
        trace[i].nodes[a].files.entry_at(index).term == trace[i].nodes[b].files.entry_at(index).term,
        earlier <= index,
        trace[i].nodes[a].files.holds(earlier),
        trace[i].nodes[b].files.holds(earlier),
    ensures
        trace[i].nodes[a].files.entry_at(earlier) == trace[i].nodes[b].files.entry_at(earlier),
{
    let hs = run_explained(trace, founders, origin);
    let h = hs[i];
    assert(explains(h, origin, trace[i]));
    node_explained(h, origin, trace[i], a);
    node_explained(h, origin, trace[i], b);
    let la = h.replicas[a].log;
    let lb = h.replicas[b].log;
    backed_ends::<S>(trace[i].nodes[a].files, la, origin);
    backed_ends::<S>(trace[i].nodes[b].files, lb, origin);
    backed_term::<S>(trace[i].nodes[a].files, la, origin, index);
    backed_term::<S>(trace[i].nodes[b].files, lb, origin, index);
    backed_term::<S>(trace[i].nodes[a].files, la, origin, earlier);
    backed_term::<S>(trace[i].nodes[b].files, lb, origin, earlier);
    logs_match(h.reigns, la, lb, index - 1);
    agree_at(la, lb, index, earlier - 1);
}

/// A settled node's state is what its committed entries lead to.
proof fn state_by_log<S: StateMachine>(h: History, origin: S::State, n: NodeId, m: NodeModel<S>)
    requires
        tied(h, origin, n, m),
        m.settled(),
    ensures
        m.commit_index <= h.replicas[n].log.len(),
        m.state == run::<S>(origin, h.replicas[n].log.take(m.commit_index as int)),
{
    let log = h.replicas[n].log;
    let si = m.files.snapshot_index();
    let c = m.commit_index as int;
    backed_ends::<S>(m.files, log, origin);
    run_in_parts::<S>(origin, log.take(si), log.subrange(si, c));
    assert(log.take(si) + log.subrange(si, c) =~= log.take(c));
    assert(m.files.log.take(c - si) =~= log.subrange(si, c));
    if m.files.snapshot is None {
        assert(log.take(0) =~= Seq::<LogEntry>::empty());
    }
}

/// The states along two logs that agree.
proof fn states_follow<S: StateMachine>(
    origin: S::State,
    a: Seq<LogEntry>,
    b: Seq<LogEntry>,
    m: int,
    n: int,
) -> (more: Seq<LogEntry>)
    requires
        agree(a, b, m),
        0 <= m <= n <= b.len(),
    ensures
        more.len() == n - m,
        run::<S>(origin, b.take(n)) == run::<S>(run::<S>(origin, a.take(m)), more),
        m == n ==> run::<S>(origin, b.take(n)) == run::<S>(origin, a.take(m)),
{
    agree_takes(a, b, m);
    let more = b.subrange(m, n);
    run_in_parts::<S>(origin, b.take(m), more);
    assert(b.take(m) + more =~= b.take(n));
    more
}

/// State machines agree: at whatever points of a run, the state of a node
/// that has committed further is the state of the other after some more
/// entries; nodes that have committed equally far are in the same state.
#[verifier::rlimit(30)]
pub proof fn state_machines_agree<S: StateMachine>(
    trace: Seq<Cluster<S>>,
    founders: Set<NodeId>,
    origin: S::State,
    i: int,
    j: int,
    a: NodeId,
    b: NodeId,
)
    requires
        execution(trace, founders, origin),
        0 <= i < trace.len(),
        0 <= j < trace.len(),
        trace[i].nodes.contains_key(a),
        trace[j].nodes.contains_key(b),
        trace[i].nodes[a].commit_index <= trace[j].nodes[b].commit_index,
    ensures
        exists|more: Seq<LogEntry>|
            more.len() == trace[j].nodes[b].commit_index - trace[i].nodes[a].commit_index
                && trace[j].nodes[b].state == #[trigger] run::<S>(trace[i].nodes[a].state, more),
        trace[i].nodes[a].commit_index == trace[j].nodes[b].commit_index ==> trace[i].nodes[a].state
            == trace[j].nodes[b].state,
{
    let hs = run_explained(trace, founders, origin);
    assert(explains(hs[i], origin, trace[i]));
    assert(explains(hs[j], origin, trace[j]));
    node_explained(hs[i], origin, trace[i], a);
    node_explained(hs[j], origin, trace[j], b);
    let x = trace[i].nodes[a];
    let y = trace[j].nodes[b];
    state_by_log(hs[i], origin, a, x);
    state_by_log(hs[j], origin, b, y);
    commits_agree(hs, trace, origin, i, j, a, b, x.commit_index as int);
    let more = states_follow::<S>(
        origin,
        hs[i].replicas[a].log,
        hs[j].replicas[b].log,
        x.commit_index as int,
        y.commit_index as int,
    );
    assert(y.state == run::<S>(x.state, more));
}

/// Nothing that happens in a cluster is out of place: a node can take every
/// AppendEntries that reaches it (no committed entry would have to be
/// dropped), and every reply is to something it has sent. After every event
/// everything committed is applied.
pub proof fn every_event_is_admitted<S: StateMachine>(
    trace: Seq<Cluster<S>>,
    founders: Set<NodeId>,
    origin: S::State,
    i: int,
    event: ClusterEvent<S::State>,
    now: u64,
)
    requires
        execution(trace, founders, origin),
        0 <= i < trace.len(),
        trace[i].enabled(event, now),
        !(event is Restart),
    ensures
        trace[i].nodes[event.at()].settled(),
        trace[i].nodes[event.at()].admits(Cluster::<S>::node_event(event), now),
        trace[i].node_after(event, now).settled(),
{
    let hs = run_explained(trace, founders, origin);
    assert(explains(hs[i], origin, trace[i]));
    node_explained(hs[i], origin, trace[i], event.at());
    let h2 = node_moves(hs[i], origin, trace[i], event, now);
}

/// Whether, at point `i` of a run, `voter` has voted for `candidate` in `term`:
/// it says so itself, or has answered that it does.
pub open spec fn has_voted<S: StateMachine>(
    trace: Seq<Cluster<S>>,
    i: int,
    voter: NodeId,
    term: Term,
    candidate: NodeId,
) -> bool {
    ||| {
        &&& trace[i].nodes.contains_key(voter)
        &&& trace[i].nodes[voter].files.hard_state == (HardState {
            current_term: term,
            voted_for: Some(candidate),
        })
    }
    ||| exists|reply: RequestVoteReply|
        reply.vote_granted && #[trigger] trace[i].answers.contains(
            Answer {
                to: candidate,
                from: voter,
                tag: ReplyTag::Vote { sent_term: term },
                response: RpcResponse::RequestVote(reply),
            },
        )
}

/// One vote per term, restarts included: at whatever points of a run, a node
/// has voted for at most one candidate (itself counted) in each term.
pub proof fn at_most_one_vote_per_term<S: StateMachine>(
    trace: Seq<Cluster<S>>,
    founders: Set<NodeId>,
    origin: S::State,
    i: int,
    j: int,
    voter: NodeId,
    term: Term,
    a: NodeId,
    b: NodeId,
)
    requires
        execution(trace, founders, origin),
        0 <= i < trace.len(),
        0 <= j < trace.len(),
        has_voted(trace, i, voter, term, a),
        has_voted(trace, j, voter, term, b),
    ensures
        a == b,
{
    let hs = run_explained(trace, founders, origin);
    vote_on_record(hs, origin, trace, i, voter, term, a);
    vote_on_record(hs, origin, trace, j, voter, term, b);
    if i <= j {
        histories_grow(hs, i, j);
    } else {
        histories_grow(hs, j, i);
    }
}

/// A vote is on record.
proof fn vote_on_record<S: StateMachine>(
    hs: Seq<History>,
    origin: S::State,
    trace: Seq<Cluster<S>>,
    i: int,
    voter: NodeId,
    term: Term,
    candidate: NodeId,
)
    requires
        explains_run(hs, origin, trace),
        0 <= i < trace.len(),
        has_voted(trace, i, voter, term, candidate),
    ensures
        hs[i].ballots.contains_key((voter, term)),
        hs[i].ballots[(voter, term)].candidate == candidate,
{
    let c = trace[i];
    assert(explains(hs[i], origin, c));
    if c.nodes.contains_key(voter) && c.nodes[voter].files.hard_state == (HardState {
        current_term: term,
        voted_for: Some(candidate),
    }) {
        node_explained(hs[i], origin, c, voter);
    } else {
        reveal(explains);
        let reply = choose|reply: RequestVoteReply|
            reply.vote_granted && #[trigger] c.answers.contains(
                Answer {
                    to: candidate,
                    from: voter,
                    tag: ReplyTag::Vote { sent_term: term },
                    response: RpcResponse::RequestVote(reply),
                },
            );
        let answer = Answer {
            to: candidate,
            from: voter,
            tag: ReplyTag::Vote { sent_term: term },
            response: RpcResponse::RequestVote(reply),
        };
        assert(answer_ok(hs[i], answer.to, answer.from, answer.tag, answer.response));
    }
}

/// A crashed disk opens: wherever a crash interrupts a node, between its disk
/// writes or in the middle of one, the disk can be opened again. (What it reads
/// back as is where the run goes on from.)
pub proof fn a_crashed_disk_opens<S: StateMachine>(
    trace: Seq<Cluster<S>>,
    founders: Set<NodeId>,
    origin: S::State,
    i: int,
    event: ClusterEvent<S::State>,
    now: u64,
    done: int,
    lines: int,
)
    requires
        execution(trace, founders, origin),
        0 <= i < trace.len(),
        trace[i].enabled(event, now),
        trace[i].can_crash(event, now, done),
    ensures
        trace[i].disk_after(event, now, done, lines).openable(),
{
    let hs = run_explained(trace, founders, origin);
    assert(explains(hs[i], origin, trace[i]));
    let h2 = crash_moves(hs[i], origin, trace[i], event, now, done, lines, 0);
}

/// Between events the disk holds what the node goes by, and can be opened: a
/// node that stops there comes back as it was.
pub proof fn the_disk_holds_the_files<S: StateMachine>(
    trace: Seq<Cluster<S>>,
    founders: Set<NodeId>,
    origin: S::State,
    i: int,
    id: NodeId,
)
    requires
        execution(trace, founders, origin),
        0 <= i < trace.len(),
        trace[i].nodes.contains_key(id),
    ensures
        trace[i].disks[id] == trace[i].nodes[id].files,
        trace[i].disks[id].openable(),
        trace[i].disks[id].reopened() == trace[i].nodes[id].files,
{
    let hs = run_explained(trace, founders, origin);
    assert(explains(hs[i], origin, trace[i]));
    node_explained(hs[i], origin, trace[i], id);
    disk_of_tied(hs[i], origin, id, trace[i].nodes[id]);
    reveal(explains);
}

// ---- writes ----

/// At point `i` of a run, the node `at` accepts a write under `ticket` as
/// `entry`.
pub open spec fn accepts<S: StateMachine>(
    trace: Seq<Cluster<S>>,
    i: int,
    at: NodeId,
    ticket: u64,
    entry: LogEntry,
) -> bool {
    exists|now: u64| {
        &&& #[trigger] trace[i].enabled(
            ClusterEvent::Propose { at, command: entry.command, ticket },
            now,
        )
        &&& trace[i].nodes[at].on_propose(entry.command, ticket, now).1 == Ok::<
            Proposal,
            ProposeError,
        >(Proposal { term: entry.term, index: entry.index })
        &&& trace[i + 1] == trace[i].next(
            ClusterEvent::Propose { at, command: entry.command, ticket },
            now,
        )
    }
}

/// From point `j` of a run on, `entry` stands: every leader of `term` or a
/// later one has it, and it is what everyone commits at its index (where it
/// is not compacted away).
pub open spec fn stands<S: StateMachine>(
    trace: Seq<Cluster<S>>,
    j: int,
    term: Term,
    entry: LogEntry,
) -> bool {
    forall|k: int, id: NodeId|
        #![trigger trace[k].nodes[id]]
        j <= k < trace.len() && trace[k].nodes.contains_key(id) ==> {
            let node = trace[k].nodes[id];
            &&& node.is_leader() && node.term() >= term ==> {
                &&& entry.index <= node.files.last_index()
                &&& node.files.holds(entry.index as int) ==> node.files.entry_at(entry.index as int)
                    == entry
            }
            &&& entry.index <= node.commit_index && node.files.holds(entry.index as int)
                ==> node.files.entry_at(entry.index as int) == entry
        }
}

/// The point of a run at which a write was accepted.
#[verifier::rlimit(30)]
proof fn write_recorded<S: StateMachine>(
    hs: Seq<History>,
    trace: Seq<Cluster<S>>,
    origin: S::State,
    j: int,
    w: Accepted,
) -> (i: int)
    requires
        explains_run(hs, origin, trace),
        hs[0].accepted == Set::<Accepted>::empty(),
        0 <= j < hs.len(),
        hs[j].accepted.contains(w),
    ensures
        0 <= i < j,
        accepts(trace, i, w.node, w.ticket, w.entry),
    decreases j,
{
    let h = hs[j - 1];
    let h2 = hs[j];
    assert(j > 0);
    assert(hs[j - 1 + 1].extends(hs[j - 1]) && explains_step(h, h2, trace[j - 1], trace[j]));
    let c = trace[j - 1];
    if h.accepted.contains(w) {
        write_recorded(hs, trace, origin, j - 1, w)
    } else {
        let (event, now) = choose|event: ClusterEvent<S::State>, now: u64| #[trigger]
            c.enabled(event, now) && {
                ||| trace[j] == c.next(event, now) && records(h, h2, c, event, now)
                ||| c.crashes_to(event, now, trace[j]) && moved(h, h2, event.at())
            };
        assert(event is Propose);
        assert(event == (ClusterEvent::<S::State>::Propose {
            at: w.node,
            command: w.entry.command,
            ticket: w.ticket,
        }));
        assert(c.enabled(
            ClusterEvent::Propose { at: w.node, command: w.entry.command, ticket: w.ticket },
            now,
        ));
        j - 1
    }
}

/// A committed write stands.
#[verifier::rlimit(30)]
proof fn settled_write_stands<S: StateMachine>(
    hs: Seq<History>,
    trace: Seq<Cluster<S>>,
    origin: S::State,
    j: int,
    w: Accepted,
    term: Term,
)
    requires
        explains_run(hs, origin, trace),
        0 <= j < hs.len(),
        settled_write(hs[j], w, term),
    ensures
        stands(trace, j, term, w.entry),
{
    assert forall|k: int, id: NodeId|
        #![trigger trace[k].nodes[id]]
        j <= k < trace.len() && trace[k].nodes.contains_key(id) implies {
        let node = trace[k].nodes[id];
        let index = w.entry.index as int;
        &&& node.is_leader() && node.term() >= term ==> {
            &&& index <= node.files.last_index()
            &&& node.files.holds(index) ==> node.files.entry_at(index) == w.entry
        }
        &&& index <= node.commit_index && node.files.holds(index) ==> node.files.entry_at(index)
            == w.entry
    } by {
        let h = hs[k];
        assert(explains(h, origin, trace[k]));
        node_explained(h, origin, trace[k], id);
        histories_grow(hs, j, k);
        settled_write_stays(hs[j], h, w, term, term);
        write_at_node(h, origin, id, trace[k].nodes[id], w, term);
    }
}

/// A committed write, at one node.
#[verifier::rlimit(30)]
proof fn write_at_node<S: StateMachine>(
    h: History,
    origin: S::State,
    id: NodeId,
    node: NodeModel<S>,
    w: Accepted,
    term: Term,
)
    requires
        h.inv(),
        tied(h, origin, id, node),
        settled_write(h, w, term),
    ensures
        node.is_leader() && node.term() >= term ==> {
            &&& w.entry.index <= node.files.last_index()
            &&& node.files.holds(w.entry.index as int) ==> node.files.entry_at(w.entry.index as int)
                == w.entry
        },
        w.entry.index <= node.commit_index && node.files.holds(w.entry.index as int)
            ==> node.files.entry_at(w.entry.index as int) == w.entry,
{
    let index = w.entry.index as int;
    let r = h.replicas[id];
    assert(h.replica_ok(id, r));
    backed_ends::<S>(node.files, r.log, origin);
    backed_term::<S>(node.files, r.log, origin, index);
    let (t, i, q) = choose|t: Term, i: int, q: int| #[trigger]
        h.vouched(t, i, q) && t <= term && 0 < w.entry.index <= i && h.reigns[t].log[w.entry.index - 1]
            == w.entry;
    let log = h.reigns[t].log;
    super::agreement::agree_self(log, index);
    assert(h.final_through(log, index, t));
    if node.is_leader() && node.term() >= term {
        final_in_reign(h, log, index, t, r.term);
        agree_at(log, r.log, index, index - 1);
    }
    if index <= node.commit_index {
        final_less(h, r.log, r.commit as int, index, r.term);
        finals_agree(h, log, r.log, index, t, r.term);
        agree_at(log, r.log, index, index - 1);
    }
}

/// Confirmed writes are never lost: when a node confirms the write under
/// `ticket`, it has accepted that write as some entry, and from then on that
/// entry stands, whoever leads.
#[verifier::rlimit(30)]
pub proof fn confirmed_writes_are_never_lost<S: StateMachine>(
    trace: Seq<Cluster<S>>,
    founders: Set<NodeId>,
    origin: S::State,
    j: int,
    event: ClusterEvent<S::State>,
    now: u64,
    ticket: u64,
)
    requires
        execution(trace, founders, origin),
        0 <= j < trace.len() - 1,
        trace[j].enabled(event, now),
        trace[j + 1] == trace[j].next(event, now),
        trace[j].node_after(event, now).effects.contains(
            EffectModel::Resolve { ticket, committed: true },
        ),
    ensures
        exists|i: int, entry: LogEntry| #[trigger]
            accepts(trace, i, event.at(), ticket, entry) && 0 <= i <= j && stands(
                trace,
                j + 1,
                trace[j].node_after(event, now).term(),
                entry,
            ),
{
    let hs = run_explained_with(trace, founders, origin, j, event, now);
    let h = hs[j + 1];
    let n = event.at();
    let after = trace[j].node_after(event, now);
    let told = EffectModel::<S::State>::Resolve { ticket, committed: true };
    let x = choose|x: int| 0 <= x < after.effects.len() && after.effects[x] == told;
    assert(after.effects[x] == told);
    assert(told_ok(h, n, ticket));
    let w = choose|w: Accepted| #[trigger]
        h.accepted.contains(w) && w.node == n && w.ticket == ticket && settled_write(
            h,
            w,
            h.replicas[n].term,
        );
    let i = write_recorded(hs, trace, origin, j + 1, w);
    settled_write_stands(hs, trace, origin, j + 1, w, h.replicas[n].term);
    assert(accepts(trace, i, n, ticket, w.entry));
}

// ---- reads ----

/// Where a leader's read was registered.
pub open spec fn registers<S: StateMachine>(
    trace: Seq<Cluster<S>>,
    i: int,
    at: NodeId,
    ticket: u64,
) -> bool {
    exists|now: u64| {
        &&& #[trigger] trace[i].enabled(ClusterEvent::Read { at, ticket }, now)
        &&& trace[i + 1] == trace[i].next(ClusterEvent::Read { at, ticket }, now)
    }
}

/// Nothing was known to be committed, anywhere at any point up to `i`, beyond
/// `bound`.
pub open spec fn nothing_committed_beyond<S: StateMachine>(
    trace: Seq<Cluster<S>>,
    i: int,
    bound: int,
) -> bool {
    forall|k: int, id: NodeId|
        #![trigger trace[k].nodes[id]]
        0 <= k <= i && trace[k].nodes.contains_key(id) ==> trace[k].nodes[id].commit_index <= bound
}

/// A pulse is recorded by a leader's read, with what is known then.
proof fn pulse_step<S: StateMachine>(
    h: History,
    h2: History,
    origin: S::State,
    c: Cluster<S>,
    event: ClusterEvent<S::State>,
    now: u64,
    t: Term,
    s: int,
)
    requires
        explains(h, origin, c),
        c.nodes.contains_key(event.at()),
        records(h, h2, c, event, now),
        h2.reigns.contains_key(t),
        0 < s < h2.reigns[t].pulses.len(),
        !(h.reigns.contains_key(t) && s < h.reigns[t].pulses.len()),
    ensures
        ({
            let p = h2.reigns[t].pulses[s];
            let at = h2.reigns[t].leader;
            &&& event == (ClusterEvent::<S::State>::Read { at, ticket: p.ticket })
            &&& p == h.pulse_now(at, p.ticket)
        }),
{
    node_explained(h, origin, c, event.at());
    match event {
        ClusterEvent::Read { at, ticket } => {
            if c.nodes[at].is_leader() {
                assert(h2 == h.pulsed(at, ticket));
                assert(t == h.replicas[at].term);
            }
        },
        _ => {},
    }
}

/// The point of a run at which a pulse was recorded.
#[verifier::rlimit(30)]
proof fn pulse_recorded<S: StateMachine>(
    hs: Seq<History>,
    trace: Seq<Cluster<S>>,
    origin: S::State,
    j: int,
    t: Term,
    s: int,
) -> (i: int)
    requires
        explains_run(hs, origin, trace),
        hs[0].reigns == Map::<Term, super::history::Reign>::empty(),
        0 <= j < hs.len(),
        hs[j].reigns.contains_key(t),
        0 < s < hs[j].reigns[t].pulses.len(),
    ensures
        0 <= i < j,
        registers(trace, i, hs[j].reigns[t].leader, hs[j].reigns[t].pulses[s].ticket),
        hs[j].reigns[t].pulses[s] == hs[i].pulse_now(
            hs[j].reigns[t].leader,
            hs[j].reigns[t].pulses[s].ticket,
        ),
    decreases j,
{
    let h = hs[j - 1];
    let h2 = hs[j];
    assert(j > 0);
    assert(hs[j - 1 + 1].extends(hs[j - 1]) && explains_step(h, h2, trace[j - 1], trace[j]));
    let c = trace[j - 1];
    if h.reigns.contains_key(t) && s < h.reigns[t].pulses.len() {
        let i = pulse_recorded(hs, trace, origin, j - 1, t, s);
        let p = h.reigns[t].pulses;
        assert(h2.reigns[t].pulses.take(p.len() as int)[s] == p[s]);
        i
    } else {
        let (event, now) = choose|event: ClusterEvent<S::State>, now: u64| #[trigger]
            c.enabled(event, now) && {
                ||| trace[j] == c.next(event, now) && records(h, h2, c, event, now)
                ||| c.crashes_to(event, now, trace[j]) && moved(h, h2, event.at())
            };
        assert(explains(h, origin, c));
        pulse_step(h, h2, origin, c, event, now, t, s);
        let p = h2.reigns[t].pulses[s];
        let at = h2.reigns[t].leader;
        assert(c.enabled(ClusterEvent::Read { at, ticket: p.ticket }, now));
        assert(registers(trace, j - 1, at, p.ticket));
        j - 1
    }
}

/// What was known to be committed before a pulse is in the pulse.
proof fn pulse_covers<S: StateMachine>(
    hs: Seq<History>,
    trace: Seq<Cluster<S>>,
    origin: S::State,
    i: int,
    p: Pulse,
    bound: int,
)
    requires
        explains_run(hs, origin, trace),
        0 <= i < hs.len(),
        forall|t: Term| #[trigger]
            hs[i].reigns.contains_key(t) ==> p.found.contains_key(t) && p.found[t]
                == hs[i].reigns[t].commit,
        forall|t: Term| #[trigger] p.found.contains_key(t) ==> p.found[t] <= bound,
        0 <= bound,
    ensures
        nothing_committed_beyond(trace, i, bound),
{
    assert forall|k: int, id: NodeId|
        #![trigger trace[k].nodes[id]]
        0 <= k <= i && trace[k].nodes.contains_key(id) implies trace[k].nodes[id].commit_index
        <= bound by {
        assert(explains(hs[k], origin, trace[k]));
        node_explained(hs[k], origin, trace[k], id);
        histories_grow(hs, k, i);
        let r = hs[k].replicas[id];
        if r.commit > 0 {
            let (t, x, q) = choose|t: Term, x: int, q: int| #[trigger]
                hs[k].vouched(t, x, q) && t <= r.term && r.commit <= x && agree(
                    hs[k].reigns[t].log,
                    r.log,
                    r.commit as int,
                );
            assert(hs[k].reigns.contains_key(t));
            assert(hs[i].reigns.contains_key(t));
            assert(p.found.contains_key(t));
        }
    }
}

/// An acknowledgement shows that whoever gave it was still at the leader's
/// term when the read was registered.
#[verifier::rlimit(30)]
proof fn acknowledgers_were_behind<S: StateMachine>(
    h: History,
    origin: S::State,
    c: Cluster<S>,
    event: ClusterEvent<S::State>,
    read: PendingRead,
    id: NodeId,
)
    requires
        explains(h, origin, c),
        c.nodes.contains_key(event.at()),
        c.nodes[event.at()].is_leader(),
        event matches ClusterEvent::Return { answer } ==> c.answers.contains(answer),
        !(event is Restart),
        read_ok(h, c.nodes[event.at()].term(), read),
        confirms(c.nodes[event.at()], Cluster::<S>::node_event(event), read.needed_seq, id),
        h.reigns[c.nodes[event.at()].term()].pulses[read.needed_seq as int].terms.contains_key(id),
    ensures
        h.reigns[c.nodes[event.at()].term()].pulses[read.needed_seq as int].terms[id]
            <= c.nodes[event.at()].term(),
{
    reveal(explains);
    let n = event.at();
    let m = c.nodes[n];
    let t = m.term();
    let leader = m.role->Leader_0;
    let pulses = h.reigns[t].pulses;
    let at = read.needed_seq as int;
    assert(tied(h, origin, n, m));
    assert(h.replica_ok(n, h.replicas[n]));
    assert(h.reign_ok(t));
    assert(h.pulse_ok(t, pulses[at]));
    if id == n {
    } else if leader.acked_seq.contains_key(id) && leader.acked_seq[id] >= read.needed_seq {
        assert(pulses[at].terms[id] <= t);
    } else {
        assert(event is Return);
        let answer = event->Return_answer;
        assert(answer_ok(h, answer.to, answer.from, answer.tag, answer.response));
        assert(pulses[at].terms[id] <= t);
    }
}

/// What a granted read reflects, by the history.
#[verifier::rlimit(30)]
proof fn grant_reflects<S: StateMachine>(
    h: History,
    origin: S::State,
    c: Cluster<S>,
    event: ClusterEvent<S::State>,
    now: u64,
    ticket: u64,
) -> (h2read: (History, PendingRead))
    requires
        explains(h, origin, c),
        c.enabled(event, now),
        !(event is Restart),
        c.node_after(event, now).effects.contains(EffectModel::GrantRead { ticket }),
    ensures
        ({
            let (h2, read) = h2read;
            let n = event.at();
            let t = c.nodes[n].term();
            let p = h2.reigns[t].pulses[read.needed_seq as int];
            &&& c.nodes[n].is_leader()
            &&& records(h, h2, c, event, now)
            &&& h.reigns.contains_key(t)
            &&& h.reigns[t].leader == n
            &&& read.ticket == ticket
            &&& read_ok(h2, t, read)
            &&& read_ok(h, t, read) || (event == (ClusterEvent::<S::State>::Read { at: n, ticket })
                && p == h.pulse_now(n, ticket))
            &&& c.node_after(event, now).last_applied >= read.read_index
            &&& forall|t0: Term| #[trigger] p.found.contains_key(t0) ==> p.found[t0] <= read.read_index
        }),
{
    let n = event.at();
    node_explained(h, origin, c, n);
    let m = c.nodes[n];
    let t = m.term();
    let h2 = node_moves(h, origin, c, event, now);
    let e = Cluster::<S>::node_event(event);
    let after = c.node_after(event, now);
    grants_are_earned(m, e, now, ticket);
    let read = choose|read: PendingRead| #[trigger]
        registered(m, e, read) && read.ticket == ticket && after.last_applied >= read.read_index
            && after.majority_of(|id: NodeId| confirms(m, e, read.needed_seq, id));
    let leader = m.role->Leader_0;
    let at = read.needed_seq as int;
    let pulses = h.reigns[t].pulses;
    let p = h2.reigns[t].pulses[at];
    let test = |id: NodeId| confirms(m, e, read.needed_seq, id);
    let acked = Set::new(test);
    if leader.pending_reads.contains(read) {
        let k = choose|k: int|
            0 <= k < leader.pending_reads.len() && leader.pending_reads[k] == read;
        assert(read_ok(h, t, leader.pending_reads[k]));
        assert(p == pulses[at]);
        assert forall|id: NodeId| #[trigger]
            acked.contains(id) && p.terms.contains_key(id) implies p.terms[id] <= t by {
            acknowledgers_were_behind(h, origin, c, event, read, id);
        }
    } else {
        assert(at == pulses.len());
        assert(p == h.pulse_now(n, ticket));
        assert forall|id: NodeId| #[trigger]
            acked.contains(id) && p.terms.contains_key(id) implies p.terms[id] <= t by {
            if leader.acked_seq.contains_key(id) {
                assert(super::ties::answered_at(h, t, id, leader.acked_seq[id], t));
            }
        }
    }
    majority_counts(h2, origin, n, after, test, acked);
    assert(h2.reign_ok(t));
    assert(h2.pulse_ok(t, h2.reigns[t].pulses[at]));
    no_later_leader(h2, t, p, acked);
    (h2, read)
}

/// Whether a read under `ticket` was asked of `at` at point `i` of a run, by
/// `event` (which follows point `j`) at the latest.
pub open spec fn asked<S: StateMachine>(
    trace: Seq<Cluster<S>>,
    i: int,
    j: int,
    event: ClusterEvent<S::State>,
    ticket: u64,
) -> bool {
    ||| 0 <= i < j && registers(trace, i, event.at(), ticket)
    ||| i == j && event == (ClusterEvent::<S::State>::Read { at: event.at(), ticket })
}

/// Reads are never stale: when a read is granted, the state it is served from
/// reflects everything that any node had committed, at any point of the run
/// up to where the read was asked for.
#[verifier::rlimit(30)]
pub proof fn reads_are_never_stale<S: StateMachine>(
    trace: Seq<Cluster<S>>,
    founders: Set<NodeId>,
    origin: S::State,
    j: int,
    event: ClusterEvent<S::State>,
    now: u64,
    ticket: u64,
)
    requires
        execution(trace, founders, origin),
        0 <= j < trace.len(),
        trace[j].enabled(event, now),
        !(event is Restart),
        trace[j].node_after(event, now).effects.contains(EffectModel::GrantRead { ticket }),
    ensures
        exists|i: int| #[trigger]
            asked(trace, i, j, event, ticket) && nothing_committed_beyond(
                trace,
                i,
                trace[j].node_after(event, now).last_applied as int,
            ),
{
    let hs = run_explained(trace, founders, origin);
    let h = hs[j];
    let c = trace[j];
    let n = event.at();
    let t = c.nodes[n].term();
    let bound = c.node_after(event, now).last_applied as int;
    assert(explains(h, origin, c));
    let (h2, read) = grant_reflects(h, origin, c, event, now, ticket);
    let s = read.needed_seq as int;
    let p = h2.reigns[t].pulses[s];
    assert forall|t0: Term| #[trigger] p.found.contains_key(t0) implies p.found[t0] <= bound by {
        assert(p.found[t0] <= read.read_index);
    }
    if read_ok(h, t, read) {
        assert(p == h.reigns[t].pulses[s]);
        let i = pulse_recorded(hs, trace, origin, j, t, s);
        assert(p == hs[i].pulse_now(n, ticket));
        pulse_covers(hs, trace, origin, i, p, bound);
        assert(asked(trace, i, j, event, ticket));
    } else {
        pulse_covers(hs, trace, origin, j, p, bound);
        assert(asked(trace, j, j, event, ticket));
    }
}

/// Leaders lead in order: at every point of a run, the terms along a leader's
/// log do not fall and end at its own or below, and nobody is known to it to
/// hold more than its log has.
pub proof fn leaders_lead_in_order<S: StateMachine>(
    trace: Seq<Cluster<S>>,
    founders: Set<NodeId>,
    origin: S::State,
    i: int,
    id: NodeId,
)
    requires
        execution(trace, founders, origin),
        0 <= i < trace.len(),
        trace[i].nodes.contains_key(id),
        trace[i].nodes[id].is_leader(),
    ensures
        leads_in_order(trace[i].nodes[id], trace[i].nodes[id].role->Leader_0),
        trace[i].nodes[id].settled(),
{
    let hs = run_explained(trace, founders, origin);
    let h = hs[i];
    assert(explains(h, origin, trace[i]));
    node_explained(h, origin, trace[i], id);
    let m = trace[i].nodes[id];
    let r = h.replicas[id];
    let leader = m.role->Leader_0;
    backed_ends::<S>(m.files, r.log, origin);
    let si = m.files.snapshot_index();
    assert forall|a: int, b: int|
        #![trigger m.files.log[a], m.files.log[b]]
        0 <= a <= b < m.files.log.len() implies m.files.log[a].term <= m.files.log[b].term by {
        super::agreement::sound_terms(h, r.log, si + a, si + b);
    }
    assert forall|a: int| #![trigger m.files.log[a]] 0 <= a < m.files.log.len() implies m.files.log[a].term
        <= m.files.hard_state.current_term by {
        super::agreement::reign_terms(h, r.term, si + a);
    }
    assert forall|x: NodeId| #[trigger] leader.match_index.contains_key(x) implies leader.match_index[x]
        <= m.files.last_index() by {
        assert(h.held_by(x, r.term) >= leader.match_index[x]);
        if h.held.contains_key((x, r.term)) {
            assert(h.held_ok(x, r.term));
        }
    }
}

/// Writes are acknowledged once a majority of the members holds them: at any
/// point of a run, an answer that makes more than half of the members known to
/// hold the leader's log through an entry of its own term commits the entry,
/// and whoever waits for it is told.
pub proof fn what_a_majority_holds_is_acknowledged<S: StateMachine>(
    trace: Seq<Cluster<S>>,
    founders: Set<NodeId>,
    origin: S::State,
    i: int,
    id: NodeId,
    from: NodeId,
    prev: LogIndex,
    count: u64,
    seq: u64,
    reply: AppendEntriesReply,
    now: u64,
    p: PendingProposal,
    some: Set<NodeId>,
)
    requires
        execution(trace, founders, origin),
        0 <= i < trace.len(),
        trace[i].nodes.contains_key(id),
        trace[i].nodes[id].is_leader(),
        ({
            let m = trace[i].nodes[id];
            let leader = m.role->Leader_0;
            &&& m.room(now)
            &&& prev + count <= m.files.last_index()
            &&& reply.success
            &&& reply.term <= m.files.hard_state.current_term
            &&& m.pending.contains(p)
            &&& p.term == m.files.hard_state.current_term
            &&& has_own_entry(m, p.index)
            &&& outvotes(some, m.members())
            &&& forall|x: NodeId| #[trigger] some.contains(x) ==> {
                ||| x == id
                ||| x == from && prev + count >= p.index
                ||| leader.match_index.contains_key(x) && leader.match_index[x] >= p.index
            }
        }),
    ensures
        ({
            let m = trace[i].nodes[id];
            let after = m.step(
                answered(m.files.hard_state.current_term, from, prev, count, seq, reply),
                now,
            );
            &&& after.commit_index >= p.index
            &&& after.last_applied >= p.index
            &&& after.effects.contains(EffectModel::Resolve { ticket: p.ticket, committed: true })
        }),
{
    leaders_lead_in_order(trace, founders, origin, i, id);
    let hs = run_explained(trace, founders, origin);
    assert(explains(hs[i], origin, trace[i]));
    node_explained(hs[i], origin, trace[i], id);
    let m = trace[i].nodes[id];
    let leader = m.role->Leader_0;
    what_a_majority_holds_is_committed(m, leader, from, prev, count, seq, reply, now, p.index, some);
    a_write_that_a_majority_holds_is_confirmed(
        m,
        leader,
        from,
        prev,
        count,
        seq,
        reply,
        now,
        p,
        some,
    );
}

} // verus!
