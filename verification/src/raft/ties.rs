//! How a node's state is tied to the cluster's history, and that every
//! transition of the node is a step of the history.

use vstd::prelude::*;

use super::agreement::{agree_across, agree_at, agree_less, agree_takes};
use super::history::{Accepted, agree, last_term, History, Replica, Stage};
use super::durability::{crash_disk, reopened_same};
use super::machine::{run, StateMachine};
use super::membership::{ascending, last_config};
use super::model::{
    EffectModel, NodeModel, PendingProposal, PendingRead, ReplyTag, RoleModel, Settings,
};

use super::rpc::{AppendModel, RequestModel, RpcResponse};
use super::storage::{Durable, WriteModel};
use super::types::{LogEntry, NodeId, SnapshotModel, Term};

verus! {

/// A snapshot says what the beginning of `log` leads to.
pub open spec fn snapshot_fits<S: StateMachine>(
    snapshot: SnapshotModel<S::State>,
    log: Seq<LogEntry>,
    origin: S::State,
) -> bool {
    let boundary = snapshot.last_included_index as int;
    &&& 1 <= boundary <= log.len()
    &&& snapshot.last_included_term == log[boundary - 1].term
    &&& snapshot.membership == last_config(log.take(boundary))
    &&& snapshot.state == run::<S>(origin, log.take(boundary))
}

/// The files hold `log`, its beginning as a snapshot.
pub open spec fn backed<S: StateMachine>(
    files: Durable<S::State>,
    log: Seq<LogEntry>,
    origin: S::State,
) -> bool {
    &&& files.snapshot_index() <= log.len()
    &&& files.log == log.skip(files.snapshot_index())
    &&& match files.snapshot {
        Some(snapshot) => snapshot_fits::<S>(snapshot, log, origin),
        None => true,
    }
}

/// A node is started with the founders as its configuration, or, to join
/// later, with none.
pub open spec fn started_right(h: History, settings: Settings) -> bool {
    &&& ascending(settings.bootstrap.ids())
    &&& settings.bootstrap.ids().to_set() == h.founders || settings.bootstrap.ids().len() == 0
}

/// An AppendEntries carries a stretch of its leader's log.
pub open spec fn append_fits(h: History, args: AppendModel) -> bool {
    let log = h.reigns[args.term].log;
    let n = args.prev_log_index + args.entries.len();
    &&& n <= log.len()
    &&& n + 1 < u64::MAX
    &&& args.entries == log.subrange(args.prev_log_index as int, n)
    &&& args.prev_log_term == (if args.prev_log_index == 0 {
        0
    } else {
        log[args.prev_log_index - 1].term
    })
    &&& args.leader_commit <= log.len()
    &&& h.final_through(log, args.leader_commit as int, args.term)
}

/// What a node may send.
pub open spec fn letter_ok<S: StateMachine>(
    h: History,
    origin: S::State,
    from: NodeId,
    request: RequestModel<S::State>,
    tag: ReplyTag,
) -> bool {
    match request {
        RequestModel::RequestVote(args) => {
            &&& args.candidate_id == from
            &&& tag == ReplyTag::Vote { sent_term: args.term }
            &&& h.bids.contains_key((from, args.term))
            &&& args.last_log_index == h.bids[(from, args.term)].len()
            &&& args.last_log_term == last_term(h.bids[(from, args.term)])
        },
        RequestModel::PreVote(_) => tag is PreVote,
        // Nodes send snapshots; whoever drives them cuts these into chunks.
        RequestModel::SnapshotChunk(_) => false,
        RequestModel::AppendEntries(args) => {
            &&& args.leader_id == from
            &&& h.reigns.contains_key(args.term)
            &&& h.reigns[args.term].leader == from
            &&& append_fits(h, args)
            &&& tag matches ReplyTag::Append { sent_term, sent_prev_index, sent_entries, sent_seq }
                && sent_term == args.term && sent_prev_index == args.prev_log_index && sent_entries
                == args.entries.len() && sent_seq < h.reigns[args.term].pulses.len()
        },
        RequestModel::InstallSnapshot(args) => {
            &&& args.leader_id == from
            &&& h.reigns.contains_key(args.term)
            &&& h.reigns[args.term].leader == from
            &&& snapshot_fits::<S>(args.snapshot, h.reigns[args.term].log, origin)
            &&& h.final_through(
                h.reigns[args.term].log,
                args.snapshot.last_included_index as int,
                args.term,
            )
            &&& tag == ReplyTag::InstallSnapshot {
                sent_term: args.term,
                last_included_index: args.snapshot.last_included_index,
            }
        },
    }
}

/// `id` was at `term` at least when any of the leader's sequence numbers up to
/// `seq` began.
pub open spec fn answered_at(h: History, t: Term, id: NodeId, seq: u64, term: Term) -> bool {
    let pulses = h.reigns[t].pulses;
    &&& seq < pulses.len()
    &&& forall|i: int|
        #![trigger pulses[i]]
        0 <= i <= seq && pulses[i].terms.contains_key(id) ==> pulses[i].terms[id] <= term
}

/// A read that the leader of `t` registered.
pub open spec fn read_ok(h: History, t: Term, read: PendingRead) -> bool {
    let pulses = h.reigns[t].pulses;
    &&& 0 < read.needed_seq < pulses.len()
    &&& pulses[read.needed_seq as int].bound == read.read_index
    &&& pulses[read.needed_seq as int].ticket == read.ticket
}

/// What a reply to `asker` from `from` may say.
pub open spec fn answer_ok(
    h: History,
    asker: NodeId,
    from: NodeId,
    tag: ReplyTag,
    response: RpcResponse,
) -> bool {
    match (tag, response) {
        (ReplyTag::Vote { sent_term }, RpcResponse::RequestVote(reply)) => {
            reply.vote_granted ==> h.ballots.contains_key((from, sent_term)) && h.ballots[(
                from,
                sent_term,
            )].candidate == asker
        },
        (
            ReplyTag::Append { sent_term, sent_prev_index, sent_entries, sent_seq },
            RpcResponse::AppendEntries(reply),
        ) => {
            &&& reply.success ==> h.held_by(from, sent_term) >= sent_prev_index + sent_entries
            &&& answered_at(h, sent_term, from, sent_seq, reply.term)
        },
        (
            ReplyTag::InstallSnapshot { sent_term, last_included_index },
            RpcResponse::InstallSnapshot(reply),
        ) => {
            reply.term <= sent_term ==> h.held_by(from, sent_term) >= last_included_index
        },
        _ => true,
    }
}

/// What a node that sent something under `tag` has to show for it.
pub open spec fn tag_ok(h: History, from: NodeId, tag: ReplyTag) -> bool {
    match tag {
        ReplyTag::Append { sent_term, sent_prev_index, sent_entries, sent_seq } => {
            &&& h.reigns.contains_key(sent_term)
            &&& h.reigns[sent_term].leader == from
            &&& sent_seq < h.reigns[sent_term].pulses.len()
            &&& sent_prev_index + sent_entries <= h.reigns[sent_term].log.len()
        },
        ReplyTag::InstallSnapshot { sent_term, last_included_index } => {
            &&& h.reigns.contains_key(sent_term)
            &&& h.reigns[sent_term].leader == from
            &&& last_included_index <= h.reigns[sent_term].log.len()
        },
        _ => true,
    }
}

/// An accepted write is committed: it is the entry that a leader of a term up
/// to `term` found committed at its index.
pub open spec fn settled_write(h: History, w: Accepted, term: Term) -> bool {
    exists|t: Term, i: int, q: int| #[trigger]
        h.vouched(t, i, q) && t <= term && 0 < w.entry.index <= i && h.reigns[t].log[w.entry.index - 1] == w.entry
}

/// A write that `n` accepted under `ticket` is committed.
pub open spec fn told_ok(h: History, n: NodeId, ticket: u64) -> bool {
    exists|w: Accepted| #[trigger]
        h.accepted.contains(w) && w.node == n && w.ticket == ticket && settled_write(h, w, h.replicas[n].term)
}

/// A waiting proposal is a write that `n` accepted.
pub open spec fn pending_ok(h: History, n: NodeId, p: PendingProposal) -> bool {
    exists|w: Accepted| #[trigger]
        h.accepted.contains(w) && w.node == n && w.ticket == p.ticket && w.entry.term == p.term
            && w.entry.index == p.index
}

/// What a node may let out: letters that the history bears out, and good news
/// only of writes that are committed.
pub open spec fn sends_ok<S: StateMachine>(
    h: History,
    origin: S::State,
    from: NodeId,
    effects: Seq<EffectModel<S::State>>,
) -> bool {
    forall|i: int|
        #![trigger effects[i]]
        0 <= i < effects.len() ==> match effects[i] {
            EffectModel::Send { to, request, tag } => letter_ok::<S>(h, origin, from, request, tag),
            EffectModel::Resolve { ticket, committed } => committed ==> told_ok(h, from, ticket),
            _ => true,
        }
}

pub open spec fn all_pending_ok(h: History, n: NodeId, pending: Seq<PendingProposal>) -> bool {
    forall|i: int| #![trigger pending[i]] 0 <= i < pending.len() ==> pending_ok(h, n, pending[i])
}

pub open spec fn role_tied(h: History, role: RoleModel, r: Replica) -> bool {
    match role {
        RoleModel::Follower => r.stage == Stage::Follower,
        RoleModel::PreCandidate { .. } => r.stage == Stage::Follower,
        RoleModel::Candidate { votes } => r.stage == (Stage::Candidate { votes }),
        RoleModel::Leader(leader) => {
            &&& r.stage == Stage::Leader
            &&& leader.term_start_index == h.reigns[r.term].start.len() + 1
            &&& forall|id: NodeId| #[trigger]
                leader.match_index.contains_key(id) ==> h.held_by(id, r.term)
                    >= leader.match_index[id]
            &&& leader.heartbeat_seq + 1 == h.reigns[r.term].pulses.len()
            &&& forall|id: NodeId| #[trigger]
                leader.acked_seq.contains_key(id) ==> answered_at(
                    h,
                    r.term,
                    id,
                    leader.acked_seq[id],
                    r.term,
                )
            &&& forall|i: int|
                #![trigger leader.pending_reads[i]]
                0 <= i < leader.pending_reads.len() ==> read_ok(h, r.term, leader.pending_reads[i])
        },
    }
}

/// The node `m` is where the history has node `n`.
pub open spec fn tied<S: StateMachine>(
    h: History,
    origin: S::State,
    n: NodeId,
    m: NodeModel<S>,
) -> bool {
    let r = h.replicas[n];
    &&& h.replicas.contains_key(n)
    &&& m.settings.id == n
    &&& m.origin == origin
    &&& started_right(h, m.settings)
    &&& m.inv()
    &&& r.term == m.term()
    &&& r.voted_for == m.files.hard_state.voted_for
    &&& r.commit == m.commit_index
    &&& backed::<S>(m.files, r.log, origin)
    &&& role_tied(h, m.role, r)
    &&& m.is_leader() ==> last_config(r.log) is Some || m.settings.bootstrap.ids().len() > 0
    &&& sends_ok::<S>(h, origin, n, m.effects)
    &&& all_pending_ok(h, n, m.pending)
}

/// The log of `n` is what it has as leader of `t`.
pub open spec fn leads_log(h: History, n: NodeId, t: Term) -> bool {
    h.reigns.contains_key(t) && h.replicas[n].log == h.reigns[t].log
}

// ---- what the disk has ----

/// Where an event finds a node: the history and the node's files before it.
#[verifier::ext_equal]
#[verifier::reject_recursive_types(S)]
pub struct Anchor<S: StateMachine> {
    pub origin: S::State,
    pub start: History,
    pub base: Durable<S::State>,
}

/// The files are what the history has of node `n`.
pub open spec fn disk_tied<S: StateMachine>(
    h: History,
    origin: S::State,
    n: NodeId,
    files: Durable<S::State>,
) -> bool {
    let r = h.replicas[n];
    &&& h.replicas.contains_key(n)
    &&& files.wf()
    &&& r.term == files.hard_state.current_term
    &&& r.voted_for == files.hard_state.voted_for
    &&& backed::<S>(files, r.log, origin)
    &&& h.final_through(r.log, files.snapshot_index(), r.term)
}

/// A node that crashes with these files on its disk comes back to a point of
/// the history.
pub open spec fn recoverable<S: StateMachine>(
    o: Anchor<S>,
    n: NodeId,
    files: Durable<S::State>,
) -> bool {
    exists|h: History| #[trigger]
        h.inv() && registers_no_read(o.start, h, n) && disk_tied::<S>(
            h,
            o.origin,
            n,
            files.reopened(),
        )
}

/// The writes bring the files from where the event found them to `files`; after
/// a crash between or within any of them the disk opens, and is recoverable.
#[verifier::opaque]
pub open spec fn journaled<S: StateMachine>(
    o: Anchor<S>,
    n: NodeId,
    writes: Seq<WriteModel<S::State>>,
    files: Durable<S::State>,
) -> bool {
    &&& o.base.after_all(writes) == files
    &&& forall|done: int, lines: int|
        0 <= done <= writes.len() ==> safe(o, n, #[trigger] crash_disk(o.base, writes, done, lines))
}

/// A disk that opens, and is recoverable.
pub open spec fn safe<S: StateMachine>(o: Anchor<S>, n: NodeId, disk: Durable<S::State>) -> bool {
    disk.openable() && recoverable(o, n, disk)
}

/// The node `m` is where the history has node `n`, and so was its disk at
/// every moment of the event.
pub open spec fn logged<S: StateMachine>(
    h: History,
    o: Anchor<S>,
    n: NodeId,
    m: NodeModel<S>,
) -> bool {
    &&& tied(h, o.origin, n, m)
    &&& registers_no_read(o.start, h, n)
    &&& journaled(o, n, m.writes, m.files)
}

/// One more write, after which the disk is where the history has the node; and
/// if it is an append of several lines, so is it after some of them.
pub proof fn journal_write<S: StateMachine>(
    o: Anchor<S>,
    n: NodeId,
    writes: Seq<WriteModel<S::State>>,
    files: Durable<S::State>,
    write: WriteModel<S::State>,
    h: History,
)
    requires
        journaled(o, n, writes, files),
        h.inv(),
        registers_no_read(o.start, h, n),
        files.after(write).openable(),
        disk_tied::<S>(h, o.origin, n, files.after(write).reopened()),
        write matches WriteModel::AppendLog(entries) ==> forall|lines: int|
            0 < lines < entries.len() ==> safe(o, n, #[trigger] files.after_part(write, lines)),
    ensures
        journaled(o, n, writes.push(write), files.after(write)),
{
    reveal(journaled);
    let more = writes.push(write);
    assert(more.drop_last() =~= writes);
    assert(writes.take(writes.len() as int) =~= writes);
    assert(safe(o, n, crash_disk(o.base, writes, writes.len() as int, 0)));
    assert(safe(o, n, files.after(write)));
    assert forall|done: int, lines: int| 0 <= done <= more.len() implies safe(
        o,
        n,
        #[trigger] crash_disk(o.base, more, done, lines),
    ) by {
        if done < writes.len() {
            assert(more.take(done) =~= writes.take(done));
            assert(crash_disk(o.base, more, done, lines) == crash_disk(o.base, writes, done, lines));
        } else if done == writes.len() {
            assert(more.take(done) =~= writes);
            let disk = files.after_part(write, lines);
            assert(crash_disk(o.base, more, done, lines) == disk);
            if let WriteModel::AppendLog(entries) = write {
                if lines == 0 {
                    assert(files.log + entries.take(0) =~= files.log);
                    assert(disk == files);
                } else if lines == entries.len() {
                    assert(entries.take(lines) =~= entries);
                }
            }
        } else {
            assert(more.take(done) =~= more);
        }
    }
}

/// One more write, after which the disk is where the history has the node as
/// it then is.
pub proof fn journal_tied<S: StateMachine>(
    h: History,
    o: Anchor<S>,
    n: NodeId,
    m: NodeModel<S>,
    m2: NodeModel<S>,
    write: WriteModel<S::State>,
)
    requires
        journaled(o, n, m.writes, m.files),
        h.inv(),
        registers_no_read(o.start, h, n),
        tied(h, o.origin, n, m2),
        m2.writes == m.writes.push(write),
        m2.files == m.files.after(write),
        write matches WriteModel::AppendLog(entries) ==> entries.len() == 1,
    ensures
        logged(h, o, n, m2),
{
    disk_of_tied(h, o.origin, n, m2);
    journal_write(o, n, m.writes, m.files, write, h);
}

/// Before the first write the disk is where the event found it.
pub proof fn journal_starts<S: StateMachine>(o: Anchor<S>, n: NodeId)
    requires
        o.start.inv(),
        disk_tied::<S>(o.start, o.origin, n, o.base),
    ensures
        journaled(o, n, Seq::empty(), o.base),
{
    reveal(journaled);
    moved_nowhere(o.start, n);
    reopened_same(o.base);
    let none = Seq::<WriteModel<S::State>>::empty();
    assert forall|done: int, lines: int| 0 <= done <= none.len() implies safe(
        o,
        n,
        #[trigger] crash_disk(o.base, none, done, lines),
    ) by {
        assert(none.take(done) =~= none);
    }
}

/// A tied node's own files.
pub proof fn disk_of_tied<S: StateMachine>(h: History, origin: S::State, n: NodeId, m: NodeModel<S>)
    requires
        h.inv(),
        tied(h, origin, n, m),
    ensures
        disk_tied::<S>(h, origin, n, m.files),
        m.files.reopened() == m.files,
        m.files.openable(),
{
    let r = h.replicas[n];
    assert(h.replica_ok(n, r));
    final_less(h, r.log, r.commit as int, m.files.snapshot_index(), r.term);
    reopened_same(m.files);
}

/// Less of a log is committed too.
pub proof fn final_less(h: History, log: Seq<LogEntry>, n: int, k: int, term: Term)
    requires
        h.final_through(log, n, term),
        k <= n,
    ensures
        h.final_through(log, k, term),
{
    if k > 0 {
        let (t, i, q) = choose|t: Term, i: int, q: int| #[trigger]
            h.vouched(t, i, q) && t <= term && n <= i && agree(h.reigns[t].log, log, n);
        agree_less(h.reigns[t].log, log, n, k);
    }
}

// ---- what stays true ----

/// What a node sent stays a fact of the history.
pub proof fn letter_stays<S: StateMachine>(
    h: History,
    h2: History,
    origin: S::State,
    from: NodeId,
    request: RequestModel<S::State>,
    tag: ReplyTag,
)
    requires
        h2.extends(h),
        letter_ok::<S>(h, origin, from, request, tag),
    ensures
        letter_ok::<S>(h2, origin, from, request, tag),
{
    match request {
        RequestModel::RequestVote(args) => {
            assert(h2.bids.contains_key((from, args.term)));
        },
        RequestModel::PreVote(_) => {},
        RequestModel::SnapshotChunk(_) => {},
        RequestModel::AppendEntries(args) => {
            let log = h.reigns[args.term].log;
            let log2 = h2.reigns[args.term].log;
            let n = args.prev_log_index + args.entries.len();
            reign_final_stays(h, h2, args.term, args.leader_commit as int, args.term);
            agree_less(log, log2, log.len() as int, n);
            agree_takes(log, log2, log.len() as int);
            assert(log2.subrange(args.prev_log_index as int, n) =~= log.subrange(
                args.prev_log_index as int,
                n,
            )) by {
                reveal(agree);
            }
            if args.prev_log_index > 0 {
                agree_at(log, log2, log.len() as int, args.prev_log_index - 1);
            }
        },
        RequestModel::InstallSnapshot(args) => {
            let log = h.reigns[args.term].log;
            let log2 = h2.reigns[args.term].log;
            let boundary = args.snapshot.last_included_index as int;
            reign_final_stays(h, h2, args.term, boundary, args.term);
            agree_less(log, log2, log.len() as int, boundary);
            agree_takes(log, log2, boundary);
            agree_at(log, log2, log.len() as int, boundary - 1);
        },
    }
}

/// What of a leader's log is committed stays committed.
proof fn reign_final_stays(h: History, h2: History, t: Term, n: int, term: Term)
    requires
        h2.extends(h),
        h.reigns.contains_key(t),
        n <= h.reigns[t].log.len(),
        h.final_through(h.reigns[t].log, n, term),
    ensures
        h2.final_through(h2.reigns[t].log, n, term),
{
    let log = h.reigns[t].log;
    let log2 = h2.reigns[t].log;
    super::progress::final_stays(h, h2, log, n, term, term);
    if n > 0 {
        let (t0, i, q) = choose|t0: Term, i: int, q: int| #[trigger]
            h2.vouched(t0, i, q) && t0 <= term && n <= i && agree(h2.reigns[t0].log, log, n);
        agree_less(log, log2, log.len() as int, n);
        agree_across(h2.reigns[t0].log, log, log2, n);
    }
}

pub proof fn sends_stay<S: StateMachine>(
    h: History,
    h2: History,
    origin: S::State,
    from: NodeId,
    effects: Seq<EffectModel<S::State>>,
)
    requires
        h2.extends(h),
        h.replicas.contains_key(from),
        sends_ok::<S>(h, origin, from, effects),
    ensures
        sends_ok::<S>(h2, origin, from, effects),
{
    assert forall|i: int| #![trigger effects[i]] 0 <= i < effects.len() implies match effects[i] {
        EffectModel::Send { to, request, tag } => letter_ok::<S>(h2, origin, from, request, tag),
        EffectModel::Resolve { ticket, committed } => committed ==> told_ok(h2, from, ticket),
        _ => true,
    } by {
        match effects[i] {
            EffectModel::Send { to, request, tag } => {
                letter_stays::<S>(h, h2, origin, from, request, tag);
            },
            EffectModel::Resolve { ticket, committed } => {
                if committed {
                    told_stays(h, h2, from, ticket);
                }
            },
            _ => {},
        }
    }
}

/// A committed write stays committed.
pub proof fn settled_write_stays(h: History, h2: History, w: Accepted, term: Term, term2: Term)
    requires
        h2.extends(h),
        settled_write(h, w, term),
        term <= term2,
    ensures
        settled_write(h2, w, term2),
{
    let (t, i, q) = choose|t: Term, i: int, q: int| #[trigger]
        h.vouched(t, i, q) && t <= term && 0 < w.entry.index <= i && h.reigns[t].log[w.entry.index - 1]
            == w.entry;
    super::progress::committed_stays(h, h2, t, i, q);
    agree_at(h.reigns[t].log, h2.reigns[t].log, h.reigns[t].log.len() as int, w.entry.index - 1);
    assert(h2.vouched(t, i, q));
}

proof fn told_stays(h: History, h2: History, n: NodeId, ticket: u64)
    requires
        h2.extends(h),
        h.replicas.contains_key(n),
        told_ok(h, n, ticket),
    ensures
        told_ok(h2, n, ticket),
{
    let w = choose|w: Accepted| #[trigger]
        h.accepted.contains(w) && w.node == n && w.ticket == ticket && settled_write(h, w, h.replicas[n].term);
    settled_write_stays(h, h2, w, h.replicas[n].term, h2.replicas[n].term);
    assert(h2.accepted.contains(w));
}

pub proof fn pending_stay(h: History, h2: History, n: NodeId, pending: Seq<PendingProposal>)
    requires
        h2.extends(h),
        all_pending_ok(h, n, pending),
    ensures
        all_pending_ok(h2, n, pending),
{
    assert forall|i: int| #![trigger pending[i]] 0 <= i < pending.len() implies pending_ok(
        h2,
        n,
        pending[i],
    ) by {
        let p = pending[i];
        assert(pending_ok(h, n, p));
        let w = choose|w: Accepted| #[trigger]
            h.accepted.contains(w) && w.node == n && w.ticket == p.ticket && w.entry.term == p.term
                && w.entry.index == p.index;
        assert(h2.accepted.contains(w));
    }
}

proof fn answered_stays(h: History, h2: History, t: Term, id: NodeId, seq: u64, term: Term)
    requires
        h2.extends(h),
        h.reigns.contains_key(t),
        answered_at(h, t, id, seq, term),
    ensures
        answered_at(h2, t, id, seq, term),
{
    let pulses = h.reigns[t].pulses;
    let pulses2 = h2.reigns[t].pulses;
    assert forall|i: int| #![trigger pulses2[i]]
        0 <= i <= seq && pulses2[i].terms.contains_key(id) implies pulses2[i].terms[id] <= term by {
        assert(pulses2.take(pulses.len() as int)[i] == pulses[i]);
    }
}

pub proof fn answer_stays(
    h: History,
    h2: History,
    asker: NodeId,
    from: NodeId,
    tag: ReplyTag,
    response: RpcResponse,
)
    requires
        h2.extends(h),
        tag_ok(h, asker, tag),
        answer_ok(h, asker, from, tag, response),
    ensures
        answer_ok(h2, asker, from, tag, response),
{
    match tag {
        ReplyTag::Vote { sent_term } => {
            if h.ballots.contains_key((from, sent_term)) {
                assert(h2.ballots.contains_key((from, sent_term)));
            }
        },
        ReplyTag::Append { sent_term, sent_seq, .. } => {
            assert(h2.held_by(from, sent_term) >= h.held_by(from, sent_term));
            if let RpcResponse::AppendEntries(reply) = response {
                answered_stays(h, h2, sent_term, from, sent_seq, reply.term);
            }
        },
        ReplyTag::InstallSnapshot { sent_term, .. } => {
            assert(h2.held_by(from, sent_term) >= h.held_by(from, sent_term));
        },
        _ => {},
    }
}

pub proof fn tag_stays(h: History, h2: History, from: NodeId, tag: ReplyTag)
    requires
        h2.extends(h),
        tag_ok(h, from, tag),
    ensures
        tag_ok(h2, from, tag),
{
    match tag {
        ReplyTag::Append { sent_term, .. } => {
            assert(h2.reigns.contains_key(sent_term));
            reveal(agree);
        },
        ReplyTag::InstallSnapshot { sent_term, .. } => {
            assert(h2.reigns.contains_key(sent_term));
            reveal(agree);
        },
        _ => {},
    }
}

/// A later point of the history at which only `n` has moved.
pub open spec fn grown(h: History, h2: History, n: NodeId) -> bool {
    &&& h2.extends(h)
    &&& forall|x: NodeId| x != n ==> #[trigger] h2.replicas[x] == h.replicas[x]
    &&& forall|t: Term| #[trigger]
        h.reigns.contains_key(t) && h.reigns[t].leader != n ==> h2.reigns[t].pulses
            == h.reigns[t].pulses
}

/// A later point of the history at which only `n` has moved, and has
/// registered no read and accepted no write.
pub open spec fn moved(h: History, h2: History, n: NodeId) -> bool {
    &&& registers_no_read(h, h2, n)
    &&& h2.accepted == h.accepted
}

/// A later point of the history at which only `n` has moved, and has
/// registered no read.
pub open spec fn registers_no_read(h: History, h2: History, n: NodeId) -> bool {
    &&& grown(h, h2, n)
    &&& forall|t: Term| #[trigger]
        h.reigns.contains_key(t) ==> h2.reigns[t].pulses == h.reigns[t].pulses
    &&& forall|t: Term| #[trigger]
        h2.reigns.contains_key(t) && !h.reigns.contains_key(t) ==> h2.reigns[t].pulses.len() == 1
}

/// A node is not moved by the steps of another.
pub proof fn tied_stays<S: StateMachine>(
    h: History,
    h2: History,
    n: NodeId,
    origin: S::State,
    id: NodeId,
    m: NodeModel<S>,
)
    requires
        h.inv(),
        grown(h, h2, n),
        id != n,
        tied(h, origin, id, m),
    ensures
        tied(h2, origin, id, m),
{
    let r = h.replicas[id];
    assert(h2.replicas.dom().contains(id));
    assert(h2.replicas[id] == r);
    assert(h.replica_ok(id, r));
    sends_stay::<S>(h, h2, origin, id, m.effects);
    pending_stay(h, h2, id, m.pending);
    if let RoleModel::Leader(leader) = m.role {
        assert forall|x: NodeId| #[trigger] leader.match_index.contains_key(x) implies h2.held_by(
            x,
            r.term,
        ) >= leader.match_index[x] by {
            assert(h2.held_by(x, r.term) >= h.held_by(x, r.term));
        }
    }
}

/// Later points of a history follow one another.
pub proof fn extends_compose(h: History, h2: History, h3: History)
    requires
        h2.extends(h),
        h3.extends(h2),
    ensures
        h3.extends(h),
{
    assert forall|t: Term| #[trigger] h.reigns.contains_key(t) implies {
        &&& h3.reigns.contains_key(t)
        &&& h3.reigns[t].leader == h.reigns[t].leader
        &&& h3.reigns[t].start == h.reigns[t].start
        &&& h3.reigns[t].quorum == h.reigns[t].quorum
        &&& h3.reigns[t].commit >= h.reigns[t].commit
        &&& h3.reigns[t].pulses.len() >= h.reigns[t].pulses.len()
        &&& h3.reigns[t].pulses.take(h.reigns[t].pulses.len() as int) == h.reigns[t].pulses
        &&& agree(h.reigns[t].log, h3.reigns[t].log, h.reigns[t].log.len() as int)
    } by {
        assert(h2.reigns.contains_key(t));
        let len = h.reigns[t].log.len() as int;
        reveal(agree);
        agree_less(h2.reigns[t].log, h3.reigns[t].log, h2.reigns[t].log.len() as int, len);
        agree_across(h.reigns[t].log, h2.reigns[t].log, h3.reigns[t].log, len);
        let p = h.reigns[t].pulses;
        let p2 = h2.reigns[t].pulses;
        let p3 = h3.reigns[t].pulses;
        assert(p3.take(p.len() as int) =~= p3.take(p2.len() as int).take(p.len() as int));
    }
    assert forall|id: NodeId, t: Term| #[trigger] h3.held_by(id, t) >= h.held_by(id, t) by {
        assert(h2.held_by(id, t) >= h.held_by(id, t));
    }
    assert forall|x: (NodeId, Term)| #[trigger] h.bids.contains_key(x) implies h3.bids.contains_key(x)
        && h3.bids[x] == h.bids[x] by {
        assert(h2.bids.contains_key(x));
    }
    assert forall|x: (NodeId, Term)| #[trigger] h.ballots.contains_key(x) implies h3.ballots.contains_key(
        x,
    ) && h3.ballots[x] == h.ballots[x] by {
        assert(h2.ballots.contains_key(x));
    }
}

/// Moves without a read follow one another.
pub proof fn no_reads_compose(h: History, h2: History, h3: History, n: NodeId)
    requires
        registers_no_read(h, h2, n),
        registers_no_read(h2, h3, n),
    ensures
        registers_no_read(h, h3, n),
{
    extends_compose(h, h2, h3);
    assert forall|x: NodeId| x != n implies #[trigger] h3.replicas[x] == h.replicas[x] by {
        assert(h2.replicas[x] == h.replicas[x]);
    }
    assert forall|t: Term| #[trigger] h.reigns.contains_key(t) implies h3.reigns[t].pulses
        == h.reigns[t].pulses by {
        assert(h2.reigns.contains_key(t));
    }
    assert forall|t: Term| #[trigger]
        h3.reigns.contains_key(t) && !h.reigns.contains_key(t) implies h3.reigns[t].pulses.len() == 1 by {
        if h2.reigns.contains_key(t) {
            assert(h3.reigns[t].pulses == h2.reigns[t].pulses);
        }
    }
}

/// Moves follow one another.
pub proof fn moves_compose(h: History, h2: History, h3: History, n: NodeId)
    requires
        moved(h, h2, n),
        moved(h2, h3, n),
    ensures
        moved(h, h3, n),
{
    no_reads_compose(h, h2, h3, n);
}

/// Nothing has happened yet.
pub proof fn moved_nowhere(h: History, n: NodeId)
    ensures
        moved(h, h, n),
{
    reveal(agree);
    assert forall|t: Term| #[trigger] h.reigns.contains_key(t) implies h.reigns[t].pulses.take(
        h.reigns[t].pulses.len() as int,
    ) == h.reigns[t].pulses by {
        assert(h.reigns[t].pulses.take(h.reigns[t].pulses.len() as int) =~= h.reigns[t].pulses);
    }
}

} // verus!
