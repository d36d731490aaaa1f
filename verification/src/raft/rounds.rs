//! Every request, reply, timer and client call is a step of the cluster's
//! history, and every answer is true of it.

use std::sync::Arc;

use vstd::prelude::*;

use super::agreement::{
    agree_across, agree_at, agree_back, agree_less, agree_of_take, agree_takes, logs_match,
};
use super::history::{Accepted, agree, newer, one_apart, History};
use super::chunks::reached;
use super::durability::{reopened_same, snapshot_over_log};
use super::machine::StateMachine;
use super::membership::{addrs_of_members, ascending, config_of, single_change, Membership};
use super::model::{
    larger, lookup, smaller, EffectModel, LeaderModel, NodeModel, PendingProposal, ReplyTag, RoleModel,
};
use super::moves::{
    backed_ends, backed_term, become_follower_moves, broadcast_tied, commit_to_moves,
    heartbeat_moves, leader_append_moves, maybe_advance_commit_moves, maybe_become_leader_moves,
    maybe_start_election_moves, members_by_log, resolve_reads_tied, send_append_tied,
};
use super::progress::{adopt_keeps, commit_keeps, count_keeps, final_in_reign, final_stays, grant_keeps, accept_keeps, pulse_keeps, cut_keeps};
use super::rpc::{AppendModel, ChunkModel, InstallModel, RequestModel, RequestVoteArgs, RpcResponse};
use super::storage::WriteModel;
use super::ties::{
    all_pending_ok, answer_ok, answered_at, append_fits, backed, disk_of_tied, disk_tied, final_less,
    grown, journal_tied, journal_write, journaled, leads_log, letter_ok, logged, moved,
    moved_nowhere, moves_compose, no_reads_compose, pending_ok, pending_stay, read_ok,
    registers_no_read, safe, sends_ok, sends_stay, snapshot_fits, tag_ok, tied, told_ok,
    Anchor,
};
use super::transport::TransportError;
use super::types::{Command, HardState, LogEntry, LogIndex, NodeId, Term};

verus! {

// ---- votes ----

/// A vote request, and its answer.
#[verifier::rlimit(40)]
pub proof fn request_vote_moves<S: StateMachine>(
    h: History,
    o: Anchor<S>,
    n: NodeId,
    m: NodeModel<S>,
    args: RequestVoteArgs,
    from: NodeId,
    tag: ReplyTag,
    now: u64,
) -> (h2: History)
    requires
        h.inv(),
        logged(h, o, n, m),
        m.settled(),
        letter_ok::<S>(h, o.origin, from, RequestModel::RequestVote(args), tag),
    ensures
        h2.inv(),
        moved(h, h2, n),
        logged(h2, o, n, m.on_request_vote(args, now).0),
        m.on_request_vote(args, now).0.settled(),
        answer_ok(h2, from, n, tag, RpcResponse::RequestVote(m.on_request_vote(args, now).1)),
{
    moved_nowhere(h, n);
    let heard = if args.term > m.term() {
        m.become_follower(args.term, None, now)
    } else {
        m
    };
    let h1 = if args.term > m.term() {
        become_follower_moves(h, o, n, m, args.term, None, now)
    } else {
        h
    };
    assert(heard.settled());
    if args.term >= heard.term() && heard.can_vote_for(args.candidate_id) && heard.up_to_date(args) {
        let t = args.term;
        let r = h1.replicas[n];
        assert(heard.term() == t);
        backed_ends::<S>(heard.files, r.log, o.origin);
        assert(h1.bids.contains_key((from, t)));
        assert(newer(h1.bids[(from, t)], r.log));
        assert(h1.replica_ok(n, r));
        let m2 = m.on_request_vote(args, now).0;
        let vote = WriteModel::HardState(
            HardState { current_term: heard.term(), voted_for: Some(args.candidate_id) },
        );
        if r.voted_for is None {
            grant_keeps(h1, n, from);
            let h2 = h1.granted(n, from);
            sends_stay::<S>(h1, h2, o.origin, n, heard.effects);
            pending_stay(h1, h2, n, heard.pending);
            moves_compose(h, h1, h2, n);
            no_reads_compose(o.start, h1, h2, n);
            assert(h2.ballots.contains_key((n, t)));
            assert(tied(h2, o.origin, n, m2));
            journal_tied(h2, o, n, heard, m2, vote);
            h2
        } else {
            assert(tied(h1, o.origin, n, m2));
            journal_tied(h1, o, n, heard, m2, vote);
            h1
        }
    } else {
        h1
    }
}

// ---- replication ----

/// What an AppendEntries finds in a follower of its leader's term.
#[verifier::rlimit(30)]
proof fn append_meets<S: StateMachine>(
    h: History,
    origin: S::State,
    n: NodeId,
    m: NodeModel<S>,
    args: AppendModel,
)
    requires
        h.inv(),
        tied(h, origin, n, m),
        m.term() == args.term,
        h.reigns.contains_key(args.term),
        append_fits(h, args),
        m.prev_matches(args),
    ensures
        args.well_shaped(),
        agree(h.replicas[n].log, h.reigns[args.term].log, args.prev_log_index as int),
        agree(h.replicas[n].log, h.reigns[args.term].log, m.commit_index as int),
        forall|j: int| #![trigger args.entries[j]]
            0 <= j < args.entries.len() ==> {
                &&& args.entries[j] == h.reigns[args.term].log[args.prev_log_index + j]
                &&& m.has_entry(args.entries[j]) <==> agree(
                    h.replicas[n].log,
                    h.reigns[args.term].log,
                    args.prev_log_index + j + 1,
                )
            },
        m.spares_committed(args.entries),
{
    let r = h.replicas[n];
    let t = args.term;
    let log = r.log;
    let g = h.reigns[t];
    let c = r.commit as int;
    let prev = args.prev_log_index as int;
    assert(h.replica_ok(n, r));
    assert(h.reign_ok(t));
    final_in_reign(h, log, c, t, t);
    let si = m.files.snapshot_index();
    backed_term::<S>(m.files, log, origin, prev);
    if prev <= c {
        agree_less(log, g.log, c, prev);
    } else {
        logs_match(h.reigns, log, g.log, prev - 1);
    }
    assert forall|j: int| #![trigger args.entries[j]] 0 <= j < args.entries.len() implies {
        &&& args.entries[j] == g.log[prev + j]
        &&& args.entries[j].index == prev + 1 + j
        &&& m.has_entry(args.entries[j]) <==> agree(log, g.log, prev + j + 1)
    } by {
        super::agreement::sound_at(h.reigns, g.log, prev + j);
        let index = prev + j + 1;
        backed_term::<S>(m.files, log, origin, index);
        if m.has_entry(args.entries[j]) {
            if index <= c {
                agree_less(log, g.log, c, index);
            } else {
                logs_match(h.reigns, log, g.log, index - 1);
            }
        }
        if agree(log, g.log, index) {
            agree_at(log, g.log, index, index - 1);
        }
    }
    if !m.has_all(args.entries) {
        super::upkeep::first_new_exists(m, args.entries);
        let i = m.first_new(args.entries);
        if prev + i + 1 <= c {
            agree_less(log, g.log, c, prev + i + 1);
        }
    }
}

/// The log of a follower that cut a conflict and took over the rest.
proof fn merged_log<S: StateMachine>(
    m: NodeModel<S>,
    origin: S::State,
    args: AppendModel,
    log: Seq<LogEntry>,
    theirs: Seq<LogEntry>,
)
    requires
        m.files.wf(),
        backed::<S>(m.files, log, origin),
        args.well_shaped(),
        m.prev_matches(args),
        !m.has_all(args.entries),
        args.prev_log_index + args.entries.len() <= theirs.len(),
        args.entries == theirs.subrange(
            args.prev_log_index as int,
            args.prev_log_index + args.entries.len(),
        ),
        agree(log, theirs, args.prev_log_index as int),
        forall|j: int| #![trigger args.entries[j]]
            0 <= j < args.entries.len() ==> (m.has_entry(args.entries[j]) <==> agree(
                log,
                theirs,
                args.prev_log_index + j + 1,
            )),
    ensures
        !agree(log, theirs, args.prev_log_index + args.entries.len()),
        m.merge(args).files.log == theirs.take(
            args.prev_log_index + args.entries.len(),
        ).skip(m.files.snapshot_index()),
{
    let prev = args.prev_log_index as int;
    let k = prev + args.entries.len();
    let si = m.files.snapshot_index();
    super::upkeep::first_new_exists(m, args.entries);
    let i = m.first_new(args.entries);
    super::upkeep::first_new_fits(m, args, i);
    let index = prev + 1 + i;
    if agree(log, theirs, k) {
        agree_less(log, theirs, k, index);
    }
    if i > 0 {
        assert(m.has_entry(args.entries[i - 1]));
    }
    assert(agree(log, theirs, index - 1));
    let rest = args.entries.skip(i);
    backed_ends::<S>(m.files, log, origin);
    merge_writes(m, args);
    assert(rest =~= theirs.subrange(index - 1, k));
    spliced(log, theirs, rest, si, index, k);
    if !m.files.holds(index) {
        assert(log.skip(si).take(index - 1 - si) =~= m.files.log);
    }
}

/// A log cut before `index` and continued from another that agrees with it so
/// far is the other.
proof fn spliced(
    log: Seq<LogEntry>,
    theirs: Seq<LogEntry>,
    rest: Seq<LogEntry>,
    from: int,
    index: int,
    to: int,
)
    requires
        0 <= from < index <= to <= theirs.len(),
        agree(log, theirs, index - 1),
        rest == theirs.subrange(index - 1, to),
    ensures
        log.skip(from).take(index - 1 - from) + rest == theirs.take(to).skip(from),
{
    agree_takes(log, theirs, index - 1);
    assert(log.skip(from).take(index - 1 - from) =~= log.take(index - 1).skip(from));
    assert(theirs.take(index - 1).skip(from) + rest =~= theirs.take(to).skip(from));
}

/// Proposals above the commit point get no good news.
proof fn bad_news<S: StateMachine>(h: History, origin: S::State, n: NodeId, x: NodeModel<S>)
    requires
        sends_ok::<S>(h, origin, n, x.effects),
        all_pending_ok(h, n, x.pending),
        forall|i: int|
            #![trigger x.pending[i]]
            0 <= i < x.pending.len() ==> x.pending[i].index > x.commit_index,
    ensures
        sends_ok::<S>(h, origin, n, x.resolve_pending().effects),
        all_pending_ok(h, n, x.resolve_pending().pending),
{
    let decided = |p: PendingProposal| x.decided(p);
    let told = x.pending.filter(decided);
    let verdicts = told.map_values(|p: PendingProposal| x.verdict(p));
    super::upkeep::filter_keeps(x.pending, decided);
    assert forall|i: int| #![trigger verdicts[i]] 0 <= i < verdicts.len() implies match verdicts[i] {
        EffectModel::Send { to, request, tag } => letter_ok::<S>(h, origin, n, request, tag),
        EffectModel::Resolve { ticket, committed } => committed ==> told_ok(h, n, ticket),
        _ => true,
    } by {
        assert(decided(told[i]));
        assert(x.pending.contains(told[i]));
        let k = choose|k: int| 0 <= k < x.pending.len() && x.pending[k] == told[i];
        assert(x.pending[k].index > x.commit_index);
    }
    super::moves::emit_sends::<S>(h, origin, n, x.effects, verdicts);
    super::moves::pending_left(h, n, x);
}

/// Taking over a batch sends nothing, and brings no good news.
proof fn merge_effects<S: StateMachine>(
    h: History,
    origin: S::State,
    n: NodeId,
    m: NodeModel<S>,
    args: AppendModel,
)
    requires
        m.settled(),
        sends_ok::<S>(h, origin, n, m.effects),
        all_pending_ok(h, n, m.pending),
    ensures
        sends_ok::<S>(h, origin, n, m.merge(args).effects),
        all_pending_ok(h, n, m.merge(args).pending),
{
    if !m.has_all(args.entries) {
        let i = m.first_new(args.entries);
        if m.files.holds(args.entries[i].index as int) {
            bad_news(h, origin, n, m.truncate(args.entries[i].index as int));
        }
    }
}

/// A follower that has dropped a conflict and taken over nothing yet.
#[verifier::rlimit(30)]
proof fn cut_moves<S: StateMachine>(
    h: History,
    origin: S::State,
    n: NodeId,
    m: NodeModel<S>,
    index: int,
) -> (cut: History)
    requires
        h.inv(),
        tied(h, origin, n, m),
        m.role is Follower,
        h.reigns.contains_key(m.term()),
        m.files.holds(index),
        m.commit_index < index <= h.reigns[m.term()].log.len(),
        agree(h.replicas[n].log, h.reigns[m.term()].log, index - 1),
        !agree(h.replicas[n].log, h.reigns[m.term()].log, index),
    ensures
        cut.inv(),
        moved(h, cut, n),
        disk_tied::<S>(cut, origin, n, m.files.truncated(index)),
        m.files.truncated(index).reopened() == m.files.truncated(index),
        m.files.truncated(index).openable(),
{
    let r = h.replicas[n];
    let si = m.files.snapshot_index();
    let files = m.files.truncated(index);
    let short = r.log.take(index - 1);
    backed_ends::<S>(m.files, r.log, origin);
    let cut = cut_keeps(h, n, index - 1);
    assert(cut.replica_ok(n, cut.replicas[n]));
    assert(files.log =~= short.skip(si));
    assert(short.take(si) =~= r.log.take(si));
    final_less(cut, short, r.commit as int, si, r.term);
    assert forall|k: int| #![trigger files.log[k]] 0 <= k < files.log.len() implies files.log[k].index
        == si + 1 + k by {
        assert(files.log[k] == m.files.log[k]);
    }
    reopened_same(files);
    cut
}

/// A batch out of a reign's log is numbered from right behind its
/// predecessor.
proof fn fitting_is_shaped(h: History, args: AppendModel)
    requires
        h.inv(),
        h.reigns.contains_key(args.term),
        append_fits(h, args),
    ensures
        args.well_shaped(),
{
    let log = h.reigns[args.term].log;
    assert(h.reign_ok(args.term));
    assert forall|i: int| #![trigger args.entries[i]]
        0 <= i < args.entries.len() implies args.entries[i].index == args.prev_log_index + 1 + i by {
        super::agreement::sound_at(h.reigns, log, args.prev_log_index + i);
    }
}

/// The writes of taking over a batch.
proof fn merge_writes<S: StateMachine>(m: NodeModel<S>, args: AppendModel)
    requires
        args.well_shaped(),
        !m.has_all(args.entries),
    ensures
        ({
            let i = m.first_new(args.entries);
            let index = args.entries[i].index as int;
            let appended = WriteModel::AppendLog(args.entries.skip(i));
            let cut = m.files.truncated(index);
            let rewritten = WriteModel::RewriteLog(cut.log);
            let m2 = m.merge(args);
            if m.files.holds(index) {
                &&& m.files.after(rewritten) == cut
                &&& cut.after(appended) == m2.files
                &&& m2.writes == m.writes.push(rewritten).push(appended)
            } else {
                &&& m.files.after(appended) == m2.files
                &&& m2.writes == m.writes.push(appended)
            }
        }),
{
    super::upkeep::first_new_exists(m, args.entries);
    let i = m.first_new(args.entries);
    assert(m.offset(args) == i);
    assert(args.entries.skip(i).len() > 0);
}

/// Where a batch first conflicts with a follower's log.
proof fn conflict_at<S: StateMachine>(
    h: History,
    origin: S::State,
    n: NodeId,
    m: NodeModel<S>,
    args: AppendModel,
)
    requires
        h.inv(),
        tied(h, origin, n, m),
        m.term() == args.term,
        h.reigns.contains_key(args.term),
        append_fits(h, args),
        m.prev_matches(args),
        !m.has_all(args.entries),
    ensures
        ({
            let index = args.entries[m.first_new(args.entries)].index as int;
            let theirs = h.reigns[args.term].log;
            &&& m.commit_index < index <= theirs.len()
            &&& agree(h.replicas[n].log, theirs, index - 1)
            &&& !agree(h.replicas[n].log, theirs, index)
        }),
{
    append_meets(h, origin, n, m, args);
    super::upkeep::first_new_exists(m, args.entries);
    let i = m.first_new(args.entries);
    super::upkeep::first_new_fits(m, args, i);
    if i > 0 {
        assert(m.has_entry(args.entries[i - 1]));
    }
}

/// The disk when a crash left only some lines of a batch: as if the batch had
/// been shorter.
#[verifier::rlimit(40)]
proof fn merge_part<S: StateMachine>(
    h: History,
    o: Anchor<S>,
    n: NodeId,
    m: NodeModel<S>,
    args: AppendModel,
    lines: int,
)
    requires
        h.inv(),
        logged(h, o, n, m),
        m.settled(),
        m.role is Follower,
        m.term() == args.term,
        h.reigns.contains_key(args.term),
        append_fits(h, args),
        m.prev_matches(args),
        !m.has_all(args.entries),
        0 < lines < args.entries.skip(m.first_new(args.entries)).len(),
    ensures
        ({
            let i = m.first_new(args.entries);
            let index = args.entries[i].index as int;
            let files = if m.files.holds(index) {
                m.files.truncated(index)
            } else {
                m.files
            };
            safe(o, n, files.after_part(WriteModel::AppendLog(args.entries.skip(i)), lines))
        }),
{
    super::upkeep::first_new_exists(m, args.entries);
    let i = m.first_new(args.entries);
    let short = AppendModel { entries: args.entries.take(i + lines), ..args };
    let log = h.reigns[args.term].log;
    let prev = args.prev_log_index as int;
    assert(short.entries =~= log.subrange(prev, prev + short.entries.len()));
    assert(append_fits(h, short));
    fitting_is_shaped(h, short);
    assert(m.is_first_new(short.entries, i)) by {
        assert(short.entries[i] == args.entries[i]);
        assert forall|j: int| #![trigger short.entries[j]] 0 <= j < i implies m.has_entry(
            short.entries[j],
        ) by {
            assert(short.entries[j] == args.entries[j]);
        }
    }
    super::upkeep::first_new_unique(m, short.entries, i);
    let h2 = merge_tied(h, o.origin, n, m, short);
    no_reads_compose(o.start, h, h2, n);
    disk_of_tied(h2, o.origin, n, m.merge(short));
    merge_writes(m, short);
    assert(short.entries.skip(i) =~= args.entries.skip(i).take(lines));
}

/// The disk at every moment of taking over a batch.
#[verifier::rlimit(30)]
proof fn merge_journal<S: StateMachine>(
    h: History,
    h2: History,
    o: Anchor<S>,
    n: NodeId,
    m: NodeModel<S>,
    args: AppendModel,
)
    requires
        h.inv(),
        logged(h, o, n, m),
        m.settled(),
        m.role is Follower,
        m.term() == args.term,
        h.reigns.contains_key(args.term),
        append_fits(h, args),
        m.prev_matches(args),
        !m.has_all(args.entries),
        h2.inv(),
        registers_no_read(o.start, h2, n),
        tied(h2, o.origin, n, m.merge(args)),
    ensures
        journaled(o, n, m.merge(args).writes, m.merge(args).files),
{
    let m2 = m.merge(args);
    let i = m.first_new(args.entries);
    let index = args.entries[i].index as int;
    let appended = WriteModel::AppendLog(args.entries.skip(i));
    conflict_at(h, o.origin, n, m, args);
    fitting_is_shaped(h, args);
    merge_writes(m, args);
    disk_of_tied(h2, o.origin, n, m2);
    if m.files.holds(index) {
        let cut = cut_moves(h, o.origin, n, m, index);
        no_reads_compose(o.start, h, cut, n);
        let files = m.files.truncated(index);
        let rewritten = WriteModel::RewriteLog(files.log);
        journal_write(o, n, m.writes, m.files, rewritten, cut);
        assert forall|lines: int| 0 < lines < args.entries.skip(i).len() implies safe(
            o,
            n,
            #[trigger] files.after_part(appended, lines),
        ) by {
            merge_part(h, o, n, m, args, lines);
        }
        journal_write(o, n, m.writes.push(rewritten), files, appended, h2);
    } else {
        assert forall|lines: int| 0 < lines < args.entries.skip(i).len() implies safe(
            o,
            n,
            #[trigger] m.files.after_part(appended, lines),
        ) by {
            merge_part(h, o, n, m, args, lines);
        }
        journal_write(o, n, m.writes, m.files, appended, h2);
    }
}

/// The node after taking over a batch, as the history has it.
#[verifier::rlimit(30)]
proof fn merge_tied<S: StateMachine>(
    h: History,
    origin: S::State,
    n: NodeId,
    m: NodeModel<S>,
    args: AppendModel,
) -> (h2: History)
    requires
        h.inv(),
        tied(h, origin, n, m),
        m.settled(),
        m.role is Follower,
        m.term() == args.term,
        h.reigns.contains_key(args.term),
        append_fits(h, args),
        m.prev_matches(args),
    ensures
        h2.inv(),
        moved(h, h2, n),
        tied(h2, origin, n, m.merge(args)),
        h2.held_by(n, args.term) >= args.prev_log_index + args.entries.len(),
        h2.reigns == h.reigns,
        h2.replicas[n].term == args.term,
        agree(
            h2.reigns[args.term].log,
            h2.replicas[n].log,
            args.prev_log_index + args.entries.len(),
        ),
{
    append_meets(h, origin, n, m, args);
    let r = h.replicas[n];
    let log = r.log;
    let theirs = h.reigns[args.term].log;
    let c = r.commit as int;
    let k = args.prev_log_index + args.entries.len();
    let si = m.files.snapshot_index();
    adopt_keeps(h, n, k);
    let h2 = h.adopted(n, k);
    let log2 = h2.replicas[n].log;
    let m2 = m.merge(args);
    super::upkeep::shaped_batch_fits(m, args);
    super::upkeep::merge_keeps(m, args);
    sends_stay::<S>(h, h2, origin, n, m.effects);
    pending_stay(h, h2, n, m.pending);
    merge_effects(h2, origin, n, m, args);
    agree_of_take(theirs, k);
    if m.has_all(args.entries) {
        if args.entries.len() > 0 {
            assert(m.has_entry(args.entries[args.entries.len() - 1]));
        }
        assert(agree(log, theirs, k));
        agree_back(log, theirs, k);
    } else {
        merged_log(m, origin, args, log, theirs);
        assert(log2 == theirs.take(k));
    }
    agree_less(log, log2, c, si);
    agree_takes(log, log2, si);
    if si > 0 {
        agree_at(log, log2, c, si - 1);
    }
    assert(backed::<S>(m2.files, log2, origin));
    h2
}

/// Taking over a batch is taking over that much of the leader's log.
#[verifier::rlimit(30)]
proof fn merge_moves<S: StateMachine>(
    h: History,
    o: Anchor<S>,
    n: NodeId,
    m: NodeModel<S>,
    args: AppendModel,
) -> (h2: History)
    requires
        h.inv(),
        logged(h, o, n, m),
        m.settled(),
        m.role is Follower,
        m.term() == args.term,
        h.reigns.contains_key(args.term),
        append_fits(h, args),
        m.prev_matches(args),
    ensures
        h2.inv(),
        moved(h, h2, n),
        logged(h2, o, n, m.merge(args)),
        h2.held_by(n, args.term) >= args.prev_log_index + args.entries.len(),
        h2.reigns == h.reigns,
        h2.replicas[n].term == args.term,
        agree(
            h2.reigns[args.term].log,
            h2.replicas[n].log,
            args.prev_log_index + args.entries.len(),
        ),
{
    let h2 = merge_tied(h, o.origin, n, m, args);
    no_reads_compose(o.start, h, h2, n);
    if !m.has_all(args.entries) {
        merge_journal(h, h2, o, n, m, args);
    }
    h2
}

/// Whoever answers now was at most where it is when the question was sent.
proof fn answered_now<S: StateMachine>(
    h: History,
    origin: S::State,
    n: NodeId,
    m: NodeModel<S>,
    t: Term,
    seq: u64,
)
    requires
        h.inv(),
        tied(h, origin, n, m),
        h.reigns.contains_key(t),
        seq < h.reigns[t].pulses.len(),
    ensures
        answered_at(h, t, n, seq, m.term()),
{
    let pulses = h.reigns[t].pulses;
    assert(h.reign_ok(t));
    assert forall|i: int| #![trigger pulses[i]]
        0 <= i <= seq && pulses[i].terms.contains_key(n) implies pulses[i].terms[n] <= m.term() by {
        assert(h.pulse_ok(t, pulses[i]));
    }
}

/// An answer at a term is one at any later term.
proof fn answered_later(
    h: History,
    h2: History,
    t: Term,
    id: NodeId,
    seq: u64,
    term: Term,
    term2: Term,
)
    requires
        answered_at(h, t, id, seq, term),
        h2.reigns[t].pulses == h.reigns[t].pulses,
        term <= term2,
    ensures
        answered_at(h2, t, id, seq, term2),
{
    let pulses = h.reigns[t].pulses;
    assert forall|i: int| #![trigger pulses[i]]
        0 <= i <= seq && pulses[i].terms.contains_key(id) implies pulses[i].terms[id] <= term2 by {
        assert(pulses[i].terms[id] <= term);
    }
}

/// An AppendEntries, and its answer.
#[verifier::rlimit(30)]
pub proof fn append_entries_moves<S: StateMachine>(
    h: History,
    o: Anchor<S>,
    n: NodeId,
    m: NodeModel<S>,
    args: AppendModel,
    from: NodeId,
    tag: ReplyTag,
    now: u64,
) -> (h2: History)
    requires
        h.inv(),
        logged(h, o, n, m),
        m.settled(),
        letter_ok::<S>(h, o.origin, from, RequestModel::AppendEntries(args), tag),
    ensures
        m.admits_append(args),
        h2.inv(),
        moved(h, h2, n),
        logged(h2, o, n, m.on_append_entries(args, now).0),
        m.on_append_entries(args, now).0.settled(),
        answer_ok(h2, from, n, tag, RpcResponse::AppendEntries(m.on_append_entries(args, now).1)),
{
    moved_nowhere(h, n);
    let seq = tag->Append_sent_seq;
    answered_now(h, o.origin, n, m, args.term, seq);
    if args.term < m.term() {
        h
    } else {
        let heard = m.hear_leader(args.term, args.leader_id, now);
        let h1 = become_follower_moves(h, o, n, m, args.term, Some(args.leader_id), now);
        assert(logged(h1, o, n, heard));
        super::ties::letter_stays::<S>(h, h1, o.origin, from, RequestModel::AppendEntries(args), tag);
        let log = h1.reigns[args.term].log;
        fitting_is_shaped(h1, args);
        assert(m.prev_matches(args) == heard.prev_matches(args));
        if heard.prev_matches(args) {
            append_meets(h1, o.origin, n, heard, args);
            super::upkeep::shaped_batch_fits(heard, args);
            super::upkeep::takes_by_the_log(m, heard, args);
            super::upkeep::on_append_entries_keeps(m, args, now);
            let h2 = merge_moves(h1, o, n, heard, args);
            moves_compose(h, h1, h2, n);
            let merged = heard.merge(args);
            super::upkeep::merge_keeps(heard, args);
            let commit = NodeModel::<S>::verified_commit(args);
            if commit > merged.commit_index {
                let r = h2.replicas[n];
                final_stays(h1, h2, log, args.leader_commit as int, args.term, args.term);
                final_less(h2, log, args.leader_commit as int, commit as int, args.term);
                agree_less(log, r.log, args.prev_log_index + args.entries.len(), commit as int);
                final_across(h2, log, r.log, commit as int, args.term);
                assert(commit <= r.log.len()) by {
                    reveal(agree);
                }
                let h3 = commit_to_moves(h2, o, n, merged, commit);
                moves_compose(h, h2, h3, n);
                answered_later(h, h3, args.term, n, seq, m.term(), args.term);
                h3
            } else {
                answered_later(h, h2, args.term, n, seq, m.term(), args.term);
                h2
            }
        } else {
            super::upkeep::on_append_entries_keeps(m, args, now);
            answered_later(h, h1, args.term, n, seq, m.term(), args.term);
            h1
        }
    }
}

/// What is committed of one log is committed of another that has it too.
proof fn final_across(h: History, a: Seq<LogEntry>, b: Seq<LogEntry>, n: int, term: Term)
    requires
        h.final_through(a, n, term),
        agree(a, b, n),
    ensures
        h.final_through(b, n, term),
{
    if n > 0 {
        let (t, i, q) = choose|t: Term, i: int, q: int| #[trigger]
            h.vouched(t, i, q) && t <= term && n <= i && agree(h.reigns[t].log, a, n);
        agree_across(h.reigns[t].log, a, b, n);
    }
}

/// The files of a follower that installed its leader's snapshot.
#[verifier::rlimit(30)]
proof fn installed_log<S: StateMachine>(
    h: History,
    origin: S::State,
    n: NodeId,
    m: NodeModel<S>,
    args: InstallModel<S::State>,
)
    requires
        h.inv(),
        tied(h, origin, n, m),
        m.term() == args.term,
        h.reigns.contains_key(args.term),
        snapshot_fits::<S>(args.snapshot, h.reigns[args.term].log, origin),
        args.snapshot.last_included_index > m.commit_index,
    ensures
        backed::<S>(
            m.files.installed(args.snapshot),
            h.taken_over(n, args.snapshot.last_included_index as int),
            origin,
        ),
        agree(
            h.reigns[args.term].log,
            h.taken_over(n, args.snapshot.last_included_index as int),
            args.snapshot.last_included_index as int,
        ),
{
    let b = args.snapshot.last_included_index as int;
    let r = h.replicas[n];
    let theirs = h.reigns[args.term].log;
    let log2 = h.taken_over(n, b);
    let files = m.files.installed(args.snapshot);
    assert(h.replica_ok(n, r));
    assert(h.reign_ok(args.term));
    backed_term::<S>(m.files, r.log, origin, b);
    backed_ends::<S>(m.files, r.log, origin);
    agree_of_take(theirs, b);
    if m.files.term_at(b) == Some(args.snapshot.last_included_term) {
        logs_match(h.reigns, r.log, theirs, b - 1);
        agree_back(r.log, theirs, b);
        assert(files.log =~= log2.skip(b));
    } else {
        if agree(r.log, theirs, b) {
            agree_at(r.log, theirs, b, b - 1);
        }
        assert(files.log =~= log2.skip(b));
    }
    agree_takes(theirs, log2, b);
    agree_at(theirs, log2, b, b - 1);
}

/// An InstallSnapshot, and its answer.
#[verifier::rlimit(40)]
pub proof fn install_snapshot_moves<S: StateMachine>(
    h: History,
    o: Anchor<S>,
    n: NodeId,
    m: NodeModel<S>,
    args: InstallModel<S::State>,
    from: NodeId,
    tag: ReplyTag,
    now: u64,
) -> (h2: History)
    requires
        h.inv(),
        logged(h, o, n, m),
        m.settled(),
        letter_ok::<S>(h, o.origin, from, RequestModel::InstallSnapshot(args), tag),
    ensures
        h2.inv(),
        moved(h, h2, n),
        logged(h2, o, n, m.on_install_snapshot(args, now).0),
        m.on_install_snapshot(args, now).0.settled(),
        answer_ok(h2, from, n, tag, RpcResponse::InstallSnapshot(m.on_install_snapshot(args, now).1)),
{
    moved_nowhere(h, n);
    super::upkeep::on_install_snapshot_keeps(m, args, now);
    if args.term < m.term() {
        h
    } else {
        let heard = m.hear_leader(args.term, args.leader_id, now);
        let h1 = become_follower_moves(h, o, n, m, args.term, Some(args.leader_id), now);
        assert(logged(h1, o, n, heard));
        super::ties::letter_stays::<S>(h, h1, o.origin, from, RequestModel::InstallSnapshot(args), tag);
        let h2 = if args.snapshot.last_included_index <= heard.commit_index {
            install_known(h1, o, n, heard, args)
        } else {
            install_new(h1, o, n, m, args, now)
        };
        moves_compose(h, h1, h2, n);
        h2
    }
}

/// A snapshot of what is committed here anyway: only the leader's log is now
/// known to be held that far.
proof fn install_known<S: StateMachine>(
    h: History,
    o: Anchor<S>,
    n: NodeId,
    m: NodeModel<S>,
    args: InstallModel<S::State>,
) -> (h2: History)
    requires
        h.inv(),
        logged(h, o, n, m),
        m.role is Follower,
        m.term() == args.term,
        h.reigns.contains_key(args.term),
        snapshot_fits::<S>(args.snapshot, h.reigns[args.term].log, o.origin),
        args.snapshot.last_included_index <= m.commit_index,
    ensures
        h2.inv(),
        moved(h, h2, n),
        logged(h2, o, n, m),
        h2.held_by(n, args.term) >= args.snapshot.last_included_index,
{
    let t = args.term;
    let b = args.snapshot.last_included_index as int;
    let r = h.replicas[n];
    let g = h.reigns[t];
    let c = r.commit as int;
    assert(h.replica_ok(n, r));
    assert(h.reign_ok(t));
    adopt_keeps(h, n, b);
    let h2 = h.adopted(n, b);
    final_in_reign(h, r.log, c, t, t);
    sends_stay::<S>(h, h2, o.origin, n, m.effects);
    pending_stay(h, h2, n, m.pending);
    agree_less(r.log, g.log, c, b);
    assert(h2.replicas[n].log == r.log);
    no_reads_compose(o.start, h, h2, n);
    h2
}

/// A snapshot of more than is committed here: it takes the log's place that
/// far.
#[verifier::rlimit(40)]
proof fn install_new<S: StateMachine>(
    h: History,
    o: Anchor<S>,
    n: NodeId,
    m: NodeModel<S>,
    args: InstallModel<S::State>,
    now: u64,
) -> (h3: History)
    requires
        h.inv(),
        logged(h, o, n, m.hear_leader(args.term, args.leader_id, now)),
        m.settled(),
        args.term >= m.term(),
        h.reigns.contains_key(args.term),
        snapshot_fits::<S>(args.snapshot, h.reigns[args.term].log, o.origin),
        h.final_through(
            h.reigns[args.term].log,
            args.snapshot.last_included_index as int,
            args.term,
        ),
        args.snapshot.last_included_index > m.commit_index,
    ensures
        h3.inv(),
        moved(h, h3, n),
        logged(h3, o, n, m.on_install_snapshot(args, now).0),
        h3.held_by(n, args.term) >= args.snapshot.last_included_index,
{
    super::upkeep::on_install_snapshot_keeps(m, args, now);
    let t = args.term;
    let heard = m.hear_leader(args.term, args.leader_id, now);
    let b = args.snapshot.last_included_index as int;
    let g = h.reigns[t];
    assert(h.replica_ok(n, h.replicas[n]));
    assert(h.reign_ok(t));
    adopt_keeps(h, n, b);
    let h2 = h.adopted(n, b);
    let log2 = h2.replicas[n].log;
    installed_log(h, o.origin, n, heard, args);
    final_stays(h, h2, g.log, b, t, t);
    final_across(h2, g.log, log2, b, t);
    let h3 = commit_keeps(h2, n, b as nat);
    moves_compose(h, h2, h3, n);
    sends_stay::<S>(h, h3, o.origin, n, heard.effects);
    pending_stay(h, h3, n, heard.pending);
    install_effects(h3, o.origin, n, m, args, now);
    no_reads_compose(o.start, h, h3, n);
    let m2 = m.on_install_snapshot(args, now).0;
    assert(tied(h3, o.origin, n, m2));
    install_journal(h3, o, n, heard, m2, args);
    h3
}

/// A piece of a snapshot that a leader is sending.
pub proof fn snapshot_chunk_moves<S: StateMachine>(
    h: History,
    o: Anchor<S>,
    n: NodeId,
    m: NodeModel<S>,
    args: ChunkModel,
    now: u64,
) -> (h2: History)
    requires
        h.inv(),
        logged(h, o, n, m),
        m.settled(),
    ensures
        h2.inv(),
        moved(h, h2, n),
        logged(h2, o, n, m.on_snapshot_chunk(args, now).0),
        m.on_snapshot_chunk(args, now).0.settled(),
{
    moved_nowhere(h, n);
    super::upkeep::on_snapshot_chunk_keeps(m, args, now);
    let transfer = args.transfer;
    if transfer.term < m.term() {
        h
    } else {
        let heard = m.hear_leader(transfer.term, transfer.leader_id, now);
        let h1 = become_follower_moves(h, o, n, m, transfer.term, Some(transfer.leader_id), now);
        assert(logged(h1, o, n, heard));
        let news = seq![
            EffectModel::<S::State>::Assembled { transfer, bytes: reached(m.incoming, args) },
        ];
        super::moves::emit_sends::<S>(h1, o.origin, n, heard.effects, news);
        h1
    }
}

/// The disk at every moment of installing a snapshot.
#[verifier::rlimit(30)]
proof fn install_journal<S: StateMachine>(
    h: History,
    o: Anchor<S>,
    n: NodeId,
    m: NodeModel<S>,
    m2: NodeModel<S>,
    args: InstallModel<S::State>,
)
    requires
        h.inv(),
        registers_no_read(o.start, h, n),
        tied(h, o.origin, n, m2),
        journaled(o, n, m.writes, m.files),
        m.files.wf(),
        m.files.snapshot_index() < args.snapshot.last_included_index,
        m2.files == m.files.installed(args.snapshot),
        m2.writes == m.writes.push(WriteModel::Snapshot(args.snapshot)).push(
            WriteModel::RewriteLog(m2.files.log),
        ),
    ensures
        logged(h, o, n, m2),
{
    let first = WriteModel::Snapshot(args.snapshot);
    let second = WriteModel::RewriteLog(m2.files.log);
    let between = m.files.after(first);
    disk_of_tied(h, o.origin, n, m2);
    snapshot_over_log(m.files, args.snapshot);
    journal_write(o, n, m.writes, m.files, first, h);
    assert(between.after(second) =~= m2.files);
    journal_write(o, n, m.writes.push(first), between, second, h);
}

/// Installing a snapshot sends nothing, and brings no good news.
proof fn install_effects<S: StateMachine>(
    h: History,
    origin: S::State,
    n: NodeId,
    m: NodeModel<S>,
    args: InstallModel<S::State>,
    now: u64,
)
    requires
        args.term >= m.term(),
        args.snapshot.last_included_index > m.commit_index,
        sends_ok::<S>(h, origin, n, m.hear_leader(args.term, args.leader_id, now).effects),
        all_pending_ok(h, n, m.pending),
    ensures
        sends_ok::<S>(h, origin, n, m.on_install_snapshot(args, now).0.effects),
        all_pending_ok(h, n, m.on_install_snapshot(args, now).0.pending),
{
    let heard = m.hear_leader(args.term, args.leader_id, now);
    let boundary = args.snapshot.last_included_index;
    let files = heard.files.installed(args.snapshot);
    let placed = NodeModel {
        files,
        writes: heard.writes.push(super::storage::WriteModel::Snapshot(args.snapshot)).push(
            super::storage::WriteModel::RewriteLog(files.log),
        ),
        state: args.snapshot.state,
        commit_index: boundary,
        last_applied: boundary,
        captured: None,
        ..heard
    };
    let drops = placed.pending.filter(|p: PendingProposal| p.index <= boundary).map_values(
        |p: PendingProposal| EffectModel::<S::State>::DropProposal { ticket: p.ticket },
    );
    let dropped = placed.drop_hidden(boundary);
    let above = |p: PendingProposal| p.index > boundary;
    super::upkeep::filter_keeps(placed.pending, above);
    assert(dropped.pending == placed.pending.filter(above));
    assert forall|i: int| #![trigger dropped.pending[i]]
        0 <= i < dropped.pending.len() implies dropped.pending[i].index > boundary && pending_ok(
        h,
        n,
        dropped.pending[i],
    ) by {
        let p = dropped.pending[i];
        assert(above(p));
        assert(placed.pending.contains(p));
        let k = choose|k: int| 0 <= k < placed.pending.len() && placed.pending[k] == p;
        assert(pending_ok(h, n, m.pending[k]));
    }
    super::moves::emit_sends::<S>(h, origin, n, heard.effects, drops);
    assert(dropped.effects == heard.effects + drops);
    bad_news(h, origin, n, dropped);
}

// ---- client requests ----

/// A change of one member, as sets.
proof fn single_change_apart(a: Arc<Membership>, b: Arc<Membership>)
    requires
        single_change(a.addrs(), b.addrs()),
    ensures
        one_apart(a.ids().to_set(), b.ids().to_set()),
{
    addrs_of_members(&*a);
    addrs_of_members(&*b);
    let x = a.addrs();
    let y = b.addrs();
    let p = x.dom();
    let q = y.dom();
    if exists|id: NodeId| !x.contains_key(id) && y.contains_key(id) && #[trigger] y.remove(id) == x {
        let id = choose|id: NodeId|
            !x.contains_key(id) && y.contains_key(id) && #[trigger] y.remove(id) == x;
        assert(q =~= p.insert(id));
    } else {
        let id = choose|id: NodeId| x.contains_key(id) && #[trigger] x.remove(id) == y;
        assert(p =~= q.insert(id));
    }
}

/// A write.
#[verifier::rlimit(30)]
pub proof fn propose_moves<S: StateMachine>(
    h: History,
    o: Anchor<S>,
    n: NodeId,
    m: NodeModel<S>,
    command: Command,
    ticket: u64,
    now: u64,
) -> (h2: History)
    requires
        h.inv(),
        logged(h, o, n, m),
        m.settled(),
        m.files.last_index() + 2 < u64::MAX,
        match command {
            Command::ConfigChange { members } => ascending(members.ids()),
            _ => true,
        },
    ensures
        h2.inv(),
        registers_no_read(h, h2, n),
        h2.accepted == (match m.on_propose(command, ticket, now).1 {
            Ok(proposal) => h.accepted.insert(
                Accepted {
                    node: n,
                    ticket,
                    entry: LogEntry { term: proposal.term, index: proposal.index, command },
                },
            ),
            Err(_) => h.accepted,
        }),
        logged(h2, o, n, m.on_propose(command, ticket, now).0),
        m.is_leader() ==> leads_log(h2, n, m.term()),
{
    assert(h.replica_ok(n, h.replicas[n]));
    moved_nowhere(h, n);
    match m.refusal(command, now) {
        Some(e) => h,
        None => {
            let r = h.replicas[n];
            let entry = LogEntry {
                term: m.term(),
                index: (m.files.last_index() + 1) as u64,
                command,
            };
            assert(h.replica_ok(n, r));
            members_by_log(h, o.origin, n, m);
            backed_ends::<S>(m.files, r.log, o.origin);
            if let Command::ConfigChange { members } = command {
                single_change_apart(m.membership(), members);
                assert(r.log.push(entry).last() == entry);
                assert(h.config(r.log.push(entry)) == members.ids().to_set());
                let si = m.files.snapshot_index();
                assert forall|k: int| #![trigger r.log[k]]
                    r.commit <= k < r.log.len() implies config_of(r.log[k]) is None by {
                    assert(m.files.log[k - si] == r.log[k]);
                }
            }
            super::upkeep::on_propose_keeps(m, command, ticket, now);
            let h0 = leader_append_moves(h, o, n, m, entry);
            let held = m.append(seq![entry]);
            let accepted = m.accept(command, ticket);
            let w = Accepted { node: n, ticket, entry };
            assert(h0.replica_ok(n, h0.replicas[n]));
            let h1 = accept_keeps(h0, n, w);
            sends_stay::<S>(h0, h1, o.origin, n, held.effects);
            pending_stay(h0, h1, n, held.pending);
            assert(h1.accepted.contains(w));
            no_reads_compose(o.start, h0, h1, n);
            assert(logged(h1, o, n, accepted));
            let h2 = maybe_advance_commit_moves(h1, o, n, accepted, now);
            no_reads_compose(h, h0, h1, n);
            no_reads_compose(h, h1, h2, n);
            broadcast_tied(h2, o.origin, n, accepted.maybe_advance_commit(now));
            h2
        },
    }
}

/// A read.
#[verifier::rlimit(30)]
pub proof fn read_moves<S: StateMachine>(
    h: History,
    o: Anchor<S>,
    n: NodeId,
    m: NodeModel<S>,
    ticket: u64,
) -> (h2: History)
    requires
        h.inv(),
        logged(h, o, n, m),
        m.files.last_index() + 2 < u64::MAX,
        m.role matches RoleModel::Leader(leader) ==> leader.heartbeat_seq < u64::MAX,
    ensures
        h2.inv(),
        grown(h, h2, n),
        tied(h2, o.origin, n, m.on_read(ticket).0),
        journaled(o, n, m.on_read(ticket).0.writes, m.on_read(ticket).0.files),
        h2 == (if m.is_leader() {
            h.pulsed(n, ticket)
        } else {
            h
        }),
{
    moved_nowhere(h, n);
    match m.role {
        RoleModel::Leader(leader) => {
            let r = h.replicas[n];
            let t = r.term;
            assert(h.replica_ok(n, r));
            backed_ends::<S>(m.files, r.log, o.origin);
            let registered = m.register_read(leader, ticket);
            pulse_keeps(h, n, ticket);
            let h2 = h.pulsed(n, ticket);
            sends_stay::<S>(h, h2, o.origin, n, m.effects);
            pending_stay(h, h2, n, m.pending);
            let leader2 = registered.role->Leader_0;
            let pulses = h.reigns[t].pulses;
            let pulses2 = h2.reigns[t].pulses;
            assert forall|id: NodeId| #[trigger] leader2.acked_seq.contains_key(id) implies answered_at(
                h2,
                t,
                id,
                leader2.acked_seq[id],
                t,
            ) by {
                assert(answered_at(h, t, id, leader.acked_seq[id], t));
                assert forall|i: int| #![trigger pulses2[i]]
                    0 <= i <= leader2.acked_seq[id] && pulses2[i].terms.contains_key(
                        id,
                    ) implies pulses2[i].terms[id] <= t by {
                    assert(pulses2[i] == pulses[i]);
                }
            }
            let reads = leader2.pending_reads;
            assert forall|i: int| #![trigger reads[i]] 0 <= i < reads.len() implies read_ok(
                h2,
                t,
                reads[i],
            ) by {
                if i < leader.pending_reads.len() {
                    assert(reads[i] == leader.pending_reads[i]);
                    let at = reads[i].needed_seq as int;
                    assert(pulses2[at] == pulses[at]);
                }
            }
            assert(tied(h2, o.origin, n, registered));
            broadcast_tied(h2, o.origin, n, registered);
            resolve_reads_tied(h2, o.origin, n, registered.broadcast());
            h2
        },
        _ => h,
    }
}

/// A timer.
pub proof fn timer_moves<S: StateMachine>(
    h: History,
    o: Anchor<S>,
    n: NodeId,
    m: NodeModel<S>,
    now: u64,
) -> (h2: History)
    requires
        h.inv(),
        logged(h, o, n, m),
        m.settled(),
        m.term() < u64::MAX,
        m.files.last_index() + 2 < u64::MAX,
    ensures
        h2.inv(),
        moved(h, h2, n),
        logged(h2, o, n, m.on_timer(now)),
        m.is_leader() ==> leads_log(h2, n, m.term()),
{
    backed_ends::<S>(m.files, h.replicas[n].log, o.origin);
    if m.is_leader() {
        heartbeat_moves(h, o, n, m, now)
    } else {
        super::moves::election_timeout_moves(h, o, n, m, now)
    }
}

// ---- replies ----

/// A leader's bookkeeping may change as long as it claims no more than was
/// held.
proof fn with_leader_tied<S: StateMachine>(
    h: History,
    origin: S::State,
    n: NodeId,
    m: NodeModel<S>,
    leader: LeaderModel,
    leader2: LeaderModel,
)
    requires
        tied(h, origin, n, m),
        m.role == RoleModel::Leader(leader),
        leader2.within_log(m.files.last_index()),
        leader2.term_start_index == leader.term_start_index,
        leader2.heartbeat_seq == leader.heartbeat_seq,
        leader2.pending_reads == leader.pending_reads,
        forall|id: NodeId| #[trigger]
            leader2.acked_seq.contains_key(id) ==> answered_at(
                h,
                m.term(),
                id,
                leader2.acked_seq[id],
                m.term(),
            ),
        forall|id: NodeId| #[trigger]
            leader2.match_index.contains_key(id) ==> h.held_by(id, m.term()) >= leader2.match_index[id],
    ensures
        tied(h, origin, n, m.with_leader(leader2)),
{
}

/// An answered AppendEntries.
#[verifier::rlimit(30)]
proof fn append_reply_moves<S: StateMachine>(
    h: History,
    o: Anchor<S>,
    n: NodeId,
    m: NodeModel<S>,
    leader: LeaderModel,
    from: NodeId,
    sent_prev_index: LogIndex,
    sent_entries: u64,
    sent_seq: u64,
    success: bool,
    now: u64,
) -> (h2: History)
    requires
        h.inv(),
        logged(h, o, n, m),
        m.settled(),
        m.role == RoleModel::Leader(leader),
        m.files.last_index() + 2 < u64::MAX,
        sent_prev_index + sent_entries <= m.files.last_index(),
        success ==> h.held_by(from, m.term()) >= sent_prev_index + sent_entries,
        answered_at(h, m.term(), from, sent_seq, m.term()),
    ensures
        h2.inv(),
        moved(h, h2, n),
        ({
            let heard = NodeModel::<S>::acknowledge(leader, from, sent_seq, now);
            if success {
                logged(
                    h2,
                    o,
                    n,
                    m.on_append_accepted(
                        heard,
                        from,
                        (sent_prev_index + sent_entries) as u64,
                        now,
                    ).resolve_reads(),
                )
            } else {
                logged(
                    h2,
                    o,
                    n,
                    m.on_append_rejected(heard, from, sent_prev_index).resolve_reads(),
                )
            }
        }),
        leads_log(h2, n, m.term()),
{
    moved_nowhere(h, n);
    assert(h.replica_ok(n, h.replicas[n]));
    backed_ends::<S>(m.files, h.replicas[n].log, o.origin);
    let heard = NodeModel::<S>::acknowledge(leader, from, sent_seq, now);
    if success {
        let confirmed = (sent_prev_index + sent_entries) as u64;
        if confirmed > lookup(heard.match_index, from, 0) {
            let leader2 = LeaderModel {
                match_index: heard.match_index.insert(from, confirmed),
                next_index: heard.next_index.insert(from, (confirmed + 1) as u64),
                ..heard
            };
            with_leader_tied(h, o.origin, n, m, leader, leader2);
            let held = m.with_leader(leader2);
            let h2 = maybe_advance_commit_moves(h, o, n, held, now);
            let advanced = held.maybe_advance_commit(now);
            send_append_tied(h2, o.origin, n, advanced, from);
            resolve_reads_tied(h2, o.origin, n, advanced.send_append(from));
            resolve_reads_tied(h2, o.origin, n, advanced);
            h2
        } else {
            let leader2 = LeaderModel {
                match_index: heard.match_index.insert(from, lookup(heard.match_index, from, 0)),
                ..heard
            };
            with_leader_tied(h, o.origin, n, m, leader, leader2);
            let held = m.with_leader(leader2);
            let h2 = maybe_advance_commit_moves(h, o, n, held, now);
            resolve_reads_tied(h2, o.origin, n, held.maybe_advance_commit(now));
            h2
        }
    } else {
        let leader2 = LeaderModel {
            next_index: heard.next_index.insert(
                from,
                smaller(lookup(heard.next_index, from, 1), larger(sent_prev_index, 1)),
            ),
            ..heard
        };
        with_leader_tied(h, o.origin, n, m, leader, leader2);
        send_append_tied(h, o.origin, n, m.with_leader(leader2), from);
        resolve_reads_tied(h, o.origin, n, m.with_leader(leader2).send_append(from));
        h
    }
}

/// An answered InstallSnapshot.
#[verifier::rlimit(30)]
proof fn snapshot_reply_moves<S: StateMachine>(
    h: History,
    o: Anchor<S>,
    n: NodeId,
    m: NodeModel<S>,
    leader: LeaderModel,
    from: NodeId,
    boundary: LogIndex,
    now: u64,
) -> (h2: History)
    requires
        h.inv(),
        logged(h, o, n, m),
        m.settled(),
        m.role == RoleModel::Leader(leader),
        m.files.last_index() + 2 < u64::MAX,
        boundary <= m.files.last_index(),
        h.held_by(from, m.term()) >= boundary,
    ensures
        h2.inv(),
        moved(h, h2, n),
        logged(h2, o, n, m.on_snapshot_installed(leader, from, boundary, now)),
        leads_log(h2, n, m.term()),
{
    backed_ends::<S>(m.files, h.replicas[n].log, o.origin);
    let leader2 = LeaderModel {
        last_contact: leader.last_contact.insert(from, now),
        match_index: leader.match_index.insert(
            from,
            larger(lookup(leader.match_index, from, 0), boundary),
        ),
        next_index: leader.next_index.insert(
            from,
            larger(lookup(leader.next_index, from, 1), (boundary + 1) as u64),
        ),
        ..leader
    };
    with_leader_tied(h, o.origin, n, m, leader, leader2);
    let held = m.with_leader(leader2);
    let h2 = maybe_advance_commit_moves(h, o, n, held, now);
    send_append_tied(h2, o.origin, n, held.maybe_advance_commit(now), from);
    h2
}

/// What a node has sent it can be answered.
pub proof fn tags_are_issued<S: StateMachine>(
    h: History,
    origin: S::State,
    n: NodeId,
    m: NodeModel<S>,
    tag: ReplyTag,
)
    requires
        h.inv(),
        tied(h, origin, n, m),
        tag_ok(h, n, tag),
    ensures
        m.issued(tag),
{
    let r = h.replicas[n];
    assert(h.replica_ok(n, r));
    backed_ends::<S>(m.files, r.log, origin);
    match tag {
        ReplyTag::Append { sent_term, .. } => {
            assert(h.reign_ok(sent_term));
        },
        ReplyTag::InstallSnapshot { sent_term, .. } => {
            assert(h.reign_ok(sent_term));
        },
        _ => {},
    }
}

/// A reply, or the failure of a request.
#[verifier::rlimit(30)]
pub proof fn reply_moves<S: StateMachine>(
    h: History,
    o: Anchor<S>,
    n: NodeId,
    m: NodeModel<S>,
    from: NodeId,
    tag: ReplyTag,
    result: Result<RpcResponse, TransportError>,
    now: u64,
) -> (h2: History)
    requires
        h.inv(),
        logged(h, o, n, m),
        m.settled(),
        m.term() < u64::MAX,
        m.files.last_index() + 2 < u64::MAX,
        tag_ok(h, n, tag),
        match result {
            Ok(response) => answer_ok(h, n, from, tag, response),
            Err(_) => true,
        },
    ensures
        h2.inv(),
        moved(h, h2, n),
        logged(h2, o, n, m.on_reply(from, tag, result, now)),
        m.is_leader() ==> leads_log(h2, n, m.term()),
{
    moved_nowhere(h, n);
    tags_are_issued(h, o.origin, n, m, tag);
    let r = h.replicas[n];
    assert(h.replica_ok(n, r));
    backed_ends::<S>(m.files, r.log, o.origin);
    match (tag, result) {
        (ReplyTag::PreVote { sent_term }, Ok(RpcResponse::PreVote(reply))) => {
            if reply.term > m.term() {
                become_follower_moves(h, o, n, m, reply.term, None, now)
            } else if sent_term == m.term() + 1 && reply.vote_granted {
                match m.role {
                    RoleModel::PreCandidate { votes } => {
                        let m1 = NodeModel {
                            role: RoleModel::PreCandidate { votes: votes.insert(from) },
                            ..m
                        };
                        assert(logged(h, o, n, m1));
                        maybe_start_election_moves(h, o, n, m1, now)
                    },
                    _ => h,
                }
            } else {
                h
            }
        },
        (ReplyTag::Vote { sent_term }, Ok(RpcResponse::RequestVote(reply))) => {
            if reply.term > m.term() {
                become_follower_moves(h, o, n, m, reply.term, None, now)
            } else if sent_term == m.term() && reply.vote_granted {
                match m.role {
                    RoleModel::Candidate { votes } => {
                        let m1 = NodeModel {
                            role: RoleModel::Candidate { votes: votes.insert(from) },
                            ..m
                        };
                        let h1 = count_keeps(h, n, from);
                        sends_stay::<S>(h, h1, o.origin, n, m.effects);
                        pending_stay(h, h1, n, m.pending);
                        no_reads_compose(o.start, h, h1, n);
                        assert(logged(h1, o, n, m1));
                        let h2 = maybe_become_leader_moves(h1, o, n, m1, now);
                        moves_compose(h, h1, h2, n);
                        h2
                    },
                    _ => h,
                }
            } else {
                h
            }
        },
        (
            ReplyTag::Append { sent_term, sent_prev_index, sent_entries, sent_seq },
            Ok(RpcResponse::AppendEntries(reply)),
        ) => {
            if reply.term > m.term() {
                become_follower_moves(h, o, n, m, reply.term, None, now)
            } else if sent_term != m.term() {
                h
            } else {
                match m.role {
                    RoleModel::Leader(leader) => {
                        answered_later(h, h, sent_term, from, sent_seq, reply.term, m.term());
                        append_reply_moves(
                            h,
                            o,
                            n,
                            m,
                            leader,
                            from,
                            sent_prev_index,
                            sent_entries,
                            sent_seq,
                            reply.success,
                            now,
                        )
                    },
                    _ => h,
                }
            }
        },
        (
            ReplyTag::InstallSnapshot { sent_term, last_included_index },
            Ok(RpcResponse::InstallSnapshot(reply)),
        ) => {
            if reply.term > m.term() {
                become_follower_moves(h, o, n, m, reply.term, None, now)
            } else if sent_term != m.term() {
                h
            } else {
                match m.role {
                    RoleModel::Leader(leader) => snapshot_reply_moves(
                        h,
                        o,
                        n,
                        m,
                        leader,
                        from,
                        last_included_index,
                        now,
                    ),
                    _ => h,
                }
            }
        },
        (ReplyTag::SnapshotChunk { sent_term }, Ok(RpcResponse::SnapshotChunk(reply))) => {
            if reply.term > m.term() {
                become_follower_moves(h, o, n, m, reply.term, None, now)
            } else {
                if let RoleModel::Leader(leader) = m.role {
                    let leader2 = LeaderModel {
                        last_contact: leader.last_contact.insert(from, now),
                        ..leader
                    };
                    with_leader_tied(h, o.origin, n, m, leader, leader2);
                }
                h
            }
        },
        _ => h,
    }
}

} // verus!
