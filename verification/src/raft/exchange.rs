//! Replication, message by message: what a leader sends, what a follower makes
//! of it, and what the leader makes of the answer.

use vstd::prelude::*;

use super::duties::{replicates, sent_to};
use super::machine::StateMachine;
use super::model::{EffectModel, LeaderModel, NodeEvent, NodeModel, ReplyTag, RoleModel};
use super::rpc::{
    AppendEntriesReply, AppendModel, InstallModel, InstallSnapshotReply, RequestModel, RpcResponse,
};
use super::storage::Durable;
use super::transport::TransportError;
use super::types::{LogEntry, LogIndex, NodeId, Term};
use super::upkeep::commit_to_settles;

verus! {

// ---- what a leader sends ----

/// What a peer is sent whose next entry is `next`: the leader's entries from
/// there on, as they stand in its log, behind the index and the term of the
/// entry before; all of them where batches are not limited, and at least one
/// where there is one. Who leads, at which term and how far the leader has
/// committed goes with it.
pub proof fn a_peer_is_sent_what_follows<S: StateMachine>(
    m: NodeModel<S>,
    leader: LeaderModel,
    peer: NodeId,
    next: LogIndex,
)
    requires
        m.inv(),
        m.role == RoleModel::Leader(leader),
        leader.next_index.contains_key(peer),
        leader.next_index[peer] == next,
        next > m.files.snapshot_index(),
        m.members().contains(peer),
        peer != m.settings.id,
    ensures
        ({
            let sent = m.send_append(peer).effects;
            let skipped = next - 1 - m.files.snapshot_index();
            &&& sent.len() == m.effects.len() + 1
            &&& sent.last() is Send
            &&& sent.last()->Send_to == peer
            &&& sent.last()->Send_request is AppendEntries
            &&& {
                let args = sent.last()->Send_request->AppendEntries_0;
                &&& args.term == m.files.hard_state.current_term
                &&& args.leader_id == m.settings.id
                &&& args.leader_commit == m.commit_index
                &&& args.prev_log_index == next - 1
                &&& skipped > 0 ==> args.prev_log_term == m.files.log[skipped - 1].term
                &&& skipped == 0 && m.files.snapshot is None ==> args.prev_log_term == 0
                &&& skipped == 0 && m.files.snapshot is Some ==> args.prev_log_term
                    == m.files.snapshot->0.last_included_term
                &&& args.entries.len() <= m.files.log.len() - skipped
                &&& forall|i: int|
                    #![trigger args.entries[i]]
                    0 <= i < args.entries.len() ==> args.entries[i] == m.files.log[skipped + i]
                &&& skipped < m.files.log.len() ==> args.entries.len() >= 1
                &&& m.settings.max_append_bytes is None ==> args.entries.len() == m.files.log.len()
                    - skipped
                &&& sent.last()->Send_tag == (ReplyTag::Append {
                    sent_term: args.term,
                    sent_prev_index: args.prev_log_index,
                    sent_entries: args.entries.len() as u64,
                    sent_seq: leader.heartbeat_seq,
                })
            }
        }),
{
    let skipped = next - 1 - m.files.snapshot_index();
    let rest = m.files.entries_from(next as int);
    assert(next <= m.files.last_index() + 1);
    assert(rest =~= m.files.log.skip(skipped));
    super::batch::batches_are_bounded(rest, m.settings.max_append_bytes);
    let chosen = super::batch::batch(rest, m.settings.max_append_bytes);
    let sent = m.send_append(peer).effects;
    assert(sent.last() == m.replication(leader, peer));
}

/// A peer whose next entry is compacted away is sent the snapshot.
pub proof fn a_peer_behind_the_snapshot_is_sent_it<S: StateMachine>(
    m: NodeModel<S>,
    leader: LeaderModel,
    peer: NodeId,
)
    requires
        m.role == RoleModel::Leader(leader),
        leader.next_index.contains_key(peer),
        m.files.snapshot is Some,
        leader.next_index[peer] <= m.files.snapshot->0.last_included_index,
        m.members().contains(peer),
        peer != m.settings.id,
    ensures
        m.send_append(peer).effects == m.effects.push(
            EffectModel::Send {
                to: peer,
                request: RequestModel::InstallSnapshot(
                    InstallModel {
                        term: m.files.hard_state.current_term,
                        leader_id: m.settings.id,
                        snapshot: m.files.snapshot->0,
                    },
                ),
                tag: ReplyTag::InstallSnapshot {
                    sent_term: m.files.hard_state.current_term,
                    last_included_index: m.files.snapshot->0.last_included_index,
                },
            },
        ),
{
    assert(m.send_append(peer).effects =~= m.effects.push(m.replication(leader, peer)));
}

// ---- what a follower makes of it ----

/// Where an index stands in the files: an entry of the log by its own number,
/// the boundary by the snapshot's, index 0 before everything.
pub proof fn files_answer_by_number<D>(files: Durable<D>, index: LogIndex)
    requires
        files.wf(),
    ensures
        forall|i: int|
            #![trigger files.log[i]]
            0 <= i < files.log.len() && files.log[i].index == index ==> {
                &&& files.holds(index as int)
                &&& files.entry_at(index as int) == files.log[i]
                &&& files.term_at(index as int) == Some(files.log[i].term)
            },
        files.holds(index as int) ==> exists|i: int|
            #![trigger files.log[i]]
            0 <= i < files.log.len() && files.log[i].index == index,
        files.snapshot matches Some(s) ==> {
            &&& files.term_at(s.last_included_index as int) == Some(s.last_included_term)
            &&& index < s.last_included_index ==> files.term_at(index as int) is None
            &&& files.last_index() == s.last_included_index + files.log.len()
        },
        files.snapshot is None ==> {
            &&& files.term_at(0) == Some(0u64)
            &&& files.last_index() == files.log.len()
        },
        index > files.last_index() ==> files.term_at(index as int) is None,
        files.log.len() > 0 ==> files.log[files.log.len() - 1].index == files.last_index(),
{
    if files.holds(index as int) {
        let i = index - files.snapshot_index() - 1;
        assert(files.log[i].index == index);
    }
}

/// Whether the files hold (`index`, `term`), or have compacted `index` away.
pub open spec fn matches_at<D>(files: Durable<D>, index: LogIndex, term: Term) -> bool {
    ||| exists|i: int|
        #![trigger files.log[i]]
        0 <= i < files.log.len() && files.log[i].index == index && files.log[i].term == term
    ||| match files.snapshot {
        Some(s) => index < s.last_included_index || (index == s.last_included_index && term
            == s.last_included_term),
        None => index == 0 && term == 0,
    }
}

/// An AppendEntries succeeds exactly if its term is not older than the node's
/// and the entry before the batch is here. Whoever sends one of the node's term
/// or a newer one is followed, at that term, whether it matches or not; one
/// that does not succeed leaves the log, the commit point and the state alone.
pub proof fn an_append_succeeds_exactly_when_it_matches<S: StateMachine>(
    m: NodeModel<S>,
    args: AppendModel,
    now: u64,
)
    requires
        m.settled(),
        m.admits_append(args),
    ensures
        ({
            let term = m.files.hard_state.current_term;
            let (after, reply) = m.on_append_entries(args, now);
            &&& reply.success <==> args.term >= term && matches_at(
                m.files,
                args.prev_log_index,
                args.prev_log_term,
            )
            &&& reply.term == (if args.term > term {
                args.term
            } else {
                term
            })
            &&& args.term >= term ==> {
                &&& after.role is Follower
                &&& after.leader_id == Some(args.leader_id)
                &&& after.last_leader_contact == Some(now)
                &&& after.files.hard_state.current_term == args.term
                &&& args.term == term ==> after.files.hard_state == m.files.hard_state
                &&& args.term > term ==> after.files.hard_state.voted_for is None
            }
            &&& args.term < term ==> after == m
            &&& !reply.success ==> {
                &&& after.files.log == m.files.log
                &&& after.files.snapshot == m.files.snapshot
                &&& after.commit_index == m.commit_index
                &&& after.state == m.state
            }
        }),
{
    files_answer_by_number(m.files, args.prev_log_index);
    super::upkeep::on_append_entries_keeps(m, args, now);
    if args.term >= m.term() {
        let heard = m.hear_leader(args.term, args.leader_id, now);
        assert(heard.prev_matches(args) == m.prev_matches(args));
        let prev = args.prev_log_index as int;
        if m.files.holds(prev) {
            let i = prev - m.files.snapshot_index() - 1;
            assert(m.files.log[i].index == prev);
        }
        assert(m.prev_matches(args) == matches_at(
            m.files,
            args.prev_log_index,
            args.prev_log_term,
        ));
        if heard.prev_matches(args) {
            super::upkeep::merge_keeps(heard, args);
            let merged = heard.merge(args);
            assert(merged.leader_id == heard.leader_id && merged.last_leader_contact
                == heard.last_leader_contact && merged.role == heard.role);
            let commit = NodeModel::<S>::verified_commit(args);
            if commit > merged.commit_index {
                lemma_commit_keeps_the_follower(merged, commit);
            }
        }
    }
}

proof fn lemma_commit_keeps_the_follower<S: StateMachine>(m: NodeModel<S>, index: LogIndex)
    requires
        m.inv(),
        m.role is Follower,
        m.commit_index <= index <= m.files.last_index(),
    ensures
        m.commit_to(index).role is Follower,
        m.commit_to(index).leader_id == m.leader_id,
        m.commit_to(index).last_leader_contact == m.last_leader_contact,
        m.commit_to(index).files.hard_state == m.files.hard_state,
        m.commit_to(index).settings == m.settings,
        m.commit_to(index).files.last_index() == m.files.last_index(),
{
    commit_to_settles(m, index);
    let moved = NodeModel { commit_index: index, ..m };
    let told = moved.apply_backlog().resolve_pending().resolve_reads();
    let captured = told.maybe_capture();
    assert(captured.role == m.role && captured.files == m.files);
    assert(captured.compact_captured().role == m.role);
}

/// A batch that succeeds ends up in the log: what was there up to the entry
/// before it stays; each of its entries is then there at its index, unless it
/// is compacted (it is the one sent, unless one of the same term was there
/// already); what lies behind the batch stays only where nothing of the batch
/// was new. The commit point follows the leader's as far as the batch reaches,
/// never back, and everything committed is applied.
#[verifier::rlimit(40)]
pub proof fn an_accepted_batch_ends_up_in_the_log<S: StateMachine>(
    m: NodeModel<S>,
    args: AppendModel,
    now: u64,
)
    requires
        m.settled(),
        m.admits_append(args),
        args.well_shaped(),
        args.term >= m.files.hard_state.current_term,
        matches_at(m.files, args.prev_log_index, args.prev_log_term),
    ensures
        ({
            let after = m.on_append_entries(args, now).0;
            let end = args.prev_log_index + args.entries.len();
            let agreed = if args.leader_commit <= end {
                args.leader_commit as int
            } else {
                end
            };
            let known = forall|j: int|
                #![trigger args.entries[j]]
                0 <= j < args.entries.len() ==> args.entries[j].index <= m.files.snapshot_index()
                    || matches_at(m.files, args.entries[j].index, args.entries[j].term);
            &&& after.commit_index == (if agreed > m.commit_index {
                agreed
            } else {
                m.commit_index as int
            })
            &&& after.last_applied == after.commit_index
            &&& after.files.last_index() == (if known {
                m.files.last_index()
            } else {
                end
            })
            &&& forall|k: int|
                #![trigger after.files.entry_at(k)]
                after.files.holds(k) && k <= args.prev_log_index ==> after.files.entry_at(k)
                    == m.files.entry_at(k)
            &&& forall|k: int|
                #![trigger after.files.entry_at(k)]
                after.files.holds(k) && args.prev_log_index < k <= end ==> {
                    let sent = args.entries[k - args.prev_log_index - 1];
                    &&& after.files.entry_at(k).term == sent.term
                    &&& after.files.entry_at(k) == sent || after.files.entry_at(k)
                        == m.files.entry_at(k)
                }
            &&& forall|k: int|
                #![trigger after.files.entry_at(k)]
                after.files.holds(k) && k > end ==> after.files.entry_at(k) == m.files.entry_at(k)
        }),
{
    an_append_succeeds_exactly_when_it_matches(m, args, now);
    super::upkeep::on_append_entries_keeps(m, args, now);
    let heard = m.hear_leader(args.term, args.leader_id, now);
    let entries = args.entries;
    let merged = heard.merge(args);
    let end = args.prev_log_index + args.entries.len();
    super::upkeep::merge_keeps(heard, args);
    assert forall|e: LogEntry| #[trigger] heard.has_entry(e) == (e.index
        <= m.files.snapshot_index() || matches_at(m.files, e.index, e.term)) by {
        files_answer_by_number(m.files, e.index);
        if m.files.holds(e.index as int) {
            let i = e.index - m.files.snapshot_index() - 1;
            assert(m.files.log[i].index == e.index);
        }
    }
    let known = forall|j: int|
        #![trigger args.entries[j]]
        0 <= j < args.entries.len() ==> args.entries[j].index <= m.files.snapshot_index()
            || matches_at(m.files, args.entries[j].index, args.entries[j].term);
    assert(known == heard.has_all(entries)) by {
        if known {
            assert forall|j: int| #![trigger entries[j]] 0 <= j < entries.len() implies heard.has_entry(
                entries[j],
            ) by {
                assert(heard.has_entry(entries[j]) == (entries[j].index
                    <= m.files.snapshot_index() || matches_at(
                    m.files,
                    entries[j].index,
                    entries[j].term,
                )));
            }
        }
        if heard.has_all(entries) {
            assert forall|j: int|
                #![trigger args.entries[j]]
                0 <= j < args.entries.len() implies args.entries[j].index
                <= m.files.snapshot_index() || matches_at(
                m.files,
                args.entries[j].index,
                args.entries[j].term,
            ) by {
                assert(heard.has_entry(entries[j]));
            }
        }
    }
    if !heard.has_all(entries) {
        super::upkeep::first_new_exists(heard, entries);
        let i = heard.first_new(entries);
        super::upkeep::first_new_fits(heard, args, i);
        assert(heard.offset(args) == i);
        let roomy = heard.make_room(entries[i]);
        assert(roomy.files.last_index() == entries[i].index - 1);
        assert(merged.files.log == roomy.files.log + entries.skip(i));
        assert(merged.files.last_index() == end);
        assert forall|k: int| #![trigger merged.files.entry_at(k)] merged.files.holds(k) implies {
            &&& k < entries[i].index ==> merged.files.entry_at(k) == m.files.entry_at(k)
            &&& k >= entries[i].index ==> merged.files.entry_at(k) == entries[k
                - args.prev_log_index - 1]
        } by {
            if k < entries[i].index {
                assert(roomy.files.entry_at(k) == m.files.entry_at(k));
                assert(merged.files.entry_at(k) == roomy.files.entry_at(k));
            } else {
                assert(merged.files.entry_at(k) == entries.skip(i)[k - entries[i].index]);
            }
        }
    }
    assert forall|k: int| #![trigger merged.files.entry_at(k)] merged.files.holds(k) implies {
        &&& k <= args.prev_log_index ==> merged.files.entry_at(k) == m.files.entry_at(k)
        &&& args.prev_log_index < k <= end ==> {
            let sent = entries[k - args.prev_log_index - 1];
            &&& merged.files.entry_at(k).term == sent.term
            &&& merged.files.entry_at(k) == sent || merged.files.entry_at(k) == m.files.entry_at(k)
        }
        &&& k > end ==> merged.files.entry_at(k) == m.files.entry_at(k)
    } by {
        if args.prev_log_index < k <= end {
            let j = k - args.prev_log_index - 1;
            assert(entries[j].index == k);
            if heard.has_all(entries) || j < heard.first_new(entries) {
                if !heard.has_all(entries) {
                    super::upkeep::first_new_exists(heard, entries);
                }
                assert(heard.has_entry(entries[j]));
            }
        }
    }
    let commit = NodeModel::<S>::verified_commit(args);
    if commit > merged.commit_index {
        commit_to_settles(merged, commit);
        super::safety::commit_keeps_the_log(merged, commit);
        let after = merged.commit_to(commit);
        assert forall|k: int| #![trigger after.files.entry_at(k)] after.files.holds(k) implies after.files.entry_at(
            k,
        ) == merged.files.entry_at(k) && merged.files.holds(k) by {}
    }
}

/// A snapshot from a leader of the node's term or a newer one replaces what the
/// node has not committed itself: its state is then the snapshot's, committed
/// and applied through the boundary; the entries behind the boundary stay
/// exactly where the node holds the entry at the boundary with the snapshot's
/// term. A boundary that is committed here changes nothing but the contact.
pub proof fn a_snapshot_is_installed_exactly_when_it_is_ahead<S: StateMachine>(
    m: NodeModel<S>,
    args: InstallModel<S::State>,
    now: u64,
)
    requires
        m.settled(),
    ensures
        ({
            let term = m.files.hard_state.current_term;
            let (after, reply) = m.on_install_snapshot(args, now);
            let boundary = args.snapshot.last_included_index;
            &&& reply.term == (if args.term > term {
                args.term
            } else {
                term
            })
            &&& args.term < term ==> after == m
            &&& args.term >= term ==> {
                &&& after.role is Follower
                &&& after.leader_id == Some(args.leader_id)
                &&& after.last_leader_contact == Some(now)
                &&& after.files.hard_state.current_term == args.term
            }
            &&& args.term >= term && boundary > m.commit_index ==> {
                &&& after.files.snapshot == Some(args.snapshot)
                &&& after.state == args.snapshot.state
                &&& after.commit_index == boundary
                &&& after.last_applied == boundary
                &&& (exists|i: int|
                    #![trigger m.files.log[i]]
                    0 <= i < m.files.log.len() && m.files.log[i].index == boundary
                        && m.files.log[i].term == args.snapshot.last_included_term)
                    ==> after.files.last_index() == m.files.last_index()
                &&& !(exists|i: int|
                    #![trigger m.files.log[i]]
                    0 <= i < m.files.log.len() && m.files.log[i].index == boundary
                        && m.files.log[i].term == args.snapshot.last_included_term)
                    ==> after.files.log.len() == 0
                &&& forall|k: int|
                    #![trigger after.files.entry_at(k)]
                    after.files.holds(k) ==> after.files.entry_at(k) == m.files.entry_at(k)
            }
            &&& args.term >= term && boundary <= m.commit_index ==> {
                &&& after.files.snapshot == m.files.snapshot
                &&& after.files.log == m.files.log
                &&& after.state == m.state
                &&& after.commit_index == m.commit_index
                &&& after.pending == m.pending
            }
        }),
{
    let boundary = args.snapshot.last_included_index;
    files_answer_by_number(m.files, boundary);
    if args.term >= m.term() && boundary > m.commit_index {
        let heard = m.hear_leader(args.term, args.leader_id, now);
        let files = heard.files.installed(args.snapshot);
        let here = exists|i: int|
            #![trigger m.files.log[i]]
            0 <= i < m.files.log.len() && m.files.log[i].index == boundary && m.files.log[i].term
                == args.snapshot.last_included_term;
        if m.files.holds(boundary as int) {
            let i = boundary - m.files.snapshot_index() - 1;
            assert(m.files.log[i].index == boundary);
        }
        assert(here == (m.files.term_at(boundary as int) == Some(args.snapshot.last_included_term)));
        if here {
            assert(files.log =~= m.files.log.skip(boundary - m.files.snapshot_index()));
        }
        let after = m.on_install_snapshot(args, now).0;
        assert(after.files == files);
    }
}

// ---- what the leader makes of the answer ----

/// Whether a reply carries a term.
pub open spec fn reply_term(response: RpcResponse) -> Term {
    match response {
        RpcResponse::PreVote(reply) => reply.term,
        RpcResponse::RequestVote(reply) => reply.term,
        RpcResponse::AppendEntries(reply) => reply.term,
        RpcResponse::InstallSnapshot(reply) => reply.term,
        RpcResponse::SnapshotChunk(reply) => reply.term,
    }
}

/// Whether a response is one to the RPC that the tag stands for.
pub open spec fn answers_tag(tag: ReplyTag, response: RpcResponse) -> bool {
    match tag {
        ReplyTag::PreVote { .. } => response is PreVote,
        ReplyTag::Vote { .. } => response is RequestVote,
        ReplyTag::Append { .. } => response is AppendEntries,
        ReplyTag::InstallSnapshot { .. } => response is InstallSnapshot,
        ReplyTag::SnapshotChunk { .. } => response is SnapshotChunk,
    }
}

/// A reply from a newer term ends whatever the node was doing: it follows at
/// that term, with its vote still to give, its log, commit point and state as
/// they were, and nothing sent.
pub proof fn a_newer_term_in_a_reply_is_adopted<S: StateMachine>(
    m: NodeModel<S>,
    from: NodeId,
    tag: ReplyTag,
    response: RpcResponse,
    now: u64,
)
    requires
        answers_tag(tag, response),
        reply_term(response) > m.files.hard_state.current_term,
    ensures
        ({
            let after = m.step(NodeEvent::Reply { from, tag, result: Ok(response) }, now);
            &&& after.role is Follower
            &&& after.files.hard_state.current_term == reply_term(response)
            &&& after.files.hard_state.voted_for is None
            &&& after.files.log == m.files.log
            &&& after.files.snapshot == m.files.snapshot
            &&& after.commit_index == m.commit_index
            &&& after.state == m.state
            &&& after.pending == m.pending
            &&& after.leader_id is None
        }),
{
}

/// A failed RPC changes nothing, and neither does a reply to an RPC that was
/// sent in another term.
pub proof fn lost_and_stale_replies_change_nothing<S: StateMachine>(
    m: NodeModel<S>,
    from: NodeId,
    tag: ReplyTag,
    response: RpcResponse,
    error: TransportError,
    now: u64,
)
    requires
        reply_term(response) <= m.files.hard_state.current_term,
        match tag {
            ReplyTag::PreVote { sent_term } => sent_term != m.files.hard_state.current_term + 1,
            ReplyTag::Vote { sent_term } => sent_term != m.files.hard_state.current_term,
            ReplyTag::Append { sent_term, .. } => sent_term != m.files.hard_state.current_term,
            ReplyTag::InstallSnapshot { sent_term, .. } => sent_term
                != m.files.hard_state.current_term,
            ReplyTag::SnapshotChunk { sent_term } => sent_term != m.files.hard_state.current_term,
        },
    ensures
        m.step(NodeEvent::Reply { from, tag, result: Err(error) }, now) == m,
        m.step(NodeEvent::Reply { from, tag, result: Ok(response) }, now) == m,
{
}

/// An accepted AppendEntries is booked: the peer is known to hold the log
/// through what it was sent, or further if it was known to before; the next
/// entry that it is sent follows; it counts as heard now, and as having
/// acknowledged the leadership as of the sending. Nobody else's row changes.
/// Where there is more to send, it is sent at once.
pub proof fn an_acceptance_is_booked<S: StateMachine>(
    m: NodeModel<S>,
    leader: LeaderModel,
    from: NodeId,
    prev: LogIndex,
    count: u64,
    seq: u64,
    reply: AppendEntriesReply,
    now: u64,
    other: NodeId,
)
    requires
        m.settled(),
        m.role == RoleModel::Leader(leader),
        m.room(now),
        m.members().contains(m.settings.id),
        prev + count <= m.files.last_index(),
        reply.success,
        reply.term <= m.files.hard_state.current_term,
        other != from,
    ensures
        ({
            let after = m.step(
                NodeEvent::Reply {
                    from,
                    tag: ReplyTag::Append {
                        sent_term: m.files.hard_state.current_term,
                        sent_prev_index: prev,
                        sent_entries: count,
                        sent_seq: seq,
                    },
                    result: Ok(RpcResponse::AppendEntries(reply)),
                },
                now,
            );
            let known = if leader.match_index.contains_key(from) {
                leader.match_index[from]
            } else {
                0
            };
            let acked = if leader.acked_seq.contains_key(from) {
                leader.acked_seq[from]
            } else {
                0
            };
            &&& after.role is Leader
            &&& {
                let next = after.role->Leader_0;
                &&& next.match_index.contains_key(from)
                &&& next.match_index[from] == (if prev + count > known {
                    prev + count
                } else {
                    known as int
                })
                &&& prev + count > known ==> next.next_index.contains_key(from)
                    && next.next_index[from] == prev + count + 1
                &&& prev + count <= known ==> next.next_index == leader.next_index
                &&& next.acked_seq.contains_key(from)
                &&& next.acked_seq[from] == (if seq > acked {
                    seq
                } else {
                    acked
                })
                &&& next.last_contact.contains_key(from)
                &&& next.last_contact[from] == now
                &&& next.match_index.contains_key(other) == leader.match_index.contains_key(other)
                &&& next.match_index[other] == leader.match_index[other]
                &&& next.next_index.contains_key(other) == leader.next_index.contains_key(other)
                &&& next.next_index[other] == leader.next_index[other]
                &&& next.last_contact.contains_key(other) == leader.last_contact.contains_key(other)
                &&& next.last_contact[other] == leader.last_contact[other]
                &&& next.acked_seq.contains_key(other) == leader.acked_seq.contains_key(other)
                &&& next.acked_seq[other] == leader.acked_seq[other]
            }
            &&& known < prev + count < m.files.last_index() && m.members().contains(from) && from
                != m.settings.id ==> sent_to(
                after.effects,
                from,
                replicates(m.settings.id, m.files.hard_state.current_term),
            )
        }),
{
    let heard = NodeModel::<S>::acknowledge(leader, from, seq, now);
    let confirmed = (prev + count) as u64;
    let known = super::model::lookup(leader.match_index, from, 0);
    let next = if confirmed > known {
        LeaderModel {
            match_index: heard.match_index.insert(from, confirmed),
            next_index: heard.next_index.insert(from, (confirmed + 1) as u64),
            ..heard
        }
    } else {
        LeaderModel { match_index: heard.match_index.insert(from, known), ..heard }
    };
    let held = m.with_leader(next);
    assert(held.inv());
    super::duties::advancing_keeps_a_member_leading(held, now);
    let moved = held.maybe_advance_commit(now);
    let sent = moved.send_append(from);
    if known < prev + count && prev + count < m.files.last_index() && m.members().contains(from)
        && from != m.settings.id {
        assert(sent.effects.last() == moved.replication(moved.role->Leader_0, from));
        assert(sent.effects[sent.effects.len() - 1] is Send);
        assert(sent_to(
            sent.effects,
            from,
            replicates(m.settings.id, m.files.hard_state.current_term),
        ));
        super::duties::resolving_reads_keeps_what_is_sent(
            sent,
            from,
            replicates(m.settings.id, m.files.hard_state.current_term),
        );
    }
}

/// A rejected AppendEntries makes the leader step back: the peer is next sent
/// from before what it did not match, never from before the first entry, and
/// never forward of where it already was; the retry goes out at once. It still
/// counts as heard and as an acknowledgement; what it is known to hold stays.
pub proof fn a_rejection_steps_back_and_retries<S: StateMachine>(
    m: NodeModel<S>,
    leader: LeaderModel,
    from: NodeId,
    prev: LogIndex,
    count: u64,
    seq: u64,
    reply: AppendEntriesReply,
    now: u64,
)
    requires
        m.role == RoleModel::Leader(leader),
        !reply.success,
        reply.term <= m.files.hard_state.current_term,
        leader.next_index.contains_key(from),
        leader.next_index[from] >= 1,
        m.members().contains(from),
        from != m.settings.id,
    ensures
        ({
            let after = m.step(
                NodeEvent::Reply {
                    from,
                    tag: ReplyTag::Append {
                        sent_term: m.files.hard_state.current_term,
                        sent_prev_index: prev,
                        sent_entries: count,
                        sent_seq: seq,
                    },
                    result: Ok(RpcResponse::AppendEntries(reply)),
                },
                now,
            );
            let next = after.role->Leader_0;
            &&& after.role is Leader
            &&& next.next_index.contains_key(from)
            &&& 1 <= next.next_index[from] <= leader.next_index[from]
            &&& prev >= 1 ==> next.next_index[from] <= prev
            &&& next.next_index[from] == leader.next_index[from] || next.next_index[from] == prev
                || next.next_index[from] == 1
            &&& prev >= 1 && leader.next_index[from] > prev ==> next.next_index[from] == prev
            &&& next.match_index == leader.match_index
            &&& next.last_contact.contains_key(from)
            &&& next.last_contact[from] == now
            &&& next.acked_seq.contains_key(from)
            &&& next.acked_seq[from] >= seq
            &&& after.files == m.files
            &&& after.commit_index == m.commit_index
            &&& sent_to(
                after.effects,
                from,
                replicates(m.settings.id, m.files.hard_state.current_term),
            )
        }),
{
    let heard = NodeModel::<S>::acknowledge(leader, from, seq, now);
    let back = m.on_append_rejected(heard, from, prev);
    assert(back.effects.last() is Send);
    assert(back.effects[back.effects.len() - 1] is Send);
    assert(sent_to(
        back.effects,
        from,
        replicates(m.settings.id, m.files.hard_state.current_term),
    ));
    super::duties::resolving_reads_keeps_what_is_sent(
        back,
        from,
        replicates(m.settings.id, m.files.hard_state.current_term),
    );
}

/// An installed snapshot is booked: the peer is known to hold everything
/// through the boundary, is next sent what follows, and counts as heard; it
/// acknowledges no read.
pub proof fn an_installed_snapshot_is_booked<S: StateMachine>(
    m: NodeModel<S>,
    leader: LeaderModel,
    from: NodeId,
    boundary: LogIndex,
    reply: InstallSnapshotReply,
    now: u64,
)
    requires
        m.settled(),
        m.role == RoleModel::Leader(leader),
        m.room(now),
        m.members().contains(m.settings.id),
        boundary <= m.files.last_index(),
        reply.term <= m.files.hard_state.current_term,
    ensures
        ({
            let after = m.step(
                NodeEvent::Reply {
                    from,
                    tag: ReplyTag::InstallSnapshot {
                        sent_term: m.files.hard_state.current_term,
                        last_included_index: boundary,
                    },
                    result: Ok(RpcResponse::InstallSnapshot(reply)),
                },
                now,
            );
            let next = after.role->Leader_0;
            &&& after.role is Leader
            &&& next.match_index.contains_key(from)
            &&& next.match_index[from] >= boundary
            &&& next.match_index[from] == boundary || leader.match_index.contains_key(from)
                && next.match_index[from] == leader.match_index[from]
            &&& next.next_index.contains_key(from)
            &&& next.next_index[from] > boundary
            &&& next.next_index[from] == boundary + 1 || leader.next_index.contains_key(from)
                && next.next_index[from] == leader.next_index[from]
            &&& next.acked_seq == leader.acked_seq
            &&& next.last_contact.contains_key(from)
            &&& next.last_contact[from] == now
            &&& boundary < m.files.last_index() && m.members().contains(from) && from
                != m.settings.id ==> sent_to(
                after.effects,
                from,
                replicates(m.settings.id, m.files.hard_state.current_term),
            )
        }),
{
    let next = LeaderModel {
        last_contact: leader.last_contact.insert(from, now),
        match_index: leader.match_index.insert(
            from,
            super::model::larger(super::model::lookup(leader.match_index, from, 0), boundary),
        ),
        next_index: leader.next_index.insert(
            from,
            super::model::larger(
                super::model::lookup(leader.next_index, from, 1),
                (boundary + 1) as u64,
            ),
        ),
        ..leader
    };
    let held = m.with_leader(next);
    assert(held.inv());
    super::duties::advancing_keeps_a_member_leading(held, now);
    let moved = held.maybe_advance_commit(now);
    let sent = moved.send_append(from);
    if boundary < m.files.last_index() && m.members().contains(from) && from != m.settings.id {
        assert(sent.effects.last() == moved.replication(moved.role->Leader_0, from));
        assert(sent.effects[sent.effects.len() - 1] is Send);
    }
}

/// A piece of a snapshot is contact with its leader like any other message, and
/// is answered with how much of the snapshot the node has got; one of an older
/// term changes nothing and is answered with nothing got.
pub proof fn a_piece_of_a_snapshot_is_contact<S: StateMachine>(
    m: NodeModel<S>,
    args: super::rpc::ChunkModel,
    now: u64,
)
    requires
        args.offset + args.data.len() <= u64::MAX,
    ensures
        ({
            let term = m.files.hard_state.current_term;
            let (after, reply) = m.on_snapshot_chunk(args, now);
            let so_far = if m.incoming is Some && m.incoming->0.transfer == args.transfer {
                m.incoming->0.bytes.len()
            } else {
                0
            };
            &&& args.transfer.term < term ==> after == m && reply.term == term && reply.received == 0
            &&& args.transfer.term >= term ==> {
                &&& after.role is Follower
                &&& after.leader_id == Some(args.transfer.leader_id)
                &&& after.last_leader_contact == Some(now)
                &&& after.files.hard_state.current_term == args.transfer.term
                &&& reply.term == args.transfer.term
                &&& so_far <= u64::MAX ==> reply.received == (if args.offset == so_far {
                    so_far + args.data.len()
                } else {
                    so_far
                })
                &&& after.files.log == m.files.log
                &&& after.files.snapshot == m.files.snapshot
                &&& after.commit_index == m.commit_index
                &&& after.state == m.state
            }
        }),
{
    super::chunks::a_chunk_is_taken_exactly_where_the_receiver_stands(m.incoming, args);
}

/// An answered piece is contact with its receiver, and changes nothing else.
pub proof fn an_answered_piece_is_contact<S: StateMachine>(
    m: NodeModel<S>,
    leader: LeaderModel,
    from: NodeId,
    reply: super::rpc::SnapshotChunkReply,
    now: u64,
)
    requires
        m.role == RoleModel::Leader(leader),
        reply.term <= m.files.hard_state.current_term,
    ensures
        m.step(
            NodeEvent::Reply {
                from,
                tag: ReplyTag::SnapshotChunk { sent_term: m.files.hard_state.current_term },
                result: Ok(RpcResponse::SnapshotChunk(reply)),
            },
            now,
        ) == (NodeModel {
            role: RoleModel::Leader(
                LeaderModel { last_contact: leader.last_contact.insert(from, now), ..leader },
            ),
            ..m
        }),
{
}

/// A batch in order is admitted: one that is numbered on from an entry that
/// matches, and agrees in term with everything that the node has committed, can
/// be taken over, whatever lies behind in the node's log.
pub proof fn an_orderly_batch_is_admitted<S: StateMachine>(m: NodeModel<S>, args: AppendModel)
    requires
        m.settled(),
        args.well_shaped(),
        args.prev_log_index + args.entries.len() < u64::MAX,
        forall|i: int, j: int|
            #![trigger args.entries[i], m.files.log[j]]
            0 <= i < args.entries.len() && 0 <= j < m.files.log.len() && args.entries[i].index
                == m.files.log[j].index && m.files.log[j].index <= m.commit_index
                ==> args.entries[i].term == m.files.log[j].term,
    ensures
        m.admits_append(args),
{
    if args.term >= m.term() && m.prev_matches(args) {
        assert(m.spares_committed(args.entries)) by {
            if !m.has_all(args.entries) {
                super::upkeep::first_new_exists(m, args.entries);
                let i = m.first_new(args.entries);
                super::upkeep::first_new_fits(m, args, i);
                let index = args.entries[i].index;
                if index <= m.commit_index {
                    let j = index - m.files.snapshot_index() - 1;
                    assert(m.files.log[j].index == index);
                    assert(args.entries[i].term == m.files.log[j].term);
                    assert(m.has_entry(args.entries[i]));
                }
            }
        }
        let follower = NodeModel { role: RoleModel::Follower, ..m };
        assert(follower.inv());
        assert forall|e: LogEntry| #[trigger] follower.has_entry(e) == m.has_entry(e) by {}
        super::upkeep::takes_by_the_log(m, follower, args);
        assert(follower.spares_committed(args.entries)) by {
            assert(follower.has_all(args.entries) == m.has_all(args.entries));
            if !m.has_all(args.entries) {
                super::upkeep::first_new_exists(m, args.entries);
                let i = m.first_new(args.entries);
                assert(follower.is_first_new(args.entries, i));
                super::upkeep::first_new_unique(follower, args.entries, i);
            }
        }
        super::upkeep::shaped_batch_fits(follower, args);
    }
}

} // verus!
