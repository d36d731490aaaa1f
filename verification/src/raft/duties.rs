//! What a node owes: the votes it must grant, the elections that must be won,
//! the entries that must be committed, the messages that must go out. The rules
//! of `laws.rs` and `safety.rs` say what must not happen; these say what must.

use vstd::prelude::*;

use super::machine::StateMachine;
use super::model::{
    lookup, EffectModel, LeaderModel, NodeEvent, NodeModel, PendingRead, Proposal, ReplyTag,
    RoleModel,
};
use super::quorum::{is_quorum_index, quorum_exists, reaching};
use super::rpc::{AppendEntriesReply, RequestModel, RequestVoteArgs, RequestVoteReply, RpcResponse};
use super::storage::{Durable, WriteModel};

use super::types::{Command, HardState, LogEntry, LogIndex, NodeId, Term};
use super::upkeep::{
    append_keeps, candidacy_keeps, commit_to_settles, maybe_advance_commit_keeps,
    maybe_compact_keeps, resolve_pending_keeps, resolve_reads_keeps,
};

verus! {

// ---- counting ----

/// Whether `some` are more than half of the members that `ids` lists.
pub open spec fn outvotes(some: Set<NodeId>, ids: Seq<NodeId>) -> bool {
    &&& some.finite()
    &&& forall|id: NodeId| #[trigger] some.contains(id) ==> ids.contains(id)
    &&& 2 * some.len() > ids.len()
}

/// A filter keeps at least as many as are known to pass.
proof fn lemma_filter_counts<A>(s: Seq<A>, test: spec_fn(A) -> bool, some: Set<A>)
    requires
        some.finite(),
        forall|x: A| #[trigger] some.contains(x) ==> s.contains(x) && test(x),
    ensures
        s.filter(test).len() >= some.len(),
{
    let kept = s.filter(test);
    lemma_filter_finds(s, test);
    assert(some.subset_of(kept.to_set())) by {
        assert forall|x: A| some.contains(x) implies kept.to_set().contains(x) by {
            let i = choose|i: int| 0 <= i < s.len() && s[i] == x;
            assert(test(s[i]));
            assert(kept.contains(s[i]));
        }
    }
    kept.lemma_cardinality_of_set();
    vstd::seq_lib::seq_to_set_is_finite(kept);
    vstd::set_lib::lemma_len_subset(some, kept.to_set());
}

proof fn lemma_filter_finds<A>(s: Seq<A>, test: spec_fn(A) -> bool)
    ensures
        forall|i: int|
            #![trigger s[i]]
            0 <= i < s.len() && test(s[i]) ==> s.filter(test).contains(s[i]),
    decreases s.len(),
{
    reveal(Seq::filter);
    if s.len() > 0 {
        let init = s.drop_last();
        lemma_filter_finds(init, test);
        assert forall|i: int| #![trigger s[i]] 0 <= i < s.len() && test(s[i]) implies s.filter(
            test,
        ).contains(s[i]) by {
            if i < init.len() {
                assert(init[i] == s[i]);
                let j = choose|j: int|
                    0 <= j < init.filter(test).len() && init.filter(test)[j] == s[i];
                assert(s.filter(test)[j] == s[i]);
            } else {
                assert(s.filter(test).last() == s[i]);
            }
        }
    }
}

/// More than half of `ids` make half of them and one more.
pub proof fn passing_members_count(
    ids: Seq<NodeId>,
    test: spec_fn(NodeId) -> bool,
    some: Set<NodeId>,
)
    requires
        outvotes(some, ids),
        forall|id: NodeId| #[trigger] some.contains(id) ==> test(id),
    ensures
        ids.filter(test).len() >= ids.len() / 2 + 1,
{
    lemma_filter_counts(ids, test, some);
}

/// More than half of the members are enough for whatever takes a majority.
pub proof fn more_than_half_are_enough<S: StateMachine>(
    m: NodeModel<S>,
    test: spec_fn(NodeId) -> bool,
    some: Set<NodeId>,
)
    requires
        outvotes(some, m.members()),
        forall|id: NodeId| #[trigger] some.contains(id) ==> test(id),
    ensures
        m.majority_of(test),
{
    lemma_filter_counts(m.members(), test, some);
}

// ---- votes ----

/// Whether the pair (`term`, `index`) is at or above the last entry of the
/// files: by term first, by index among equal terms. An empty log ends where
/// the snapshot does, and at (0, 0) where there is none.
pub open spec fn not_behind<D>(term: Term, index: LogIndex, files: Durable<D>) -> bool {
    let (last_term, last_index) = if files.log.len() > 0 {
        (files.log[files.log.len() - 1].term, files.log[files.log.len() - 1].index)
    } else {
        match files.snapshot {
            Some(snapshot) => (snapshot.last_included_term, snapshot.last_included_index),
            None => (0, 0),
        }
    };
    if term == last_term {
        index >= last_index
    } else {
        term > last_term
    }
}

/// When a vote is owed: at a newer term to every candidate whose log is not
/// behind, whoever got a vote before; at the current term to the one that has
/// it already, or to the first that asks; and never otherwise. The answer
/// carries the newer of the two terms.
pub proof fn a_vote_is_granted_exactly_when_it_is_owed<S: StateMachine>(
    m: NodeModel<S>,
    args: RequestVoteArgs,
    now: u64,
)
    requires
        m.files.wf(),
    ensures
        ({
            let term = m.files.hard_state.current_term;
            let voted = m.files.hard_state.voted_for;
            let (after, reply) = m.on_request_vote(args, now);
            &&& reply.vote_granted <==> not_behind(
                args.last_log_term,
                args.last_log_index,
                m.files,
            ) && (args.term > term || (args.term == term && (voted is None || voted == Some(
                args.candidate_id,
            ))))
            &&& reply.term == (if args.term > term {
                args.term
            } else {
                term
            })
            &&& after.files.hard_state.current_term == reply.term
            &&& reply.vote_granted ==> after.files.hard_state.voted_for == Some(args.candidate_id)
            &&& !reply.vote_granted ==> after.files.hard_state.voted_for == (if args.term > term {
                None
            } else {
                voted
            })
            &&& args.term > term ==> after.role is Follower && after.leader_id is None
            &&& args.term <= term ==> after.role == m.role && after.leader_id == m.leader_id
            &&& after.last_leader_contact == m.last_leader_contact
            &&& after.last_applied == m.last_applied
            &&& after.pending == m.pending
            &&& after.files.log == m.files.log
            &&& after.files.snapshot == m.files.snapshot
            &&& after.commit_index == m.commit_index
            &&& after.state == m.state
        }),
{
}

/// When a pre-vote is owed: to everyone who asks for a newer term with a log
/// that is not behind, by a node that leads nobody and has heard no leader for
/// the shortest election timeout; and never otherwise.
pub proof fn a_pre_vote_is_granted_exactly_when_it_is_owed<S: StateMachine>(
    m: NodeModel<S>,
    args: RequestVoteArgs,
    now: u64,
)
    requires
        m.files.wf(),
        match m.last_leader_contact {
            Some(at) => at <= now,
            None => true,
        },
    ensures
        m.on_request(RequestModel::PreVote(args), now).1 == RpcResponse::PreVote(
            RequestVoteReply {
                term: m.files.hard_state.current_term,
                vote_granted: {
                    &&& args.term > m.files.hard_state.current_term
                    &&& not_behind(args.last_log_term, args.last_log_index, m.files)
                    &&& !(m.role is Leader)
                    &&& match m.last_leader_contact {
                        Some(at) => now - at >= m.settings.election_timeout_min,
                        None => true,
                    }
                },
            },
        ),
{
}

// ---- elections ----

/// Whether `effects` hold an RPC for `to` that `wanted` describes.
pub open spec fn sent_to<D>(
    effects: Seq<EffectModel<D>>,
    to: NodeId,
    wanted: spec_fn(RequestModel<D>) -> bool,
) -> bool {
    exists|i: int|
        #![trigger effects[i]]
        0 <= i < effects.len() && effects[i] is Send && effects[i]->Send_to == to && wanted(
            effects[i]->Send_request,
        )
}

/// Whether a request replicates the leader's log: entries, or the snapshot.
pub open spec fn replicates<D>(leader: NodeId, term: Term) -> spec_fn(RequestModel<D>) -> bool {
    |request: RequestModel<D>|
        match request {
            RequestModel::AppendEntries(args) => args.leader_id == leader && args.term == term,
            RequestModel::InstallSnapshot(args) => args.leader_id == leader && args.term == term,
            _ => false,
        }
}

proof fn lemma_sent_stays<D>(
    before: Seq<EffectModel<D>>,
    more: Seq<EffectModel<D>>,
    to: NodeId,
    wanted: spec_fn(RequestModel<D>) -> bool,
)
    requires
        sent_to(before, to, wanted),
    ensures
        sent_to(before + more, to, wanted),
{
    let i = choose|i: int|
        #![trigger before[i]]
        0 <= i < before.len() && before[i] is Send && before[i]->Send_to == to && wanted(
            before[i]->Send_request,
        );
    assert((before + more)[i] == before[i]);
}

/// The other members of a configuration are its peers.
proof fn lemma_peer_listed<S: StateMachine>(m: NodeModel<S>, id: NodeId) -> (i: int)
    requires
        m.members().contains(id),
        id != m.settings.id,
    ensures
        0 <= i < m.peers().len(),
        m.peers()[i] == id,
{
    let test = |id: NodeId| id != m.settings.id;
    lemma_filter_finds(m.members(), test);
    let j = choose|j: int| 0 <= j < m.members().len() && m.members()[j] == id;
    assert(test(m.members()[j]));
    let i = choose|i: int| 0 <= i < m.peers().len() && m.peers()[i] == id;
    i
}

/// A broadcast leaves no other member out.
pub proof fn a_broadcast_reaches_every_peer<S: StateMachine>(m: NodeModel<S>, id: NodeId)
    requires
        m.role is Leader,
        m.members().contains(id),
        id != m.settings.id,
    ensures
        sent_to(m.broadcast().effects, id, replicates(m.settings.id, m.files.hard_state.current_term)),
{
    let i = lemma_peer_listed(m, id);
    let leader = m.role->Leader_0;
    let sent = m.peers().map_values(|peer: NodeId| m.replication(leader, peer));
    let effects = m.broadcast().effects;
    assert(effects[m.effects.len() + i] == sent[i]);
    assert(sent[i] == m.replication(leader, id));
}

/// A leader that heard lately from more than half of the members, itself
/// counted in, leads on at its term when its timer runs out, and every other
/// member is sent what it needs next.
pub proof fn a_leader_in_touch_with_a_majority_leads_on<S: StateMachine>(
    m: NodeModel<S>,
    leader: LeaderModel,
    now: u64,
    some: Set<NodeId>,
    id: NodeId,
)
    requires
        m.role == RoleModel::Leader(leader),
        outvotes(some, m.members()),
        forall|x: NodeId| #[trigger] some.contains(x) ==> x == m.settings.id || (
        leader.last_contact.contains_key(x) && leader.last_contact[x] <= now && now
            - leader.last_contact[x] < m.settings.election_timeout_max),
        m.members().contains(id),
        id != m.settings.id,
        now + m.settings.heartbeat_interval <= u64::MAX,
    ensures
        m.step(NodeEvent::Timer, now).role == m.role,
        m.step(NodeEvent::Timer, now).files == m.files,
        m.step(NodeEvent::Timer, now).next_deadline() == now + m.settings.heartbeat_interval,
        sent_to(
            m.step(NodeEvent::Timer, now).effects,
            id,
            replicates(m.settings.id, m.files.hard_state.current_term),
        ),
{
    more_than_half_are_enough(m, |x: NodeId| m.heard(leader, now, x), some);
    a_broadcast_reaches_every_peer(m, id);
}

/// A leader in touch with no more than half of the members, itself counted in,
/// stops leading when its timer runs out.
pub proof fn a_leader_out_of_touch_steps_down<S: StateMachine>(
    m: NodeModel<S>,
    leader: LeaderModel,
    now: u64,
    heard: Set<NodeId>,
)
    requires
        m.role == RoleModel::Leader(leader),
        m.members().no_duplicates(),
        heard.finite(),
        forall|x: NodeId| #[trigger]
            m.members().contains(x) && (x == m.settings.id || (leader.last_contact.contains_key(x)
                && (now < leader.last_contact[x] || now - leader.last_contact[x]
                < m.settings.election_timeout_max))) ==> heard.contains(x),
        2 * heard.len() <= m.members().len(),
        m.settings.election_timeout_max > 0,
    ensures
        m.step(NodeEvent::Timer, now).role is Follower,
        m.step(NodeEvent::Timer, now).files == m.files,
{
    let test = |x: NodeId| m.heard(leader, now, x);
    no_more_than_may_pass(m.members(), test, heard);
}

/// A filter keeps no more than may pass, where nothing occurs twice.
pub proof fn no_more_than_may_pass<A>(s: Seq<A>, test: spec_fn(A) -> bool, may: Set<A>)
    requires
        s.no_duplicates(),
        may.finite(),
        forall|x: A| #[trigger] s.contains(x) && test(x) ==> may.contains(x),
    ensures
        s.filter(test).len() <= may.len(),
{
    let kept = s.filter(test);
    super::upkeep::filter_keeps(s, test);
    lemma_filter_unique(s, test);
    kept.unique_seq_to_set();
    assert(kept.to_set().subset_of(may)) by {
        assert forall|x: A| kept.to_set().contains(x) implies may.contains(x) by {
            let i = choose|i: int| 0 <= i < kept.len() && kept[i] == x;
            assert(test(kept[i]) && s.contains(kept[i]));
        }
    }
    vstd::set_lib::lemma_len_subset(kept.to_set(), may);
}

proof fn lemma_filter_unique<A>(s: Seq<A>, test: spec_fn(A) -> bool)
    requires
        s.no_duplicates(),
    ensures
        s.filter(test).no_duplicates(),
    decreases s.len(),
{
    reveal(Seq::filter);
    if s.len() > 0 {
        let init = s.drop_last();
        lemma_filter_unique(init, test);
        super::upkeep::filter_keeps(init, test);
        let kept = init.filter(test);
        assert forall|i: int| 0 <= i < kept.len() implies kept[i] != s.last() by {
            assert(init.contains(kept[i]));
            let j = choose|j: int| 0 <= j < init.len() && init[j] == kept[i];
            assert(s[j] != s[s.len() - 1]);
        }
    }
}

/// A member whose timer runs out campaigns: it leaves its log and its term as
/// they are, asks every other member whether it would vote for it at the next
/// term, by the end of its own log, and waits a fresh timeout for the answers.
pub proof fn a_timeout_starts_a_campaign<S: StateMachine>(m: NodeModel<S>, now: u64, id: NodeId)
    requires
        m.files.wf(),
        !(m.role is Leader),
        m.members().contains(m.settings.id),
        m.members().len() >= 2,
        m.members().no_duplicates(),
        m.members().contains(id),
        id != m.settings.id,
        m.files.hard_state.current_term < u64::MAX,
        m.files.last_index() < u64::MAX,
        now + m.settings.election_timeout_max <= u64::MAX,
        m.settings.election_timeout_min <= m.settings.election_timeout_max,
    ensures
        ({
            let after = m.step(NodeEvent::Timer, now);
            &&& after.role == (RoleModel::PreCandidate {
                votes: Set::empty().insert(m.settings.id),
            })
            &&& after.files == m.files
            &&& after.leader_id is None
            &&& now + m.settings.election_timeout_min <= after.election_deadline <= now
                + m.settings.election_timeout_max
            &&& sent_to(
                after.effects,
                id,
                |request: RequestModel<S::State>|
                    match request {
                        RequestModel::PreVote(args) => {
                            &&& args.term == m.files.hard_state.current_term + 1
                            &&& args.candidate_id == m.settings.id
                            &&& not_behind(args.last_log_term, args.last_log_index, m.files)
                            &&& ends_at(args.last_log_term, args.last_log_index, m.files)
                        },
                        _ => false,
                    },
            )
        }),
{
    let asked = m.pre_campaign(now);
    let i = lemma_peer_listed(m, id);
    let term = (m.term() + 1) as u64;
    let sent = m.peers().map_values(
        |peer: NodeId|
            EffectModel::<S::State>::Send {
                to: peer,
                request: RequestModel::PreVote(m.ballot(term)),
                tag: ReplyTag::PreVote { sent_term: term },
            },
    );
    assert(asked.effects[m.effects.len() + i] == sent[i]);
    crate::rng::reduced_draws_lie_in_range(
        m.settings.election_timeout_min,
        m.settings.election_timeout_max,
        crate::rng::mix(crate::rng::advance(m.rng)),
    );
    let votes = Set::<NodeId>::empty().insert(m.settings.id);
    let test = |x: NodeId| votes.contains(x);
    assert(votes.len() == 1);
    no_more_than_may_pass(asked.members(), test, votes);
}

/// Whether the last entry of the files is the one at (`term`, `index`).
pub open spec fn ends_at<D>(term: Term, index: LogIndex, files: Durable<D>) -> bool {
    if files.log.len() > 0 {
        &&& files.log[files.log.len() - 1].term == term
        &&& files.log[files.log.len() - 1].index == index
    } else {
        match files.snapshot {
            Some(snapshot) => snapshot.last_included_term == term && snapshot.last_included_index
                == index,
            None => term == 0 && index == 0,
        }
    }
}

/// Pre-votes of more than half of the members, its own counted in, start the
/// real election: the next term, with the node's vote for itself, is written,
/// every other member is asked for its vote by the end of the node's log, and a
/// fresh timeout starts.
pub proof fn a_majority_of_pre_votes_starts_the_election<S: StateMachine>(
    m: NodeModel<S>,
    votes: Set<NodeId>,
    from: NodeId,
    reply: RequestVoteReply,
    now: u64,
    some: Set<NodeId>,
    id: NodeId,
)
    requires
        m.settled(),
        m.room(now),
        m.role == (RoleModel::PreCandidate { votes }),
        reply.vote_granted,
        reply.term <= m.files.hard_state.current_term,
        outvotes(some, m.members()),
        forall|x: NodeId| #[trigger] some.contains(x) ==> votes.contains(x) || x == from,
        m.members().no_duplicates(),
        m.members().len() >= 2,
        m.members().contains(id),
        id != m.settings.id,
    ensures
        ({
            let term = (m.files.hard_state.current_term + 1) as u64;
            let after = m.step(
                NodeEvent::Reply {
                    from,
                    tag: ReplyTag::PreVote { sent_term: term },
                    result: Ok(RpcResponse::PreVote(reply)),
                },
                now,
            );
            &&& after.role == (RoleModel::Candidate { votes: Set::empty().insert(m.settings.id) })
            &&& after.leader_id is None
            &&& now + m.settings.election_timeout_min <= after.election_deadline <= now
                + m.settings.election_timeout_max
            &&& after.files == (Durable {
                hard_state: HardState { current_term: term, voted_for: Some(m.settings.id) },
                ..m.files
            })
            &&& after.writes == m.writes.push(WriteModel::HardState(after.files.hard_state))
            &&& sent_to(
                after.effects,
                id,
                |request: RequestModel<S::State>|
                    match request {
                        RequestModel::RequestVote(args) => {
                            &&& args.term == term
                            &&& args.candidate_id == m.settings.id
                            &&& ends_at(args.last_log_term, args.last_log_index, m.files)
                        },
                        _ => false,
                    },
            )
        }),
{
    let counted = NodeModel { role: RoleModel::PreCandidate { votes: votes.insert(from) }, ..m };
    let won = votes.insert(from);
    more_than_half_are_enough(counted, |x: NodeId| won.contains(x), some);
    let asked = counted.candidacy(now);
    let i = lemma_peer_listed(counted, id);
    let term = (m.term() + 1) as u64;
    let sent = counted.peers().map_values(
        |peer: NodeId|
            EffectModel::<S::State>::Send {
                to: peer,
                request: RequestModel::RequestVote(counted.ballot(term)),
                tag: ReplyTag::Vote { sent_term: term },
            },
    );
    assert(asked.effects[m.effects.len() + i] == sent[i]);
    crate::rng::reduced_draws_lie_in_range(
        m.settings.election_timeout_min,
        m.settings.election_timeout_max,
        crate::rng::mix(crate::rng::advance(m.rng)),
    );
    let own = Set::<NodeId>::empty().insert(m.settings.id);
    let test = |x: NodeId| own.contains(x);
    assert(own.len() == 1);
    no_more_than_may_pass(asked.members(), test, own);
    assert(asked.files == (Durable {
        hard_state: HardState { current_term: term, voted_for: Some(m.settings.id) },
        ..m.files
    }));
}

/// Whether a new leader's books start even: every other member is next sent
/// what follows the log as it was, is known to hold nothing, and nobody has
/// acknowledged anything.
pub open spec fn starts_even(
    leader: LeaderModel,
    ids: Seq<NodeId>,
    own: NodeId,
    last_index: int,
) -> bool {
    &&& forall|id: NodeId| #[trigger]
        ids.contains(id) && id != own ==> {
            &&& leader.next_index.contains_key(id)
            &&& leader.next_index[id] == last_index + 1
            &&& leader.match_index.contains_key(id)
            &&& leader.match_index[id] == 0
        }
    &&& forall|id: NodeId| !#[trigger] leader.acked_seq.contains_key(id)
}

/// Taking over: the node leads its term, its log has got the no-op of that
/// term at its end, and every other member is sent what it needs next.
proof fn lemma_takes_over<S: StateMachine>(m: NodeModel<S>, now: u64)
    requires
        m.settled(),
        m.files.last_index() + 2 < u64::MAX,
        m.members().contains(m.settings.id),
        m.settings.election_timeout_max > 0,
    ensures
        ({
            let after = m.become_leader(now);
            &&& after.role is Leader
            &&& after.files.hard_state == m.files.hard_state
            &&& after.leader_id == Some(m.settings.id)
            &&& after.files.last_index() == m.files.last_index() + 1
            &&& after.files.last_term() == m.files.hard_state.current_term
            &&& after.role->Leader_0.term_start_index == m.files.last_index() + 1
            &&& starts_even(after.role->Leader_0, m.members(), m.settings.id, m.files.last_index())
            &&& after.writes.len() > m.writes.len()
            &&& after.writes[m.writes.len() as int] == WriteModel::<S::State>::AppendLog(
                seq![
                    LogEntry {
                        term: m.files.hard_state.current_term,
                        index: (m.files.last_index() + 1) as u64,
                        command: Command::Noop,
                    },
                ],
            )
            &&& forall|id: NodeId|
                m.members().contains(id) && id != m.settings.id ==> #[trigger] sent_to(
                    after.effects,
                    id,
                    replicates(m.settings.id, m.files.hard_state.current_term),
                )
        }),
{
    let bare = NodeModel {
        role: RoleModel::Leader(m.fresh_leader(now)),
        leader_id: Some(m.settings.id),
        ..m
    };
    super::upkeep::become_leader_keeps(m, now);
    let appended = bare.append(seq![m.noop()]);
    append_keeps(bare, seq![m.noop()]);
    super::reach::plain_entry_keeps_members(bare, m.noop());
    assert(appended.files.log.last() == m.noop());
    maybe_advance_commit_keeps(appended, now);
    let moved = appended.maybe_advance_commit(now);
    advancing_keeps_a_member_leading(appended, now);
    let leader = moved.role->Leader_0;
    assert forall|x: NodeId| #[trigger] moved.members().contains(x) implies moved.heard(
        leader,
        now,
        x,
    ) by {
        if x != m.settings.id {
            let i = lemma_peer_listed(m, x);
        }
    }
    lemma_all_pass(moved.members(), |x: NodeId| moved.heard(leader, now, x));
    assert forall|id: NodeId| #[trigger] m.members().contains(id) && id != m.settings.id implies {
        &&& leader.next_index.contains_key(id)
        &&& leader.next_index[id] == m.files.last_index() + 1
        &&& leader.match_index.contains_key(id)
        &&& leader.match_index[id] == 0
    } by {
        let i = lemma_peer_listed(m, id);
        assert(m.peers().contains(id));
    }
    assert(moved.hears_majority(leader, now));
    assert forall|id: NodeId| m.members().contains(id) && id != m.settings.id implies #[trigger] sent_to(
        m.become_leader(now).effects,
        id,
        replicates(m.settings.id, m.files.hard_state.current_term),
    ) by {
        a_broadcast_reaches_every_peer(moved, id);
    }
}

proof fn lemma_all_pass<A>(s: Seq<A>, test: spec_fn(A) -> bool)
    requires
        forall|x: A| #[trigger] s.contains(x) ==> test(x),
    ensures
        s.filter(test) == s,
    decreases s.len(),
{
    reveal(Seq::filter);
    if s.len() > 0 {
        let init = s.drop_last();
        assert forall|x: A| #[trigger] init.contains(x) implies test(x) by {
            let i = choose|i: int| 0 <= i < init.len() && init[i] == x;
            assert(s[i] == x);
            assert(s.contains(x));
        }
        lemma_all_pass(init, test);
        assert(s.contains(s.last()));
        assert(s =~= init.push(s.last()));
    }
}

/// Advancing the commit point leaves a leader that is a member in place, with
/// its bookkeeping, its configuration and its last entry.
pub proof fn advancing_keeps_a_member_leading<S: StateMachine>(m: NodeModel<S>, now: u64)
    requires
        m.inv(),
        m.role is Leader,
        m.members().contains(m.settings.id),
    ensures
        ({
            let after = m.maybe_advance_commit(now);
            &&& after.role is Leader
            &&& after.role->Leader_0.last_contact == m.role->Leader_0.last_contact
            &&& after.role->Leader_0.term_start_index == m.role->Leader_0.term_start_index
            &&& after.role->Leader_0.next_index == m.role->Leader_0.next_index
            &&& after.role->Leader_0.match_index == m.role->Leader_0.match_index
            &&& after.role->Leader_0.acked_seq == m.role->Leader_0.acked_seq
            &&& after.role->Leader_0.heartbeat_seq == m.role->Leader_0.heartbeat_seq
            &&& after.settings == m.settings
            &&& after.leader_id == m.leader_id
            &&& after.members() == m.members()
            &&& after.files.hard_state == m.files.hard_state
            &&& after.files.last_index() == m.files.last_index()
            &&& after.files.last_term() == m.files.last_term()
            &&& m.writes.is_prefix_of(after.writes)
            &&& m.effects.is_prefix_of(after.effects)
        }),
{
    let leader = m.role->Leader_0;
    let index = m.quorum_index(leader);
    if m.members().len() > 0 && index > m.commit_index && m.files.term_at(index as int) == Some(
        m.term(),
    ) {
        let moved = NodeModel { commit_index: index, ..m };
        commit_to_settles(m, index);
        super::upkeep::apply_backlog_keeps(moved);
        let applied = moved.apply_backlog();
        resolve_pending_keeps(applied);
        let told = applied.resolve_pending();
        resolve_reads_keeps(told);
        let served = told.resolve_reads();
        maybe_compact_keeps(served);
        assert(served.files == m.files);
        let captured = served.maybe_capture();
        if let Some(capture) = captured.captured {
            super::durability::compaction_keeps_the_answers(
                captured.files,
                capture.index,
                capture.state,
            );
        }
        let after = served.maybe_compact();
        assert(after.writes.len() >= m.writes.len());
        assert(m.writes =~= after.writes.take(m.writes.len() as int));
        assert(m.effects =~= after.effects.take(m.effects.len() as int));
    }
}

/// Granting reads takes back no message.
pub proof fn resolving_reads_keeps_what_is_sent<S: StateMachine>(
    m: NodeModel<S>,
    to: NodeId,
    wanted: spec_fn(RequestModel<S::State>) -> bool,
)
    requires
        sent_to(m.effects, to, wanted),
    ensures
        sent_to(m.resolve_reads().effects, to, wanted),
{
    if let RoleModel::Leader(leader) = m.role {
        let granted = leader.pending_reads.filter(
            |read: PendingRead| m.servable(leader.acked_seq, read),
        ).map_values(|read: PendingRead| EffectModel::<S::State>::GrantRead { ticket: read.ticket });
        lemma_sent_stays(m.effects, granted, to, wanted);
    }
}

/// Votes of more than half of the members, the candidate's own counted in, win
/// the election: the candidate leads the term that it stood for, with a no-op
/// of that term at the end of its log, and every other member hears of it.
pub proof fn a_majority_of_votes_wins<S: StateMachine>(
    m: NodeModel<S>,
    votes: Set<NodeId>,
    from: NodeId,
    reply: RequestVoteReply,
    now: u64,
    some: Set<NodeId>,
)
    requires
        m.settled(),
        m.room(now),
        m.role == (RoleModel::Candidate { votes }),
        reply.vote_granted,
        reply.term <= m.files.hard_state.current_term,
        outvotes(some, m.members()),
        forall|x: NodeId| #[trigger] some.contains(x) ==> votes.contains(x) || x == from,
        m.members().contains(m.settings.id),
        m.settings.election_timeout_max > 0,
    ensures
        ({
            let term = m.files.hard_state.current_term;
            let after = m.step(
                NodeEvent::Reply {
                    from,
                    tag: ReplyTag::Vote { sent_term: term },
                    result: Ok(RpcResponse::RequestVote(reply)),
                },
                now,
            );
            &&& after.role is Leader
            &&& after.files.hard_state == m.files.hard_state
            &&& after.leader_id == Some(m.settings.id)
            &&& after.files.last_index() == m.files.last_index() + 1
            &&& after.files.last_term() == term
            &&& after.role->Leader_0.term_start_index == m.files.last_index() + 1
            &&& starts_even(after.role->Leader_0, m.members(), m.settings.id, m.files.last_index())
            &&& after.writes.len() > m.writes.len()
            &&& after.writes[m.writes.len() as int] == WriteModel::<S::State>::AppendLog(
                seq![
                    LogEntry {
                        term,
                        index: (m.files.last_index() + 1) as u64,
                        command: Command::Noop,
                    },
                ],
            )
            &&& forall|id: NodeId|
                m.members().contains(id) && id != m.settings.id ==> #[trigger] sent_to(
                    after.effects,
                    id,
                    replicates(m.settings.id, term),
                )
        }),
{
    let won = votes.insert(from);
    let counted = NodeModel { role: RoleModel::Candidate { votes: won }, ..m };
    more_than_half_are_enough(counted, |x: NodeId| won.contains(x), some);
    assert(counted.settled());
    lemma_takes_over(counted, now);
}

/// The only member of a configuration needs nobody: its timer makes it leader
/// of the next term at once.
pub proof fn a_sole_member_leads<S: StateMachine>(m: NodeModel<S>, now: u64)
    requires
        m.settled(),
        m.room(now),
        !(m.role is Leader),
        m.members() == seq![m.settings.id],
        m.settings.election_timeout_max > 0,
    ensures
        m.step(NodeEvent::Timer, now).role is Leader,
        m.step(NodeEvent::Timer, now).files.hard_state == (HardState {
            current_term: (m.files.hard_state.current_term + 1) as u64,
            voted_for: Some(m.settings.id),
        }),
        m.step(NodeEvent::Timer, now).files.last_index() == m.files.last_index() + 1,
{
    let own = Set::<NodeId>::empty().insert(m.settings.id);
    assert(own.len() == 1);
    assert(m.members()[0] == m.settings.id);
    let asked = m.pre_campaign(now);
    more_than_half_are_enough(asked, |x: NodeId| own.contains(x), own);
    candidacy_keeps(asked, now);
    let stood = asked.candidacy(now);
    assert(stood.members() == m.members());
    more_than_half_are_enough(stood, |x: NodeId| own.contains(x), own);
    lemma_takes_over(stood, now);
}

// ---- commitment ----

/// What a leader's log and bookkeeping are like: terms never fall along the
/// log and end at the leader's own or below it, and nobody is known to hold
/// more than there is.
pub open spec fn leads_in_order<S: StateMachine>(m: NodeModel<S>, leader: LeaderModel) -> bool {
    let log = m.files.log;
    &&& forall|i: int, j: int|
        #![trigger log[i], log[j]]
        0 <= i <= j < log.len() ==> log[i].term <= log[j].term
    &&& forall|i: int|
        #![trigger log[i]]
        0 <= i < log.len() ==> log[i].term <= m.files.hard_state.current_term
    &&& forall|id: NodeId| #[trigger]
        leader.match_index.contains_key(id) ==> leader.match_index[id] <= m.files.last_index()
}

/// Whether the log holds an entry of the node's own term at `index`.
pub open spec fn has_own_entry<S: StateMachine>(m: NodeModel<S>, index: LogIndex) -> bool {
    exists|i: int|
        #![trigger m.files.log[i]]
        0 <= i < m.files.log.len() && m.files.log[i].index == index && m.files.log[i].term
            == m.files.hard_state.current_term
}

proof fn lemma_map_filter<A, B>(s: Seq<A>, f: spec_fn(A) -> B, p: spec_fn(B) -> bool)
    ensures
        s.map_values(f).filter(p).len() == s.filter(|x: A| p(f(x))).len(),
    decreases s.len(),
{
    reveal(Seq::filter);
    if s.len() > 0 {
        let init = s.drop_last();
        lemma_map_filter(init, f, p);
        assert(s.map_values(f).drop_last() =~= init.map_values(f));
        assert(s.map_values(f).last() == f(s.last()));
    }
}

/// An index that more than half of the members reach is reached by the commit
/// point.
pub proof fn a_majority_reaches<S: StateMachine>(
    m: NodeModel<S>,
    leader: LeaderModel,
    now: u64,
    index: LogIndex,
    some: Set<NodeId>,
)
    requires
        m.inv(),
        m.role == RoleModel::Leader(leader),
        leads_in_order(m, leader),
        m.commit_index < index,
        has_own_entry(m, index),
        outvotes(some, m.members()),
        forall|x: NodeId| #[trigger] some.contains(x) ==> x == m.settings.id || (
        leader.match_index.contains_key(x) && leader.match_index[x] >= index),
    ensures
        m.maybe_advance_commit(now).commit_index >= index,
        m.commit_index < m.quorum_index(leader) <= m.files.last_index(),
        index <= m.quorum_index(leader),
        m.maybe_advance_commit(now) == m.commit_to(m.quorum_index(leader)).retire(now),
{
    let values = m.replicated(leader);
    let f = |id: NodeId|
        if id == m.settings.id {
            m.files.last_index() as u64
        } else {
            lookup(leader.match_index, id, 0)
        };
    let at = choose|i: int|
        #![trigger m.files.log[i]]
        0 <= i < m.files.log.len() && m.files.log[i].index == index && m.files.log[i].term
            == m.files.hard_state.current_term;
    let p = |v: u64| v >= index;
    lemma_map_filter(m.members(), f, p);
    let test = |x: NodeId| p(f(x));
    lemma_filter_counts(m.members(), test, some);
    assert(reaching(values, index) >= m.majority());
    assert(m.members().len() > 0) by {
        if m.members().len() == 0 {
            assert(values.filter(p).len() == 0) by {
                reveal(Seq::filter);
            }
        }
    }
    quorum_exists(values, m.majority());
    let high = m.quorum_index(leader);
    assert(is_quorum_index(values, m.majority(), high));
    assert(high >= index);
    assert(high <= m.files.last_index()) by {
        let above = |v: u64| v >= high;
        assert(values.filter(above).len() > 0);
        super::upkeep::filter_keeps(values, above);
        let v = values.filter(above)[0];
        assert(above(v) && values.contains(v));
        let k = choose|k: int| 0 <= k < values.len() && values[k] == v;
        assert(values[k] == f(m.members()[k]));
    }
    let there = high - m.files.snapshot_index() - 1;
    assert(m.files.log[at].term <= m.files.log[there].term);
    assert(m.files.term_at(high as int) == Some(m.term()));
    commit_to_settles(m, high);
}

/// An acknowledgement that completes a majority commits: once more than half
/// of the members are known to hold the leader's log through an entry of the
/// leader's own term (the leader by its own log, whoever just answered by what
/// it was sent, the others by what they answered before), the entry is
/// committed and applied.
pub proof fn what_a_majority_holds_is_committed<S: StateMachine>(
    m: NodeModel<S>,
    leader: LeaderModel,
    from: NodeId,
    prev: LogIndex,
    count: u64,
    seq: u64,
    reply: AppendEntriesReply,
    now: u64,
    index: LogIndex,
    some: Set<NodeId>,
)
    requires
        m.settled(),
        m.role == RoleModel::Leader(leader),
        leads_in_order(m, leader),
        m.admits(
            NodeEvent::Reply {
                from,
                tag: ReplyTag::Append {
                    sent_term: m.files.hard_state.current_term,
                    sent_prev_index: prev,
                    sent_entries: count,
                    sent_seq: seq,
                },
                result: Ok(RpcResponse::AppendEntries(reply)),
            },
            now,
        ),
        reply.success,
        reply.term <= m.files.hard_state.current_term,
        has_own_entry(m, index),
        outvotes(some, m.members()),
        forall|x: NodeId| #[trigger] some.contains(x) ==> {
            ||| x == m.settings.id
            ||| x == from && prev + count >= index
            ||| leader.match_index.contains_key(x) && leader.match_index[x] >= index
        },
    ensures
        ({
            let after = m.step(
                NodeEvent::Reply {
                    from,
                    tag: ReplyTag::Append {
                        sent_term: m.files.hard_state.current_term,
                        sent_prev_index: prev,
                        sent_entries: count,
                        sent_seq: seq,
                    },
                    result: Ok(RpcResponse::AppendEntries(reply)),
                },
                now,
            );
            after.commit_index >= index && after.last_applied >= index
        }),
{
    let heard = NodeModel::<S>::acknowledge(leader, from, seq, now);
    let confirmed = (prev + count) as u64;
    let next = if confirmed > lookup(heard.match_index, from, 0) {
        LeaderModel {
            match_index: heard.match_index.insert(from, confirmed),
            next_index: heard.next_index.insert(from, (confirmed + 1) as u64),
            ..heard
        }
    } else {
        LeaderModel {
            match_index: heard.match_index.insert(from, lookup(heard.match_index, from, 0)),
            ..heard
        }
    };
    let held = m.with_leader(next);
    assert(held.inv());
    assert(leads_in_order(held, next));
    maybe_advance_commit_keeps(held, now);
    if index > m.commit_index {
        assert(has_own_entry(held, index));
        a_majority_reaches(held, next, now, index, some);
    }
    let moved = held.maybe_advance_commit(now);
    assert(moved.send_append(from).commit_index == moved.commit_index);
    super::upkeep::on_reply_keeps(
        m,
        from,
        ReplyTag::Append {
            sent_term: m.files.hard_state.current_term,
            sent_prev_index: prev,
            sent_entries: count,
            sent_seq: seq,
        },
        Ok(RpcResponse::AppendEntries(reply)),
        now,
    );
}

/// The same for whoever took the leader's snapshot over: it holds everything
/// through the boundary.
pub proof fn an_installed_snapshot_counts_for_commitment<S: StateMachine>(
    m: NodeModel<S>,
    leader: LeaderModel,
    from: NodeId,
    boundary: LogIndex,
    reply: super::rpc::InstallSnapshotReply,
    now: u64,
    index: LogIndex,
    some: Set<NodeId>,
)
    requires
        m.settled(),
        m.role == RoleModel::Leader(leader),
        leads_in_order(m, leader),
        m.files.last_index() + 2 < u64::MAX,
        boundary <= m.files.last_index(),
        reply.term <= m.files.hard_state.current_term,
        has_own_entry(m, index),
        outvotes(some, m.members()),
        forall|x: NodeId| #[trigger] some.contains(x) ==> {
            ||| x == m.settings.id
            ||| x == from && boundary >= index
            ||| leader.match_index.contains_key(x) && leader.match_index[x] >= index
        },
    ensures
        m.step(
            NodeEvent::Reply {
                from,
                tag: ReplyTag::InstallSnapshot {
                    sent_term: m.files.hard_state.current_term,
                    last_included_index: boundary,
                },
                result: Ok(RpcResponse::InstallSnapshot(reply)),
            },
            now,
        ).commit_index >= index,
{
    let next = LeaderModel {
        last_contact: leader.last_contact.insert(from, now),
        match_index: leader.match_index.insert(
            from,
            super::model::larger(lookup(leader.match_index, from, 0), boundary),
        ),
        next_index: leader.next_index.insert(
            from,
            super::model::larger(lookup(leader.next_index, from, 1), (boundary + 1) as u64),
        ),
        ..leader
    };
    let held = m.with_leader(next);
    assert(held.inv());
    maybe_advance_commit_keeps(held, now);
    if index > m.commit_index {
        assert(has_own_entry(held, index));
        a_majority_reaches(held, next, now, index, some);
    }
}

/// A write that a leader accepts is the last entry of its log, of its own term
/// and right behind what was there; what was there stays; the answer names it;
/// every other member of the configuration that then holds is sent it or what
/// it needs before it; and the leader's only other member being itself, it is
/// committed at once. Anything but a configuration change is always accepted.
pub proof fn an_accepted_write_is_in_the_log_and_on_its_way<S: StateMachine>(
    m: NodeModel<S>,
    leader: LeaderModel,
    command: Command,
    ticket: u64,
    now: u64,
)
    requires
        m.settled(),
        m.role == RoleModel::Leader(leader),
        leads_in_order(m, leader),
        m.room(now),
        m.on_propose(command, ticket, now).1 is Ok || !(command is ConfigChange),
    ensures
        ({
            let (after, answer) = m.on_propose(command, ticket, now);
            let entry = LogEntry {
                term: m.files.hard_state.current_term,
                index: (m.files.last_index() + 1) as u64,
                command,
            };
            &&& answer == Ok::<Proposal, super::model::ProposeError>(
                Proposal { term: entry.term, index: entry.index },
            )
            &&& after.files.last_index() == m.files.last_index() + 1
            &&& after.files.last_term() == entry.term
            &&& after.files.hard_state == m.files.hard_state
            &&& m.writes.len() < after.writes.len()
            &&& m.writes.is_prefix_of(after.writes)
            &&& after.writes[m.writes.len() as int] == WriteModel::<S::State>::AppendLog(seq![entry])
            &&& after.members().contains(m.settings.id) ==> {
                &&& after.role is Leader
                &&& forall|id: NodeId|
                    after.members().contains(id) && id != m.settings.id ==> #[trigger] sent_to(
                        after.effects,
                        id,
                        replicates(m.settings.id, entry.term),
                    )
            }
            &&& after.members() == seq![m.settings.id] ==> after.commit_index == entry.index
        }),
{
    let entry = LogEntry {
        term: m.files.hard_state.current_term,
        index: (m.files.last_index() + 1) as u64,
        command,
    };
    assert(m.refusal(command, now) is None);
    append_keeps(m, seq![entry]);
    let appended = m.append(seq![entry]);
    let taken = m.accept(command, ticket);
    assert(taken.inv());
    assert(taken.files.log.last() == entry);
    maybe_advance_commit_keeps(taken, now);
    let moved = taken.maybe_advance_commit(now);
    lemma_advance_keeps_the_files(taken, now);
    if taken.members().contains(m.settings.id) {
        advancing_keeps_a_member_leading(taken, now);
        assert forall|id: NodeId|
            moved.members().contains(id) && id != m.settings.id implies #[trigger] sent_to(
            moved.broadcast().effects,
            id,
            replicates(m.settings.id, entry.term),
        ) by {
            a_broadcast_reaches_every_peer(moved, id);
        }
    }
    assert(taken.writes[m.writes.len() as int] == WriteModel::<S::State>::AppendLog(seq![entry]));
    if moved.members() == seq![m.settings.id] {
        assert(moved.members()[0] == m.settings.id);
        let own = Set::<NodeId>::empty().insert(m.settings.id);
        assert(own.len() == 1);
        assert(taken.files.log[m.files.log.len() as int] == entry);
        assert(leads_in_order(taken, leader));
        a_majority_reaches(taken, leader, now, entry.index, own);
    }
}

/// Advancing the commit point keeps the configuration, the last entry and the
/// writes so far, whoever is a member.
proof fn lemma_advance_keeps_the_files<S: StateMachine>(m: NodeModel<S>, now: u64)
    requires
        m.inv(),
    ensures
        ({
            let after = m.maybe_advance_commit(now);
            &&& after.settings == m.settings
            &&& after.members() == m.members()
            &&& after.files.hard_state == m.files.hard_state
            &&& after.files.last_index() == m.files.last_index()
            &&& after.files.last_term() == m.files.last_term()
            &&& m.writes.is_prefix_of(after.writes)
            &&& m.effects.is_prefix_of(after.effects)
        }),
{
    if let RoleModel::Leader(leader) = m.role {
        let index = m.quorum_index(leader);
        if m.members().len() > 0 && index > m.commit_index && m.files.term_at(index as int) == Some(
            m.term(),
        ) {
            let moved = NodeModel { commit_index: index, ..m };
            commit_to_settles(m, index);
            super::upkeep::apply_backlog_keeps(moved);
            let applied = moved.apply_backlog();
            resolve_pending_keeps(applied);
            let told = applied.resolve_pending();
            resolve_reads_keeps(told);
            let served = told.resolve_reads();
            maybe_compact_keeps(served);
            let captured = served.maybe_capture();
            if let Some(capture) = captured.captured {
                super::durability::compaction_keeps_the_answers(
                    captured.files,
                    capture.index,
                    capture.state,
                );
            }
            let after = served.maybe_compact();
            assert(m.writes =~= after.writes.take(m.writes.len() as int));
            assert(m.effects =~= after.effects.take(m.effects.len() as int));
            let gone = after.retire(now);
            assert(m.effects =~= gone.effects.take(m.effects.len() as int));
        }
    }
}

/// A vote that makes no majority is counted and changes nothing else; a vote
/// that is denied changes nothing at all. Votes of others than members count
/// for nothing.
pub proof fn a_vote_is_counted_once<S: StateMachine>(
    m: NodeModel<S>,
    votes: Set<NodeId>,
    from: NodeId,
    reply: RequestVoteReply,
    now: u64,
    counting: Set<NodeId>,
)
    requires
        m.role == (RoleModel::Candidate { votes }),
        reply.term <= m.files.hard_state.current_term,
        m.members().no_duplicates(),
        counting.finite(),
        forall|x: NodeId| #[trigger]
            m.members().contains(x) && (votes.contains(x) || x == from) ==> counting.contains(x),
        2 * counting.len() <= m.members().len(),
    ensures
        m.step(
            NodeEvent::Reply {
                from,
                tag: ReplyTag::Vote { sent_term: m.files.hard_state.current_term },
                result: Ok(RpcResponse::RequestVote(reply)),
            },
            now,
        ) == if reply.vote_granted {
            NodeModel { role: RoleModel::Candidate { votes: votes.insert(from) }, ..m }
        } else {
            m
        },
{
    let won = votes.insert(from);
    no_more_than_may_pass(m.members(), |x: NodeId| won.contains(x), counting);
}

/// The same for pre-votes.
pub proof fn a_pre_vote_is_counted_once<S: StateMachine>(
    m: NodeModel<S>,
    votes: Set<NodeId>,
    from: NodeId,
    reply: RequestVoteReply,
    now: u64,
    counting: Set<NodeId>,
)
    requires
        m.role == (RoleModel::PreCandidate { votes }),
        m.files.hard_state.current_term < u64::MAX,
        reply.term <= m.files.hard_state.current_term,
        m.members().no_duplicates(),
        counting.finite(),
        forall|x: NodeId| #[trigger]
            m.members().contains(x) && (votes.contains(x) || x == from) ==> counting.contains(x),
        2 * counting.len() <= m.members().len(),
    ensures
        m.step(
            NodeEvent::Reply {
                from,
                tag: ReplyTag::PreVote {
                    sent_term: (m.files.hard_state.current_term + 1) as u64,
                },
                result: Ok(RpcResponse::PreVote(reply)),
            },
            now,
        ) == if reply.vote_granted {
            NodeModel { role: RoleModel::PreCandidate { votes: votes.insert(from) }, ..m }
        } else {
            m
        },
{
    let won = votes.insert(from);
    no_more_than_may_pass(m.members(), |x: NodeId| won.contains(x), counting);
}

} // verus!
