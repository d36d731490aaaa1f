//! What stands behind a granted read: it was registered by this leader, a
//! majority has acknowledged the leader since, and the state has caught up.

use vstd::prelude::*;

use super::chunks::reached;
use super::machine::StateMachine;
use super::model::{
    larger, lookup, smaller, EffectModel, LeaderModel, NodeEvent, NodeModel, PendingProposal,
    PendingRead, ReplyTag, RoleModel,
};
use super::rpc::{InstallModel, RequestModel, RpcResponse};
use super::transport::TransportError;
use super::types::{LogIndex, NodeId, Term};
use super::upkeep::{apply_committed_settles, commit_to_settles, filter_keeps, maybe_compact_keeps};

verus! {

/// Whether the leader `m` has, with this event, an acknowledgement by `id` of
/// its leadership as of `seq`.
pub open spec fn confirms<S: StateMachine>(
    m: NodeModel<S>,
    event: NodeEvent<S::State>,
    seq: u64,
    id: NodeId,
) -> bool {
    ||| id == m.settings.id
    ||| m.role matches RoleModel::Leader(leader) && leader.acked_seq.contains_key(id)
        && leader.acked_seq[id] >= seq
    ||| event matches NodeEvent::Reply {
        from,
        tag: ReplyTag::Append { sent_term, sent_seq, .. },
        result: Ok(RpcResponse::AppendEntries(reply)),
    } && from == id && sent_term == m.term() && sent_seq >= seq && reply.term <= m.term()
}

/// Whether the leader `m` has registered `read`, with this event at the
/// latest.
pub open spec fn registered<S: StateMachine>(
    m: NodeModel<S>,
    event: NodeEvent<S::State>,
    read: PendingRead,
) -> bool {
    m.role matches RoleModel::Leader(leader) && {
        ||| leader.pending_reads.contains(read)
        ||| event matches NodeEvent::Read { ticket } && read == (PendingRead {
            needed_seq: (leader.heartbeat_seq + 1) as u64,
            read_index: larger(m.commit_index, leader.term_start_index),
            ticket,
        })
    }
}

/// What granting the read `ticket` takes.
pub open spec fn earned<S: StateMachine>(
    m: NodeModel<S>,
    event: NodeEvent<S::State>,
    after: NodeModel<S>,
    ticket: u64,
) -> bool {
    exists|read: PendingRead| #[trigger]
        registered(m, event, read) && read.ticket == ticket && after.last_applied >= read.read_index
            && after.majority_of(|id: NodeId| confirms(m, event, read.needed_seq, id))
}

/// Every read granted so far was earned.
spec fn accounted<S: StateMachine>(m: NodeModel<S>, event: NodeEvent<S::State>, x: NodeModel<S>) -> bool {
    forall|i: int|
        #![trigger x.effects[i]]
        0 <= i < x.effects.len() ==> match x.effects[i] {
            EffectModel::GrantRead { ticket } => earned(m, event, x, ticket),
            _ => true,
        }
}

/// A leader's reads and acknowledgements are those of `m` and of this event.
spec fn reads_known<S: StateMachine>(m: NodeModel<S>, event: NodeEvent<S::State>, x: NodeModel<S>) -> bool {
    &&& x.settings == m.settings
    &&& match x.role {
        RoleModel::Leader(leader) => {
            &&& forall|i: int|
                #![trigger leader.pending_reads[i]]
                0 <= i < leader.pending_reads.len() ==> registered(m, event, leader.pending_reads[i])
            &&& forall|id: NodeId, seq: u64| #[trigger]
                x.acked(leader.acked_seq, seq, id) ==> confirms(m, event, seq, id)
        },
        _ => true,
    }
}

spec fn grants_nothing<D>(effects: Seq<EffectModel<D>>) -> bool {
    forall|i: int| #![trigger effects[i]] 0 <= i < effects.len() ==> !(effects[i] is GrantRead)
}

/// A laxer test lets no fewer through.
proof fn filter_grows<A>(s: Seq<A>, p: spec_fn(A) -> bool, q: spec_fn(A) -> bool)
    requires
        forall|a: A| #[trigger] p(a) ==> q(a),
    ensures
        s.filter(p).len() <= s.filter(q).len(),
    decreases s.len(),
{
    reveal(Seq::filter);
    if s.len() > 0 {
        filter_grows(s.drop_last(), p, q);
    }
}

/// What was earned stays earned while the configuration stands.
proof fn earned_stays<S: StateMachine>(
    m: NodeModel<S>,
    event: NodeEvent<S::State>,
    x: NodeModel<S>,
    y: NodeModel<S>,
    ticket: u64,
)
    requires
        earned(m, event, x, ticket),
        y.members() == x.members(),
        y.last_applied >= x.last_applied,
    ensures
        earned(m, event, y, ticket),
{
    let read = choose|read: PendingRead| #[trigger]
        registered(m, event, read) && read.ticket == ticket && x.last_applied >= read.read_index
            && x.majority_of(|id: NodeId| confirms(m, event, read.needed_seq, id));
    assert(y.majority_of(|id: NodeId| confirms(m, event, read.needed_seq, id)));
}

/// Effects that grant nothing need nothing.
proof fn more_accounted<S: StateMachine>(
    m: NodeModel<S>,
    event: NodeEvent<S::State>,
    x: NodeModel<S>,
    y: NodeModel<S>,
    more: Seq<EffectModel<S::State>>,
)
    requires
        accounted(m, event, x),
        y.members() == x.members(),
        y.last_applied >= x.last_applied,
        y.effects == x.effects + more,
        grants_nothing(more),
    ensures
        accounted(m, event, y),
{
    assert forall|i: int| #![trigger y.effects[i]] 0 <= i < y.effects.len() implies match y.effects[i] {
        EffectModel::GrantRead { ticket } => earned(m, event, y, ticket),
        _ => true,
    } by {
        if i < x.effects.len() {
            assert(y.effects[i] == x.effects[i]);
            if let EffectModel::GrantRead { ticket } = x.effects[i] {
                earned_stays(m, event, x, y, ticket);
            }
        } else {
            assert(y.effects[i] == more[i - x.effects.len()]);
        }
    }
}

/// As many effects as before.
proof fn same_accounted<S: StateMachine>(
    m: NodeModel<S>,
    event: NodeEvent<S::State>,
    x: NodeModel<S>,
    y: NodeModel<S>,
)
    requires
        accounted(m, event, x),
        y.members() == x.members(),
        y.last_applied >= x.last_applied,
        y.effects == x.effects,
    ensures
        accounted(m, event, y),
{
    assert(y.effects =~= x.effects + Seq::empty());
    more_accounted(m, event, x, y, Seq::empty());
}

proof fn resolve_reads_accounted<S: StateMachine>(
    m: NodeModel<S>,
    event: NodeEvent<S::State>,
    x: NodeModel<S>,
)
    requires
        accounted(m, event, x),
        reads_known(m, event, x),
    ensures
        accounted(m, event, x.resolve_reads()),
        reads_known(m, event, x.resolve_reads()),
{
    if let RoleModel::Leader(leader) = x.role {
        let y = x.resolve_reads();
        let servable = |read: PendingRead| x.servable(leader.acked_seq, read);
        let left = |read: PendingRead| !x.servable(leader.acked_seq, read);
        let reads = leader.pending_reads.filter(servable);
        let grants = reads.map_values(
            |read: PendingRead| EffectModel::<S::State>::GrantRead { ticket: read.ticket },
        );
        filter_keeps(leader.pending_reads, servable);
        filter_keeps(leader.pending_reads, left);
        assert(y.effects == x.effects + grants);
        assert forall|i: int| #![trigger y.effects[i]]
            0 <= i < y.effects.len() implies match y.effects[i] {
            EffectModel::GrantRead { ticket } => earned(m, event, y, ticket),
            _ => true,
        } by {
            if i < x.effects.len() {
                assert(y.effects[i] == x.effects[i]);
                if let EffectModel::GrantRead { ticket } = x.effects[i] {
                    earned_stays(m, event, x, y, ticket);
                }
            } else {
                let read = reads[i - x.effects.len()];
                assert(servable(read));
                assert(leader.pending_reads.contains(read));
                let k = choose|k: int|
                    0 <= k < leader.pending_reads.len() && leader.pending_reads[k] == read;
                assert(registered(m, event, leader.pending_reads[k]));
                let p = |id: NodeId| x.acked(leader.acked_seq, read.needed_seq, id);
                let q = |id: NodeId| confirms(m, event, read.needed_seq, id);
                filter_grows(x.members(), p, q);
                assert(y.majority_of(q));
            }
        }
        let rest = leader.pending_reads.filter(left);
        assert forall|i: int| #![trigger rest[i]] 0 <= i < rest.len() implies registered(
            m,
            event,
            rest[i],
        ) by {
            assert(leader.pending_reads.contains(rest[i]));
            let k = choose|k: int|
                0 <= k < leader.pending_reads.len() && leader.pending_reads[k] == rest[i];
            assert(registered(m, event, leader.pending_reads[k]));
        }
        let after = y.role->Leader_0;
        assert forall|id: NodeId, seq: u64| #[trigger] y.acked(after.acked_seq, seq, id) implies confirms(
            m,
            event,
            seq,
            id,
        ) by {
            assert(x.acked(leader.acked_seq, seq, id));
        }
    }
}

/// A role that is unchanged, or no leader's, knows no more.
proof fn known_stays<S: StateMachine>(
    m: NodeModel<S>,
    event: NodeEvent<S::State>,
    x: NodeModel<S>,
    y: NodeModel<S>,
)
    requires
        reads_known(m, event, x),
        y.settings == x.settings,
        y.role == x.role || !y.is_leader(),
    ensures
        reads_known(m, event, y),
{
    if let RoleModel::Leader(leader) = y.role {
        assert forall|id: NodeId, seq: u64| #[trigger] y.acked(leader.acked_seq, seq, id) implies confirms(
            m,
            event,
            seq,
            id,
        ) by {
            assert(x.acked(leader.acked_seq, seq, id));
        }
    }
}

proof fn resolve_pending_accounted<S: StateMachine>(
    m: NodeModel<S>,
    event: NodeEvent<S::State>,
    x: NodeModel<S>,
)
    requires
        accounted(m, event, x),
    ensures
        accounted(m, event, x.resolve_pending()),
{
    let verdicts = x.pending.filter(|p: PendingProposal| x.decided(p)).map_values(
        |p: PendingProposal| x.verdict(p),
    );
    more_accounted(m, event, x, x.resolve_pending(), verdicts);
}

proof fn commit_to_accounted<S: StateMachine>(
    m: NodeModel<S>,
    event: NodeEvent<S::State>,
    x: NodeModel<S>,
    index: LogIndex,
)
    requires
        x.inv(),
        x.commit_index <= index <= x.files.last_index(),
        accounted(m, event, x),
        reads_known(m, event, x),
    ensures
        accounted(m, event, x.commit_to(index)),
        reads_known(m, event, x.commit_to(index)),
{
    commit_to_settles(x, index);
    let a = NodeModel { commit_index: index, ..x };
    apply_committed_settles(a);
    let b = a.apply_backlog();
    let c = b.resolve_pending();
    let d = c.resolve_reads();
    same_accounted(m, event, x, b);
    resolve_pending_accounted(m, event, b);
    known_stays(m, event, x, c);
    resolve_reads_accounted(m, event, c);
    let e = d.maybe_compact();
    maybe_compact_keeps(d);
    same_accounted(m, event, d, e);
    known_stays(m, event, d, e);
}

proof fn become_follower_accounted<S: StateMachine>(
    m: NodeModel<S>,
    event: NodeEvent<S::State>,
    x: NodeModel<S>,
    term: Term,
    leader_id: Option<NodeId>,
    now: u64,
)
    requires
        accounted(m, event, x),
        reads_known(m, event, x),
    ensures
        accounted(m, event, x.become_follower(term, leader_id, now)),
        reads_known(m, event, x.become_follower(term, leader_id, now)),
{
    let y = x.become_follower(term, leader_id, now);
    assert(y.effects =~= x.effects + x.dropped_reads());
    more_accounted(m, event, x, y, x.dropped_reads());
}

proof fn maybe_advance_commit_accounted<S: StateMachine>(
    m: NodeModel<S>,
    event: NodeEvent<S::State>,
    x: NodeModel<S>,
    now: u64,
)
    requires
        x.inv(),
        accounted(m, event, x),
        reads_known(m, event, x),
    ensures
        accounted(m, event, x.maybe_advance_commit(now)),
        reads_known(m, event, x.maybe_advance_commit(now)),
{
    if let RoleModel::Leader(leader) = x.role {
        let index = x.quorum_index(leader);
        if x.members().len() > 0 && index > x.commit_index && x.files.term_at(index as int) == Some(
            x.term(),
        ) {
            commit_to_accounted(m, event, x, index);
            let done = x.commit_to(index);
            become_follower_accounted(m, event, done, done.term(), None, now);
        }
    }
}

proof fn broadcast_accounted<S: StateMachine>(
    m: NodeModel<S>,
    event: NodeEvent<S::State>,
    x: NodeModel<S>,
)
    requires
        accounted(m, event, x),
        reads_known(m, event, x),
    ensures
        accounted(m, event, x.broadcast()),
        reads_known(m, event, x.broadcast()),
{
    if let RoleModel::Leader(leader) = x.role {
        let sends = x.peers().map_values(|peer: NodeId| x.replication(leader, peer));
        more_accounted(m, event, x, x.broadcast(), sends);
        known_stays(m, event, x, x.broadcast());
    }
}

proof fn send_append_accounted<S: StateMachine>(
    m: NodeModel<S>,
    event: NodeEvent<S::State>,
    x: NodeModel<S>,
    peer: NodeId,
)
    requires
        accounted(m, event, x),
        reads_known(m, event, x),
    ensures
        accounted(m, event, x.send_append(peer)),
        reads_known(m, event, x.send_append(peer)),
{
    if x.is_leader() && x.is_peer(peer) {
        let leader = x.role->Leader_0;
        more_accounted(m, event, x, x.send_append(peer), seq![x.replication(leader, peer)]);
        known_stays(m, event, x, x.send_append(peer));
    }
}

proof fn heartbeat_accounted<S: StateMachine>(
    m: NodeModel<S>,
    event: NodeEvent<S::State>,
    x: NodeModel<S>,
    now: u64,
)
    requires
        accounted(m, event, x),
        reads_known(m, event, x),
    ensures
        accounted(m, event, x.on_heartbeat_tick(now)),
        reads_known(m, event, x.on_heartbeat_tick(now)),
{
    broadcast_accounted(m, event, x);
    become_follower_accounted(m, event, x, x.term(), None, now);
    same_accounted(m, event, x.broadcast(), x.broadcast().schedule_heartbeat(now));
    known_stays(m, event, x.broadcast(), x.broadcast().schedule_heartbeat(now));
    same_accounted(m, event, x, x.schedule_heartbeat(now));
    known_stays(m, event, x, x.schedule_heartbeat(now));
}

proof fn start_election_accounted<S: StateMachine>(
    m: NodeModel<S>,
    event: NodeEvent<S::State>,
    x: NodeModel<S>,
    now: u64,
)
    requires
        x.settled(),
        x.files.last_index() + 1 <= u64::MAX,
        x.settings == m.settings,
        grants_nothing(x.effects),
    ensures
        accounted(m, event, x.start_election(now)),
{
    let term = (x.term() + 1) as u64;
    let sends = x.peers().map_values(
        |peer: NodeId|
            EffectModel::<S::State>::Send {
                to: peer,
                request: RequestModel::RequestVote(x.ballot(term)),
                tag: ReplyTag::Vote { sent_term: term },
            },
    );
    let y = x.candidacy(now);
    super::upkeep::candidacy_keeps(x, now);
    assert(y.effects =~= x.effects + sends);
    assert(grants_nothing(y.effects)) by {
        assert forall|i: int| #![trigger y.effects[i]] 0 <= i < y.effects.len() implies !(
        y.effects[i] is GrantRead) by {
            if i < x.effects.len() {
                assert(y.effects[i] == x.effects[i]);
            } else {
                assert(y.effects[i] == sends[i - x.effects.len()]);
            }
        }
    }
    maybe_become_leader_accounted(m, event, y, now);
}

proof fn maybe_become_leader_accounted<S: StateMachine>(
    m: NodeModel<S>,
    event: NodeEvent<S::State>,
    x: NodeModel<S>,
    now: u64,
)
    requires
        x.settled(),
        x.files.last_index() + 1 <= u64::MAX,
        x.settings == m.settings,
        grants_nothing(x.effects),
        !x.is_leader(),
    ensures
        accounted(m, event, x.maybe_become_leader(now)),
{
    if let RoleModel::Candidate { votes } = x.role {
        super::upkeep::become_leader_keeps(x, now);
        let bare = NodeModel {
            role: RoleModel::Leader(x.fresh_leader(now)),
            leader_id: Some(x.settings.id),
            ..x
        };
        let held = bare.append(seq![x.noop()]);
        assert(accounted(m, event, held));
        assert(reads_known(m, event, held));
        maybe_advance_commit_accounted(m, event, held, now);
        heartbeat_accounted(m, event, held.maybe_advance_commit(now), now);
    }
}

proof fn timer_accounted<S: StateMachine>(m: NodeModel<S>, event: NodeEvent<S::State>, now: u64)
    requires
        m.settled(),
        m.files.last_index() + 1 <= u64::MAX,
        m.effects.len() == 0,
        accounted(m, event, m),
        reads_known(m, event, m),
    ensures
        accounted(m, event, m.on_timer(now)),
{
    if m.is_leader() {
        heartbeat_accounted(m, event, m, now);
    } else if m.is_member() {
        let x = m.pre_campaign(now);
        super::upkeep::on_election_timeout_keeps(m, now);
        let prospective = (m.term() + 1) as u64;
        let sends = m.peers().map_values(
            |peer: NodeId|
                EffectModel::<S::State>::Send {
                    to: peer,
                    request: RequestModel::PreVote(m.ballot(prospective)),
                    tag: ReplyTag::PreVote { sent_term: prospective },
                },
        );
        assert(x.effects =~= sends);
        start_election_accounted(m, event, x, now);
    }
}

proof fn with_leader_accounted<S: StateMachine>(
    m: NodeModel<S>,
    event: NodeEvent<S::State>,
    leader: LeaderModel,
    leader2: LeaderModel,
)
    requires
        m.role == RoleModel::Leader(leader),
        accounted(m, event, m),
        leader2.pending_reads == leader.pending_reads,
        forall|id: NodeId, seq: u64| #[trigger]
            m.acked(leader2.acked_seq, seq, id) ==> confirms(m, event, seq, id),
    ensures
        accounted(m, event, m.with_leader(leader2)),
        reads_known(m, event, m.with_leader(leader2)),
{
    let x = m.with_leader(leader2);
    same_accounted(m, event, m, x);
    assert forall|id: NodeId, seq: u64| #[trigger] x.acked(leader2.acked_seq, seq, id) implies confirms(
        m,
        event,
        seq,
        id,
    ) by {
        assert(m.acked(leader2.acked_seq, seq, id));
    }
    assert forall|i: int|
        #![trigger leader2.pending_reads[i]]
        0 <= i < leader2.pending_reads.len() implies registered(m, event, leader2.pending_reads[i]) by {
        assert(leader.pending_reads.contains(leader.pending_reads[i]));
    }
}

#[verifier::rlimit(30)]
proof fn append_reply_accounted<S: StateMachine>(
    m: NodeModel<S>,
    event: NodeEvent<S::State>,
    leader: LeaderModel,
    from: NodeId,
    sent_prev_index: LogIndex,
    sent_entries: u64,
    sent_seq: u64,
    success: bool,
    now: u64,
)
    requires
        m.settled(),
        m.files.last_index() + 1 <= u64::MAX,
        m.role == RoleModel::Leader(leader),
        accounted(m, event, m),
        sent_prev_index + sent_entries <= m.files.last_index(),
        forall|seq: u64| seq <= sent_seq ==> #[trigger] confirms(m, event, seq, from),
    ensures
        ({
            let heard = NodeModel::<S>::acknowledge(leader, from, sent_seq, now);
            if success {
                accounted(
                    m,
                    event,
                    m.on_append_accepted(
                        heard,
                        from,
                        (sent_prev_index + sent_entries) as u64,
                        now,
                    ).resolve_reads(),
                )
            } else {
                accounted(
                    m,
                    event,
                    m.on_append_rejected(heard, from, sent_prev_index).resolve_reads(),
                )
            }
        }),
{
    let heard = NodeModel::<S>::acknowledge(leader, from, sent_seq, now);
    assert forall|id: NodeId, seq: u64| #[trigger] m.acked(heard.acked_seq, seq, id) implies confirms(
        m,
        event,
        seq,
        id,
    ) by {
    }
    if success {
        let confirmed = (sent_prev_index + sent_entries) as u64;
        if confirmed > lookup(heard.match_index, from, 0) {
            let leader2 = LeaderModel {
                match_index: heard.match_index.insert(from, confirmed),
                next_index: heard.next_index.insert(from, (confirmed + 1) as u64),
                ..heard
            };
            with_leader_accounted(m, event, leader, leader2);
            let held = m.with_leader(leader2);
            maybe_advance_commit_accounted(m, event, held, now);
            let advanced = held.maybe_advance_commit(now);
            send_append_accounted(m, event, advanced, from);
            resolve_reads_accounted(m, event, advanced.send_append(from));
            resolve_reads_accounted(m, event, advanced);
        } else {
            let leader2 = LeaderModel {
                match_index: heard.match_index.insert(from, lookup(heard.match_index, from, 0)),
                ..heard
            };
            with_leader_accounted(m, event, leader, leader2);
            let held = m.with_leader(leader2);
            maybe_advance_commit_accounted(m, event, held, now);
            resolve_reads_accounted(m, event, held.maybe_advance_commit(now));
        }
    } else {
        let leader2 = LeaderModel {
            next_index: heard.next_index.insert(
                from,
                smaller(lookup(heard.next_index, from, 1), larger(sent_prev_index, 1)),
            ),
            ..heard
        };
        with_leader_accounted(m, event, leader, leader2);
        send_append_accounted(m, event, m.with_leader(leader2), from);
        resolve_reads_accounted(m, event, m.with_leader(leader2).send_append(from));
    }
}

proof fn snapshot_reply_accounted<S: StateMachine>(
    m: NodeModel<S>,
    event: NodeEvent<S::State>,
    leader: LeaderModel,
    from: NodeId,
    boundary: LogIndex,
    now: u64,
)
    requires
        m.settled(),
        m.files.last_index() + 1 <= u64::MAX,
        m.role == RoleModel::Leader(leader),
        accounted(m, event, m),
        boundary <= m.files.last_index(),
    ensures
        accounted(m, event, m.on_snapshot_installed(leader, from, boundary, now)),
{
    let leader2 = LeaderModel {
        last_contact: leader.last_contact.insert(from, now),
        match_index: leader.match_index.insert(
            from,
            larger(lookup(leader.match_index, from, 0), boundary),
        ),
        next_index: leader.next_index.insert(
            from,
            larger(lookup(leader.next_index, from, 1), (boundary + 1) as u64),
        ),
        ..leader
    };
    assert forall|id: NodeId, seq: u64| #[trigger] m.acked(leader2.acked_seq, seq, id) implies confirms(
        m,
        event,
        seq,
        id,
    ) by {
    }
    with_leader_accounted(m, event, leader, leader2);
    let held = m.with_leader(leader2);
    maybe_advance_commit_accounted(m, event, held, now);
    send_append_accounted(m, event, held.maybe_advance_commit(now), from);
}

proof fn nothing_joins<D>(a: Seq<EffectModel<D>>, b: Seq<EffectModel<D>>)
    requires
        grants_nothing(a),
        grants_nothing(b),
    ensures
        grants_nothing(a + b),
{
    let c = a + b;
    assert forall|i: int| #![trigger c[i]] 0 <= i < c.len() implies !(c[i] is GrantRead) by {
        if i < a.len() {
            assert(c[i] == a[i]);
        } else {
            assert(c[i] == b[i - a.len()]);
        }
    }
}

proof fn resolve_pending_grants_nothing<S: StateMachine>(x: NodeModel<S>)
    requires
        grants_nothing(x.effects),
    ensures
        grants_nothing(x.resolve_pending().effects),
{
    let verdicts = x.pending.filter(|p: PendingProposal| x.decided(p)).map_values(
        |p: PendingProposal| x.verdict(p),
    );
    nothing_joins(x.effects, verdicts);
}

/// A request grants no read: whoever hears a leader is none, and a vote
/// changes no state.
proof fn request_grants_nothing<S: StateMachine>(
    m: NodeModel<S>,
    request: RequestModel<S::State>,
    now: u64,
)
    requires
        m.effects.len() == 0,
    ensures
        grants_nothing(m.on_request(request, now).0.effects),
{
    assert(m.effects + m.dropped_reads() =~= m.dropped_reads());
    match request {
        RequestModel::RequestVote(args) => {},
        RequestModel::PreVote(args) => {},
        RequestModel::SnapshotChunk(args) => {
            let transfer = args.transfer;
            if transfer.term >= m.term() {
                let heard = m.hear_leader(transfer.term, transfer.leader_id, now);
                assert(grants_nothing(heard.effects));
                nothing_joins(
                    heard.effects,
                    seq![
                        EffectModel::<S::State>::Assembled {
                            transfer,
                            bytes: reached(m.incoming, args),
                        },
                    ],
                );
            }
        },
        RequestModel::AppendEntries(args) => {
            if args.term >= m.term() {
                let heard = m.hear_leader(args.term, args.leader_id, now);
                assert(grants_nothing(heard.effects));
                if heard.prev_matches(args) {
                    let merged = heard.merge(args);
                    if !heard.has_all(args.entries) {
                        let i = heard.first_new(args.entries);
                        resolve_pending_grants_nothing(
                            heard.truncate(args.entries[i].index as int),
                        );
                    }
                    assert(grants_nothing(merged.effects));
                    let commit = NodeModel::<S>::verified_commit(args);
                    let moved = NodeModel { commit_index: commit, ..merged };
                    resolve_pending_grants_nothing(moved.apply_backlog());
                }
            }
        },
        RequestModel::InstallSnapshot(args) => {
            if args.term >= m.term() {
                install_grants_nothing(m, args, now);
            }
        },
    }
}

proof fn install_grants_nothing<S: StateMachine>(
    m: NodeModel<S>,
    args: InstallModel<S::State>,
    now: u64,
)
    requires
        m.effects.len() == 0,
        args.term >= m.term(),
    ensures
        grants_nothing(m.on_install_snapshot(args, now).0.effects),
{
    assert(m.effects + m.dropped_reads() =~= m.dropped_reads());
    let heard = m.hear_leader(args.term, args.leader_id, now);
    let boundary = args.snapshot.last_included_index;
    if boundary > heard.commit_index {
        let files = heard.files.installed(args.snapshot);
        let placed = NodeModel {
            files,
            writes: heard.writes.push(super::storage::WriteModel::Snapshot(args.snapshot)).push(
                super::storage::WriteModel::RewriteLog(files.log),
            ),
            state: args.snapshot.state,
            commit_index: boundary,
            last_applied: boundary,
            captured: None,
            ..heard
        };
        let drops = placed.pending.filter(|p: PendingProposal| p.index <= boundary).map_values(
            |p: PendingProposal| EffectModel::<S::State>::DropProposal { ticket: p.ticket },
        );
        nothing_joins(heard.effects, drops);
        resolve_pending_grants_nothing(placed.drop_hidden(boundary));
    }
}

#[verifier::rlimit(30)]
proof fn reply_accounted<S: StateMachine>(
    m: NodeModel<S>,
    event: NodeEvent<S::State>,
    from: NodeId,
    tag: ReplyTag,
    result: Result<RpcResponse, TransportError>,
    now: u64,
)
    requires
        m.settled(),
        m.files.last_index() + 1 <= u64::MAX,
        m.issued(tag),
        m.effects.len() == 0,
        accounted(m, event, m),
        reads_known(m, event, m),
        event == (NodeEvent::<S::State>::Reply { from, tag, result }),
    ensures
        accounted(m, event, m.on_reply(from, tag, result, now)),
{
    match (tag, result) {
        (ReplyTag::PreVote { sent_term }, Ok(RpcResponse::PreVote(reply))) => {
            become_follower_accounted(m, event, m, reply.term, None, now);
            if let RoleModel::PreCandidate { votes } = m.role {
                start_election_accounted(
                    m,
                    event,
                    NodeModel { role: RoleModel::PreCandidate { votes: votes.insert(from) }, ..m },
                    now,
                );
            }
        },
        (ReplyTag::Vote { sent_term }, Ok(RpcResponse::RequestVote(reply))) => {
            become_follower_accounted(m, event, m, reply.term, None, now);
            if let RoleModel::Candidate { votes } = m.role {
                maybe_become_leader_accounted(
                    m,
                    event,
                    NodeModel { role: RoleModel::Candidate { votes: votes.insert(from) }, ..m },
                    now,
                );
            }
        },
        (
            ReplyTag::Append { sent_term, sent_prev_index, sent_entries, sent_seq },
            Ok(RpcResponse::AppendEntries(reply)),
        ) => {
            become_follower_accounted(m, event, m, reply.term, None, now);
            if reply.term <= m.term() && sent_term == m.term() {
                if let RoleModel::Leader(leader) = m.role {
                    assert forall|seq: u64| seq <= sent_seq implies #[trigger] confirms(
                        m,
                        event,
                        seq,
                        from,
                    ) by {
                    }
                    append_reply_accounted(
                        m,
                        event,
                        leader,
                        from,
                        sent_prev_index,
                        sent_entries,
                        sent_seq,
                        reply.success,
                        now,
                    );
                }
            }
        },
        (
            ReplyTag::InstallSnapshot { sent_term, last_included_index },
            Ok(RpcResponse::InstallSnapshot(reply)),
        ) => {
            become_follower_accounted(m, event, m, reply.term, None, now);
            if reply.term <= m.term() && sent_term == m.term() {
                if let RoleModel::Leader(leader) = m.role {
                    snapshot_reply_accounted(m, event, leader, from, last_included_index, now);
                }
            }
        },
        (ReplyTag::SnapshotChunk { .. }, Ok(RpcResponse::SnapshotChunk(reply))) => {
            become_follower_accounted(m, event, m, reply.term, None, now);
            if let RoleModel::Leader(leader) = m.role {
                let leader2 = LeaderModel {
                    last_contact: leader.last_contact.insert(from, now),
                    ..leader
                };
                assert forall|id: NodeId, seq: u64| #[trigger]
                    m.acked(leader2.acked_seq, seq, id) implies confirms(m, event, seq, id) by {
                }
                with_leader_accounted(m, event, leader, leader2);
            }
        },
        _ => {},
    }
}

/// Granted reads are earned: whichever event lets a read through, the node
/// led and had registered it, a majority of its configuration has
/// acknowledged its leadership since, and its state reflects everything up to
/// the read's index.
#[verifier::rlimit(30)]
pub proof fn grants_are_earned<S: StateMachine>(
    m: NodeModel<S>,
    event: NodeEvent<S::State>,
    now: u64,
    ticket: u64,
)
    requires
        m.settled(),
        m.admits(event, now),
        m.effects.len() == 0,
        m.step(event, now).effects.contains(EffectModel::GrantRead { ticket }),
    ensures
        m.is_leader(),
        !(event is Request),
        earned(m, event, m.step(event, now), ticket),
{
    assert(accounted(m, event, m));
    assert(reads_known(m, event, m)) by {
        if let RoleModel::Leader(leader) = m.role {
            assert forall|i: int|
                #![trigger leader.pending_reads[i]]
                0 <= i < leader.pending_reads.len() implies registered(
                m,
                event,
                leader.pending_reads[i],
            ) by {
                assert(leader.pending_reads.contains(leader.pending_reads[i]));
            }
        }
    }
    let after = m.step(event, now);
    match event {
        NodeEvent::Propose { command, ticket } => {
            if m.refusal(command, now) is None {
                super::upkeep::on_propose_keeps(m, command, ticket, now);
                let x = m.accept(command, ticket);
                assert(accounted(m, event, x));
                known_stays(m, event, m, x);
                maybe_advance_commit_accounted(m, event, x, now);
                broadcast_accounted(m, event, x.maybe_advance_commit(now));
            }
        },
        NodeEvent::Read { ticket } => {
            if let RoleModel::Leader(leader) = m.role {
                let x = m.register_read(leader, ticket);
                let leader2 = x.role->Leader_0;
                assert forall|i: int|
                    #![trigger leader2.pending_reads[i]]
                    0 <= i < leader2.pending_reads.len() implies registered(
                    m,
                    event,
                    leader2.pending_reads[i],
                ) by {
                    if i < leader.pending_reads.len() {
                        assert(leader2.pending_reads[i] == leader.pending_reads[i]);
                    }
                }
                assert forall|id: NodeId, seq: u64| #[trigger]
                    x.acked(leader2.acked_seq, seq, id) implies confirms(m, event, seq, id) by {
                }
                assert(reads_known(m, event, x));
                same_accounted(m, event, m, x);
                broadcast_accounted(m, event, x);
                resolve_reads_accounted(m, event, x.broadcast());
            }
        },
        NodeEvent::Request(request) => {
            request_grants_nothing(m, request, now);
        },
        NodeEvent::Reply { from, tag, result } => {
            reply_accounted(m, event, from, tag, result, now);
        },
        NodeEvent::Timer => {
            timer_accounted(m, event, now);
        },
    }
    let i = choose|i: int|
        0 <= i < after.effects.len() && after.effects[i] == (EffectModel::<S::State>::GrantRead {
            ticket,
        });
    assert(after.effects[i] is GrantRead);
}

} // verus!
