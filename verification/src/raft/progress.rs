//! The steps of a cluster's history, and that each keeps the invariant that
//! agreement rests on.

use vstd::prelude::*;

use super::agreement::{
    agree_across, agree_at, agree_back, agree_less, agree_of_take, agree_self, agree_takes,
    complete, one_winner, reign_terms, sound_at, sound_take, sound_terms,
};
use super::history::{
    agree, entry_valid, last_term, latest, majority, newer, one_apart, sound, steady, Accepted, Ballot, History,
    Pulse, Reign, Replica, Stage,
};
use super::membership::config_of;
use super::types::{LogEntry, NodeId, Term};

verus! {

/// A leadership begins with no read.
pub open spec fn first_pulse() -> Pulse {
    Pulse { terms: Map::empty(), found: Map::empty(), bound: 0, ticket: 0 }
}

impl History {
    pub open spec fn with_replica(self, id: NodeId, r: Replica) -> History {
        History { replicas: self.replicas.insert(id, r), ..self }
    }

    /// `id` runs for the next term, with a vote for itself.
    pub open spec fn campaigned(self, id: NodeId) -> History {
        let r = self.replicas[id];
        let term = (r.term + 1) as u64;
        History {
            bids: self.bids.insert((id, term), r.log),
            ballots: self.ballots.insert((id, term), Ballot { candidate: id, log: r.log }),
            ..self.with_replica(
                id,
                Replica {
                    term,
                    voted_for: Some(id),
                    stage: Stage::Candidate { votes: Set::empty().insert(id) },
                    ..r
                },
            )
        }
    }

    /// `id` votes for `candidate` in its term, for the first time.
    pub open spec fn granted(self, id: NodeId, candidate: NodeId) -> History {
        let r = self.replicas[id];
        History {
            ballots: self.ballots.insert((id, r.term), Ballot { candidate, log: r.log }),
            ..self.with_replica(id, Replica { voted_for: Some(candidate), ..r })
        }
    }

    /// `id` leads its term, elected by `quorum`.
    pub open spec fn elected(self, id: NodeId, quorum: Set<NodeId>) -> History {
        let r = self.replicas[id];
        History {
            reigns: self.reigns.insert(
                r.term,
                Reign {
                    leader: id,
                    start: r.log,
                    log: r.log,
                    quorum,
                    commit: 0,
                    pulses: seq![first_pulse()],
                },
            ),
            held: self.held.insert((id, r.term), r.log.len()),
            ..self.with_replica(id, Replica { stage: Stage::Leader, ..r })
        }
    }

    /// The leader `id` appends an entry of its term.
    pub open spec fn appended(self, id: NodeId, entry: LogEntry) -> History {
        let r = self.replicas[id];
        let log = r.log.push(entry);
        History {
            reigns: self.reigns.insert(r.term, Reign { log, ..self.reigns[r.term] }),
            held: self.held.insert((id, r.term), log.len()),
            ..self.with_replica(id, Replica { log, ..r })
        }
    }

    /// The leader `id` finds its first `i` entries committed.
    pub open spec fn found_committed(self, id: NodeId, i: int) -> History {
        let r = self.replicas[id];
        History {
            reigns: self.reigns.insert(
                r.term,
                Reign { commit: i as nat, ..self.reigns[r.term] },
            ),
            ..self.with_replica(id, Replica { commit: i as nat, ..r })
        }
    }

    /// What is known now, as the leader `id` registers a read.
    pub open spec fn pulse_now(self, id: NodeId, ticket: u64) -> Pulse {
        let r = self.replicas[id];
        let begun = self.reigns[r.term].start.len() + 1;
        Pulse {
            terms: Map::new(
                |x: NodeId| self.replicas.contains_key(x),
                |x: NodeId| self.replicas[x].term,
            ),
            found: Map::new(
                |t: Term| self.reigns.contains_key(t),
                |t: Term| self.reigns[t].commit,
            ),
            bound: if r.commit >= begun {
                r.commit
            } else {
                begun
            },
            ticket,
        }
    }

    /// The leader `id` registers a read.
    pub open spec fn pulsed(self, id: NodeId, ticket: u64) -> History {
        let t = self.replicas[id].term;
        let g = self.reigns[t];
        History {
            reigns: self.reigns.insert(
                t,
                Reign { pulses: g.pulses.push(self.pulse_now(id, ticket)), ..g },
            ),
            ..self
        }
    }

    /// A follower's log once it holds the first `n` entries of its leader: as
    /// it was if it had them, else exactly those.
    pub open spec fn taken_over(self, id: NodeId, n: int) -> Seq<LogEntry> {
        let r = self.replicas[id];
        let log = self.reigns[r.term].log;
        if agree(r.log, log, n) {
            r.log
        } else {
            log.take(n)
        }
    }

    /// The follower `id` takes over the first `n` entries of its term's
    /// leader.
    pub open spec fn adopted(self, id: NodeId, n: int) -> History {
        let r = self.replicas[id];
        let most = if self.held_by(id, r.term) >= n {
            self.held_by(id, r.term)
        } else {
            n as nat
        };
        History {
            held: self.held.insert((id, r.term), most),
            ..self.with_replica(id, Replica { log: self.taken_over(id, n), ..r })
        }
    }

    /// Only what a step of `id` may touch differs.
    pub open spec fn steps_from(self, earlier: History, id: NodeId) -> bool {
        &&& self.extends(earlier)
        &&& earlier.replicas.contains_key(id)
        &&& forall|x: NodeId| x != id ==> #[trigger] self.replicas[x] == earlier.replicas[x]
        &&& self.replicas[id].term >= earlier.replicas[id].term
        &&& self.replicas[id].term == earlier.replicas[id].term && earlier.replicas[id].voted_for is Some
            ==> self.replicas[id].voted_for == earlier.replicas[id].voted_for
        &&& forall|t: Term| #[trigger]
            earlier.reigns.contains_key(t) && earlier.reigns[t].leader != id ==> self.reigns[t]
                == earlier.reigns[t]
        &&& forall|t: Term| #[trigger]
            self.reigns.contains_key(t) && !earlier.reigns.contains_key(t) ==> self.reigns[t].leader
                == id
        &&& forall|x: NodeId, t: Term|
            x != id || t != self.replicas[id].term ==> #[trigger] self.held_by(x, t)
                == earlier.held_by(x, t)
    }
}

// ---- what stays true ----

proof fn sound_stays(h: History, h2: History, log: Seq<LogEntry>)
    requires
        h2.extends(h),
        sound(h.reigns, log),
    ensures
        sound(h2.reigns, log),
{
    assert forall|k: int| #![trigger log[k]] 0 <= k < log.len() implies {
        &&& log[k].index == k + 1
        &&& entry_valid(log[k])
        &&& h2.reigns.contains_key(log[k].term)
        &&& agree(log, h2.reigns[log[k].term].log, k + 1)
    } by {
        sound_at(h.reigns, log, k);
        let t = log[k].term;
        let old_log = h.reigns[t].log;
        let new_log = h2.reigns[t].log;
        reveal(agree);
        agree_less(old_log, new_log, old_log.len() as int, k + 1);
        agree_across(log, old_log, new_log, k + 1);
    }
    reveal(sound);
}

pub proof fn committed_stays(h: History, h2: History, t: Term, i: int, q: int)
    requires
        h2.extends(h),
        h.committed(t, i, q),
    ensures
        h2.committed(t, i, q),
{
    let old_log = h.reigns[t].log;
    let new_log = h2.reigns[t].log;
    agree_less(old_log, new_log, old_log.len() as int, q);
    agree_takes(old_log, new_log, q);
    agree_at(old_log, new_log, old_log.len() as int, i - 1);
    let members = h.config(old_log.take(q));
    let x = members.intersect(h.holders(t, i));
    let y = members.intersect(h2.holders(t, i));
    assert(x.subset_of(y)) by {
        assert forall|id: NodeId| x.contains(id) implies y.contains(id) by {
            assert(h2.held_by(id, t) >= h.held_by(id, t));
        }
    }
    assert(y.subset_of(members));
    vstd::set_lib::lemma_len_subset(x, y);
}

pub proof fn final_stays(h: History, h2: History, log: Seq<LogEntry>, n: int, term: Term, term2: Term)
    requires
        h2.extends(h),
        h.final_through(log, n, term),
        term <= term2,
    ensures
        h2.final_through(log, n, term2),
{
    if n > 0 {
        let (t, i, q) = choose|t: Term, i: int, q: int| #[trigger]
            h.vouched(t, i, q) && t <= term && n <= i && agree(h.reigns[t].log, log, n);
        committed_stays(h, h2, t, i, q);
        let old_log = h.reigns[t].log;
        let new_log = h2.reigns[t].log;
        agree_less(old_log, new_log, old_log.len() as int, n);
        agree_back(old_log, new_log, n);
        agree_across(new_log, old_log, log, n);
        assert(h2.vouched(t, i, q));
    }
}

/// Whether a log has the beginning of a reign does not change with the reign.
proof fn agree_stays(h: History, h2: History, t: Term, log: Seq<LogEntry>, i: int)
    requires
        h2.extends(h),
        h.reigns.contains_key(t),
        i <= h.reigns[t].log.len(),
    ensures
        agree(h2.reigns[t].log, log, i) == agree(h.reigns[t].log, log, i),
{
    let old_log = h.reigns[t].log;
    let new_log = h2.reigns[t].log;
    agree_less(old_log, new_log, old_log.len() as int, i);
    agree_back(old_log, new_log, i);
    if agree(new_log, log, i) {
        agree_across(old_log, new_log, log, i);
    }
    if agree(old_log, log, i) {
        agree_across(new_log, old_log, log, i);
    }
}

proof fn superseded_stays(h: History, h2: History, t0: Term, i: int, t1: Term)
    requires
        h2.extends(h),
        h.reigns.contains_key(t0),
        i <= h.reigns[t0].log.len(),
        h.superseded(t0, i, t1),
    ensures
        h2.superseded(t0, i, t1),
{
    agree_stays(h, h2, t0, h.reigns[t1].start, i);
}

pub proof fn kept_stays(h: History, h2: History, id: NodeId, log: Seq<LogEntry>, low: int, top: int)
    requires
        h.inv(),
        h2.extends(h),
        h.kept(id, log, low, top),
        forall|t: Term| t <= low ==> #[trigger] h2.held_by(id, t) == h.held_by(id, t),
    ensures
        h2.kept(id, log, low, top),
{
    assert forall|t0: Term, i: int| #![trigger agree(h2.reigns[t0].log, log, i)]
        0 < i <= h2.held_by(id, t0) && t0 <= low implies {
        ||| agree(h2.reigns[t0].log, log, i)
        ||| exists|t1: Term| t0 < t1 <= top && #[trigger] h2.superseded(t0, i, t1)
    } by {
        assert(h2.held_by(id, t0) == h.held_by(id, t0));
        assert(h.held_ok(id, t0));
        agree_stays(h, h2, t0, log, i);
        if !agree(h.reigns[t0].log, log, i) {
            let t1 = choose|t1: Term| t0 < t1 <= top && #[trigger] h.superseded(t0, i, t1);
            superseded_stays(h, h2, t0, i, t1);
        }
    }
}

/// A majority's votes say the same later on.
pub proof fn won_stays(
    h: History,
    h2: History,
    n: NodeId,
    t: Term,
    start: Seq<LogEntry>,
    leader: NodeId,
    quorum: Set<NodeId>,
    late: bool,
)
    requires
        h.inv(),
        h2.steps_from(h, n),
        h.won(t, start, leader, quorum, late),
    ensures
        h2.won(t, start, leader, quorum, late),
{
    sound_stays(h, h2, start);
    assert forall|id: NodeId| #[trigger] quorum.contains(id) implies {
        &&& h2.ballots.contains_key((id, t))
        &&& h2.ballots[(id, t)].candidate == leader
        &&& newer(start, h2.ballots[(id, t)].log)
        &&& h2.kept(id, h2.ballots[(id, t)].log, t - 1, latest(t, late))
    } by {
        assert(h.ballot_ok(id, t));
        assert(h2.ballots[(id, t)] == h.ballots[(id, t)]);
        kept_stays(h, h2, id, h.ballots[(id, t)].log, t - 1, latest(t, late));
    }
}

proof fn change_stays(h: History, h2: History, t: Term, k: int)
    requires
        h2.extends(h),
        h.reigns.contains_key(t),
        0 <= k < h.reigns[t].log.len(),
        h.change_ok(t, k),
    ensures
        h2.change_ok(t, k),
{
    let g = h.reigns[t];
    let g2 = h2.reigns[t];
    agree_at(g.log, g2.log, g.log.len() as int, k);
    if config_of(g.log[k]) is Some {
        let (v, q) = choose|v: int, q: int| #[trigger]
            h.committed(t, v, q) && g.start.len() < v && q <= k && steady(g.log, v, k);
        committed_stays(h, h2, t, v, q);
        assert forall|j: int| #![trigger g2.log[j]] v <= j < k implies config_of(g2.log[j]) is None by {
            agree_at(g.log, g2.log, g.log.len() as int, j);
        }
        agree_less(g.log, g2.log, g.log.len() as int, k + 1);
        agree_takes(g.log, g2.log, k + 1);
        agree_less(g.log, g2.log, g.log.len() as int, k);
        agree_takes(g.log, g2.log, k);
        assert(h2.committed(t, v, q) && g2.start.len() < v && q <= k && steady(g2.log, v, k));
    }
}

proof fn pulse_stays(h: History, h2: History, n: NodeId, t: Term, p: Pulse)
    requires
        h2.steps_from(h, n),
        h.pulse_ok(t, p),
    ensures
        h2.pulse_ok(t, p),
{
    assert forall|id: NodeId| #[trigger] p.terms.contains_key(id) implies h2.replicas.contains_key(id)
        && p.terms[id] <= h2.replicas[id].term by {
        assert(h.replicas.contains_key(id));
        assert(h2.replicas.dom().contains(id));
        assert(id != n ==> h2.replicas[id] == h.replicas[id]);
    }
    assert forall|t: Term| #[trigger] p.found.contains_key(t) implies h2.seen_ok(p, t) by {
        assert(h.seen_ok(p, t));
        assert(h2.reigns.contains_key(t));
    }
}

/// What a reign has committed and registered, where the step leaves that
/// alone.
proof fn extras_stay(h: History, h2: History, n: NodeId, t: Term)
    requires
        h2.steps_from(h, n),
        h.reigns.contains_key(t),
        h.reign_ok(t),
        h2.reigns[t].pulses == h.reigns[t].pulses,
    ensures
        h2.reigns[t].pulses.len() >= 1,
        forall|i: int|
            0 <= i < h2.reigns[t].pulses.len() ==> #[trigger] h2.pulse_ok(t, h2.reigns[t].pulses[i]),
        h2.reigns[t].commit == h.reigns[t].commit && h2.reigns[t].commit > 0 ==> exists|q: int|
            #[trigger] h2.committed(t, h2.reigns[t].commit as int, q),
{
    let g = h.reigns[t];
    assert forall|i: int| 0 <= i < g.pulses.len() implies #[trigger] h2.pulse_ok(t, g.pulses[i]) by {
        assert(h.pulse_ok(t, g.pulses[i]));
        pulse_stays(h, h2, n, t, g.pulses[i]);
    }
    if h2.reigns[t].commit == g.commit && g.commit > 0 {
        let q = choose|q: int| #[trigger] h.committed(t, g.commit as int, q);
        committed_stays(h, h2, t, g.commit as int, q);
    }
}

/// A reign whose log the step leaves alone.
proof fn reign_stays(h: History, h2: History, n: NodeId, t: Term)
    requires
        h.inv(),
        h2.steps_from(h, n),
        h.reigns.contains_key(t),
        h2.reigns[t] == h.reigns[t],
    ensures
        h2.reign_ok(t),
{
    let g = h.reigns[t];
    assert(h.reign_ok(t));
    assert(h2.replicas.dom().contains(g.leader));
    assert(g.leader != n ==> h2.replicas[g.leader] == h.replicas[g.leader]);
    sound_stays(h, h2, g.log);
    extras_stay(h, h2, n, t);
    won_stays(h, h2, n, t, g.start, g.leader, g.quorum, false);
    assert forall|k: int| g.start.len() <= k < g.log.len() implies #[trigger] h2.change_ok(t, k) by {
        assert(h.change_ok(t, k));
        change_stays(h, h2, t, k);
    }
}

proof fn ballot_stays(h: History, h2: History, n: NodeId, id: NodeId, t: Term)
    requires
        h.inv(),
        h2.steps_from(h, n),
        h.ballots.contains_key((id, t)),
    ensures
        h2.ballot_ok(id, t),
{
    assert(h.ballot_ok(id, t));
    assert(h2.replicas.dom().contains(id));
    assert(id != n ==> h2.replicas[id] == h.replicas[id]);
    let b = h.ballots[(id, t)];
    assert(h2.ballots[(id, t)] == b);
    sound_stays(h, h2, b.log);
    assert(h2.bids.contains_key((b.candidate, t)));
    kept_stays(h, h2, id, b.log, t - 1, t as int);
}

proof fn replica_stays(h: History, h2: History, n: NodeId, id: NodeId)
    requires
        h.inv(),
        h2.steps_from(h, n),
        h.replicas.contains_key(id),
        id != n,
    ensures
        h2.replica_ok(id, h2.replicas[id]),
{
    let r = h.replicas[id];
    assert(h2.replicas[id] == r);
    assert(h.replica_ok(id, r));
    sound_stays(h, h2, r.log);
    final_stays(h, h2, r.log, r.commit as int, r.term, r.term);
    kept_stays(h, h2, id, r.log, r.term as int, r.term as int);
    assert(h2.held_by(id, r.term) == h.held_by(id, r.term));
    match r.stage {
        Stage::Candidate { votes } => {
            assert forall|v: NodeId| #[trigger] votes.contains(v) implies h2.ballots.contains_key(
                (v, r.term),
            ) && h2.ballots[(v, r.term)].candidate == id by {
                assert(h.ballots.contains_key((v, r.term)));
            }
            if h2.reigns.contains_key(r.term) && h.reigns.contains_key(r.term) {
                assert(h2.reigns[r.term].leader == h.reigns[r.term].leader);
            }
        },
        _ => {},
    }
}

/// A step that records no new leadership, vote or candidacy keeps the
/// invariant if it keeps that of the replica that takes it.
#[verifier::rlimit(30)]
proof fn everyone_else_stays(h: History, h2: History, n: NodeId)
    requires
        h.inv(),
        h2.steps_from(h, n),
        h2.replica_ok(n, h2.replicas[n]),
        forall|t: Term| #[trigger]
            h2.reigns.contains_key(t) && !(h.reigns.contains_key(t) && h2.reigns[t] == h.reigns[t])
                ==> h2.reign_ok(t),
        forall|id: NodeId, t: Term| #[trigger]
            h2.ballots.contains_key((id, t)) && !h.ballots.contains_key((id, t)) ==> h2.ballot_ok(id, t),
        forall|id: NodeId, t: Term| #[trigger]
            h2.bids.contains_key((id, t)) && !h.bids.contains_key((id, t)) ==> h2.bid_ok(id, t),
        forall|id: NodeId, t: Term| #[trigger]
            h2.held.contains_key((id, t)) && h2.held_by(id, t) != h.held_by(id, t) ==> h2.held_ok(id, t),
        forall|id: NodeId, t: Term| #[trigger]
            h2.held.contains_key((id, t)) && !h.held.contains_key((id, t)) ==> h2.held_ok(id, t),
        forall|w: Accepted| #[trigger]
            h2.accepted.contains(w) && !h.accepted.contains(w) ==> h2.accepted_ok(w),
    ensures
        h2.inv(),
{
    assert forall|w: Accepted| #[trigger] h2.accepted.contains(w) implies h2.accepted_ok(w) by {
        if h.accepted.contains(w) {
            assert(h.accepted_ok(w));
            let t = w.entry.term;
            agree_at(
                h.reigns[t].log,
                h2.reigns[t].log,
                h.reigns[t].log.len() as int,
                w.entry.index - 1,
            );
        }
    }
    assert forall|id: NodeId| #[trigger] h2.replicas.contains_key(id) implies h2.replica_ok(
        id,
        h2.replicas[id],
    ) by {
        assert(h.replicas.dom().contains(id));
        if id != n {
            replica_stays(h, h2, n, id);
        }
    }
    assert forall|t: Term| #[trigger] h2.reigns.contains_key(t) implies h2.reign_ok(t) by {
        if h.reigns.contains_key(t) && h2.reigns[t] == h.reigns[t] {
            reign_stays(h, h2, n, t);
        }
    }
    assert forall|id: NodeId, t: Term| #[trigger] h2.ballots.contains_key((id, t)) implies h2.ballot_ok(
        id,
        t,
    ) by {
        if h.ballots.contains_key((id, t)) {
            ballot_stays(h, h2, n, id, t);
        }
    }
    assert forall|id: NodeId, t: Term| #[trigger] h2.bids.contains_key((id, t)) implies h2.bid_ok(
        id,
        t,
    ) by {
        if h.bids.contains_key((id, t)) {
            assert(h.bid_ok(id, t));
            assert(h2.replicas.dom().contains(id));
            assert(id != n ==> h2.replicas[id] == h.replicas[id]);
        }
    }
    assert forall|id: NodeId, t: Term| #[trigger] h2.held.contains_key((id, t)) implies h2.held_ok(
        id,
        t,
    ) by {
        if h.held.contains_key((id, t)) && h2.held_by(id, t) == h.held_by(id, t) {
            assert(h.held_ok(id, t));
            assert(h2.replicas.dom().contains(id));
            assert(id != n ==> h2.replicas[id] == h.replicas[id]);
            reveal(agree);
        }
    }
}

// ---- the steps ----

/// A step that changes only the state of one replica.
pub proof fn replica_moves(h: History, n: NodeId, r: Replica)
    requires
        h.inv(),
        h.replicas.contains_key(n),
        r.term >= h.replicas[n].term,
        r.term == h.replicas[n].term && h.replicas[n].voted_for is Some ==> r.voted_for
            == h.replicas[n].voted_for,
        h.replica_ok(n, r),
    ensures
        h.with_replica(n, r).inv(),
        h.with_replica(n, r).steps_from(h, n),
{
    let h2 = h.with_replica(n, r);
    everything_agrees(h);
    assert(h2.replicas.dom() =~= h.replicas.dom());
    assert(h2.steps_from(h, n));
    final_stays(h, h2, r.log, r.commit as int, r.term, r.term);
    kept_stays(h, h2, n, r.log, r.term as int, r.term as int);
    everyone_else_stays(h, h2, n);
}

/// Every reign's log agrees with itself.
proof fn everything_agrees(h: History)
    ensures
        forall|t: Term| #[trigger]
            h.reigns.contains_key(t) ==> agree(
                h.reigns[t].log,
                h.reigns[t].log,
                h.reigns[t].log.len() as int,
            ) && h.reigns[t].pulses.take(h.reigns[t].pulses.len() as int) == h.reigns[t].pulses,
{
    reveal(agree);
    assert forall|t: Term| #[trigger] h.reigns.contains_key(t) implies h.reigns[t].pulses.take(
        h.reigns[t].pulses.len() as int,
    ) == h.reigns[t].pulses by {
        assert(h.reigns[t].pulses.take(h.reigns[t].pulses.len() as int) =~= h.reigns[t].pulses);
    }
}

/// What a node keeps, it keeps when its term rises: it has held nothing of
/// later terms.
pub proof fn kept_higher(h: History, n: NodeId, term: Term)
    requires
        h.inv(),
        h.replicas.contains_key(n),
        term >= h.replicas[n].term,
    ensures
        h.kept(n, h.replicas[n].log, term as int, term as int),
{
    let r = h.replicas[n];
    assert(h.replica_ok(n, r));
    assert forall|t0: Term, i: int| #![trigger agree(h.reigns[t0].log, r.log, i)]
        0 < i <= h.held_by(n, t0) && t0 <= term implies {
        ||| agree(h.reigns[t0].log, r.log, i)
        ||| exists|t1: Term| t0 < t1 <= term && #[trigger] h.superseded(t0, i, t1)
    } by {
        assert(h.held.contains_key((n, t0)));
        assert(h.held_ok(n, t0));
        if !agree(h.reigns[t0].log, r.log, i) {
            let t1 = choose|t1: Term| t0 < t1 <= r.term && #[trigger] h.superseded(t0, i, t1);
            assert(t0 < t1 <= term && h.superseded(t0, i, t1));
        }
    }
}

/// A replica follows in its term or a later one.
pub proof fn follow_keeps(h: History, n: NodeId, term: Term) -> (h2: History)
    requires
        h.inv(),
        h.replicas.contains_key(n),
        term >= h.replicas[n].term,
    ensures
        h2.inv(),
        h2.steps_from(h, n),
        h2.replicas[n] == (Replica {
            term,
            voted_for: if term > h.replicas[n].term {
                None
            } else {
                h.replicas[n].voted_for
            },
            stage: Stage::Follower,
            ..h.replicas[n]
        }),
        h2.reigns == h.reigns,
        h2.ballots == h.ballots,
        h2.bids == h.bids,
        h2.held == h.held,
        h2.accepted == h.accepted,
{
    let r = h.replicas[n];
    let r2 = Replica {
        term,
        voted_for: if term > r.term {
            None
        } else {
            r.voted_for
        },
        stage: Stage::Follower,
        ..r
    };
    assert(h.replica_ok(n, r));
    everything_agrees(h);
    final_stays(h, h, r.log, r.commit as int, r.term, term);
    kept_higher(h, n, term);
    replica_moves(h, n, r2);
    h.with_replica(n, r2)
}

/// A candidate counts one more vote that was cast for it.
pub proof fn count_keeps(h: History, n: NodeId, from: NodeId) -> (h2: History)
    requires
        h.inv(),
        h.replicas.contains_key(n),
        h.replicas[n].stage is Candidate,
        h.ballots.contains_key((from, h.replicas[n].term)),
        h.ballots[(from, h.replicas[n].term)].candidate == n,
    ensures
        h2.inv(),
        h2.steps_from(h, n),
        h2 == h.with_replica(
            n,
            Replica {
                stage: Stage::Candidate {
                    votes: h.replicas[n].stage->Candidate_votes.insert(from),
                },
                ..h.replicas[n]
            },
        ),
{
    let r = h.replicas[n];
    let r2 = Replica {
        stage: Stage::Candidate { votes: r.stage->Candidate_votes.insert(from) },
        ..r
    };
    assert(h.replica_ok(n, r));
    replica_moves(h, n, r2);
    h.with_replica(n, r2)
}

/// A replica learns that more of its log is committed, or, restarting,
/// remembers less.
pub proof fn commit_keeps(h: History, n: NodeId, commit: nat) -> (h2: History)
    requires
        h.inv(),
        h.replicas.contains_key(n),
        commit <= h.replicas[n].log.len(),
        h.final_through(h.replicas[n].log, commit as int, h.replicas[n].term),
        !(h.replicas[n].stage is Leader),
    ensures
        h2.inv(),
        h2.steps_from(h, n),
        h2 == h.with_replica(n, Replica { commit, ..h.replicas[n] }),
{
    let r = h.replicas[n];
    assert(h.replica_ok(n, r));
    replica_moves(h, n, Replica { commit, ..r });
    h.with_replica(n, Replica { commit, ..r })
}

/// A candidacy keeps the invariant.
#[verifier::rlimit(30)]
pub proof fn campaign_keeps(h: History, n: NodeId)
    requires
        h.inv(),
        h.replicas.contains_key(n),
        h.replicas[n].term < u64::MAX,
    ensures
        h.campaigned(n).inv(),
        h.campaigned(n).steps_from(h, n),
{
    let r = h.replicas[n];
    let h2 = h.campaigned(n);
    let r2 = h2.replicas[n];
    let t = r2.term;
    assert(h.replica_ok(n, r));
    everything_agrees(h);
    assert(h2.replicas.dom() =~= h.replicas.dom());
    if h.bids.contains_key((n, t)) {
        assert(h.bid_ok(n, t));
    }
    if h.ballots.contains_key((n, t)) {
        assert(h.ballot_ok(n, t));
    }
    if h.reigns.contains_key(t) {
        assert(h.reign_ok(t));
    }
    assert(h2.steps_from(h, n));
    sound_stays(h, h2, r.log);
    final_stays(h, h2, r.log, r.commit as int, r.term, t);
    kept_higher(h, n, t);
    kept_stays(h, h2, n, r.log, t as int, t as int);
    kept_higher(h, n, r.term);
    kept_wider(h, n, r.log, r.term as int, r.term as int, t as int);
    kept_stays(h, h2, n, r.log, t - 1, t as int);
    everyone_else_stays(h, h2, n);
}

/// More leaders may have superseded what a node held.
proof fn kept_wider(h: History, n: NodeId, log: Seq<LogEntry>, low: int, top: int, top2: int)
    requires
        h.kept(n, log, low, top),
        top <= top2,
    ensures
        h.kept(n, log, low, top2),
{
    assert forall|t0: Term, i: int| #![trigger agree(h.reigns[t0].log, log, i)]
        0 < i <= h.held_by(n, t0) && t0 <= low implies {
        ||| agree(h.reigns[t0].log, log, i)
        ||| exists|t1: Term| t0 < t1 <= top2 && #[trigger] h.superseded(t0, i, t1)
    } by {
        if !agree(h.reigns[t0].log, log, i) {
            let t1 = choose|t1: Term| t0 < t1 <= top && #[trigger] h.superseded(t0, i, t1);
            assert(t0 < t1 <= top2 && h.superseded(t0, i, t1));
        }
    }
}

/// A first vote for a candidate with a log at least as up-to-date keeps the
/// invariant.
#[verifier::rlimit(30)]
pub proof fn grant_keeps(h: History, n: NodeId, candidate: NodeId)
    requires
        h.inv(),
        h.replicas.contains_key(n),
        h.replicas[n].voted_for is None,
        h.bids.contains_key((candidate, h.replicas[n].term)),
        newer(h.bids[(candidate, h.replicas[n].term)], h.replicas[n].log),
    ensures
        h.granted(n, candidate).inv(),
        h.granted(n, candidate).steps_from(h, n),
{
    let r = h.replicas[n];
    let h2 = h.granted(n, candidate);
    let t = r.term;
    assert(h.replica_ok(n, r));
    everything_agrees(h);
    assert(h2.replicas.dom() =~= h.replicas.dom());
    if h.ballots.contains_key((n, t)) {
        assert(h.ballot_ok(n, t));
    }
    assert(h2.steps_from(h, n));
    sound_stays(h, h2, r.log);
    final_stays(h, h2, r.log, r.commit as int, t, t);
    kept_stays(h, h2, n, r.log, t as int, t as int);
    match r.stage {
        Stage::Candidate { votes } => {
            assert forall|v: NodeId| #[trigger] votes.contains(v) implies h2.ballots.contains_key(
                (v, t),
            ) && h2.ballots[(v, t)].candidate == n by {
                assert(h.ballots.contains_key((v, t)));
            }
        },
        _ => {},
    }
    everyone_else_stays(h, h2, n);
}

/// An election keeps the invariant; in particular the term had no leader.
#[verifier::rlimit(30)]
pub proof fn elect_keeps(h: History, n: NodeId)
    requires
        h.inv(),
        h.replicas.contains_key(n),
        h.replicas[n].stage is Candidate,
        majority(h.config(h.replicas[n].log), h.replicas[n].stage->Candidate_votes),
    ensures
        !h.reigns.contains_key(h.replicas[n].term),
        h.elected(n, h.replicas[n].stage->Candidate_votes).inv(),
        h.elected(n, h.replicas[n].stage->Candidate_votes).steps_from(h, n),
{
    let r = h.replicas[n];
    let t = r.term;
    let votes = r.stage->Candidate_votes;
    let h2 = h.elected(n, votes);
    assert(h.replica_ok(n, r));
    everything_agrees(h);
    everything_agrees(h2);
    assert forall|id: NodeId| #[trigger] votes.contains(id) implies {
        &&& h.ballots.contains_key((id, t))
        &&& h.ballots[(id, t)].candidate == n
        &&& newer(r.log, h.ballots[(id, t)].log)
        &&& h.kept(id, h.ballots[(id, t)].log, t - 1, latest(t, true))
    } by {
        assert(h.ballot_ok(id, t));
    }
    assert(h.won(t, r.log, n, votes, true));
    if h.reigns.contains_key(t) {
        one_winner(h, t, r.log, n, votes);
    }
    assert forall|id: NodeId| #[trigger] votes.contains(id) implies h.kept(
        id,
        h.ballots[(id, t)].log,
        t - 1,
        t - 1,
    ) by {
        let log = h.ballots[(id, t)].log;
        assert(h.kept(id, log, t - 1, t as int));
        assert forall|t0: Term, i: int| #![trigger agree(h.reigns[t0].log, log, i)]
            0 < i <= h.held_by(id, t0) && t0 <= t - 1 implies {
            ||| agree(h.reigns[t0].log, log, i)
            ||| exists|t1: Term| t0 < t1 <= t - 1 && #[trigger] h.superseded(t0, i, t1)
        } by {
            if !agree(h.reigns[t0].log, log, i) {
                let t1 = choose|t1: Term| t0 < t1 <= t && #[trigger] h.superseded(t0, i, t1);
                assert(t0 < t1 <= t - 1 && h.superseded(t0, i, t1));
            }
        }
    }
    assert(h.won(t, r.log, n, votes, false));
    if h.held.contains_key((n, t)) {
        assert(h.held_ok(n, t));
    }
    assert(h2.replicas.dom() =~= h.replicas.dom());
    assert(h2.steps_from(h, n));
    sound_stays(h, h2, r.log);
    final_stays(h, h2, r.log, r.commit as int, t, t);
    won_stays(h, h2, n, t, r.log, n, votes, false);
    assert(h2.kept(n, r.log, t as int, t as int)) by {
        assert forall|t0: Term, i: int| #![trigger agree(h2.reigns[t0].log, r.log, i)]
            0 < i <= h2.held_by(n, t0) && t0 <= t implies {
            ||| agree(h2.reigns[t0].log, r.log, i)
            ||| exists|t1: Term| t0 < t1 <= t && #[trigger] h2.superseded(t0, i, t1)
        } by {
            if t0 == t {
                agree_self(r.log, i);
            } else {
                assert(h2.held_by(n, t0) == h.held_by(n, t0));
                assert(h.held_ok(n, t0));
                if !agree(h.reigns[t0].log, r.log, i) {
                    let t1 = choose|t1: Term| t0 < t1 <= t && #[trigger] h.superseded(t0, i, t1);
                    superseded_stays(h, h2, t0, i, t1);
                }
            }
        }
    }
    let g = h2.reigns[t];
    assert(g.start == r.log && g.log == r.log && g.leader == n && g.quorum == votes);
    assert(h2.replicas.contains_key(n));
    agree_self(r.log, r.log.len() as int);
    assert(h2.pulse_ok(t, first_pulse()));
    assert(h2.reign_ok(t));
    everyone_else_stays(h, h2, n);
}

/// A leader's append keeps the invariant; a configuration needs everything
/// that makes it safe.
#[verifier::rlimit(30)]
pub proof fn append_keeps(h: History, n: NodeId, entry: LogEntry)
    requires
        h.inv(),
        h.replicas.contains_key(n),
        h.replicas[n].stage is Leader,
        entry.term == h.replicas[n].term,
        entry.index == h.replicas[n].log.len() + 1,
        entry_valid(entry),
        config_of(entry) is Some ==> {
            let r = h.replicas[n];
            let g = h.reigns[r.term];
            &&& one_apart(h.config(r.log), h.config(r.log.push(entry)))
            &&& r.commit > g.start.len()
            &&& steady(r.log, r.commit as int, r.log.len() as int)
        },
    ensures
        h.appended(n, entry).inv(),
        h.appended(n, entry).steps_from(h, n),
{
    let r = h.replicas[n];
    let t = r.term;
    let h2 = h.appended(n, entry);
    let g = h.reigns[t];
    let g2 = h2.reigns[t];
    let log = r.log.push(entry);
    let len = r.log.len() as int;
    assert(h.replica_ok(n, r));
    assert(h.reign_ok(t));
    everything_agrees(h);
    assert(agree(r.log, log, len)) by {
        reveal(agree);
    }
    agree_back(r.log, log, len);
    if h.held.contains_key((n, t)) {
        assert(h.held_ok(n, t));
    }
    assert(h2.replicas.dom() =~= h.replicas.dom());
    assert(h2.steps_from(h, n));
    sound_stays(h, h2, r.log);
    assert(sound(h2.reigns, log)) by {
        assert forall|k: int| #![trigger log[k]] 0 <= k < log.len() implies {
            &&& log[k].index == k + 1
            &&& entry_valid(log[k])
            &&& h2.reigns.contains_key(log[k].term)
            &&& agree(log, h2.reigns[log[k].term].log, k + 1)
        } by {
            if k < len {
                assert(log[k] == r.log[k]);
                sound_at(h2.reigns, r.log, k);
                agree_less(log, r.log, len, k + 1);
                agree_across(log, r.log, h2.reigns[log[k].term].log, k + 1);
            } else {
                agree_self(log, k + 1);
            }
        }
        reveal(sound);
    }
    final_stays(h, h2, r.log, r.commit as int, t, t);
    if r.commit > 0 {
        let (t0, i, q) = choose|t0: Term, i: int, q: int| #[trigger]
            h2.vouched(t0, i, q) && t0 <= t && r.commit <= i && agree(
                h2.reigns[t0].log,
                r.log,
                r.commit as int,
            );
        agree_less(r.log, log, len, r.commit as int);
        agree_across(h2.reigns[t0].log, r.log, log, r.commit as int);
    }
    assert(h2.kept(n, log, t as int, t as int)) by {
        assert forall|t0: Term, i: int| #![trigger agree(h2.reigns[t0].log, log, i)]
            0 < i <= h2.held_by(n, t0) && t0 <= t implies {
            ||| agree(h2.reigns[t0].log, log, i)
            ||| exists|t1: Term| t0 < t1 <= t && #[trigger] h2.superseded(t0, i, t1)
        } by {
            if t0 == t {
                agree_self(log, i);
            } else {
                assert(h2.held_by(n, t0) == h.held_by(n, t0));
                assert(h.held_ok(n, t0));
                if agree(h.reigns[t0].log, r.log, i) {
                    assert(i <= len) by {
                        reveal(agree);
                    }
                    agree_less(r.log, log, len, i);
                    agree_across(h.reigns[t0].log, r.log, log, i);
                } else {
                    let t1 = choose|t1: Term| t0 < t1 <= t && #[trigger] h.superseded(t0, i, t1);
                    superseded_stays(h, h2, t0, i, t1);
                }
            }
        }
    }
    won_stays(h, h2, n, t, g.start, g.leader, g.quorum, false);
    assert(agree(g.start, log, g.start.len() as int)) by {
        assert(g.start.len() <= len) by {
            reveal(agree);
        }
        agree_less(r.log, log, len, g.start.len() as int);
        agree_across(g.start, r.log, log, g.start.len() as int);
    }
    assert forall|k: int| #![trigger log[k]] g.start.len() <= k < log.len() implies log[k].term == t by {
        if k < len {
            assert(log[k] == g.log[k]);
        }
    }
    assert forall|k: int| g.start.len() <= k < log.len() implies #[trigger] h2.change_ok(t, k) by {
        if k < len {
            assert(h.change_ok(t, k));
            change_stays(h, h2, t, k);
        } else if config_of(entry) is Some {
            let (t0, i, q) = choose|t0: Term, i: int, q: int| #[trigger]
                h.vouched(t0, i, q) && t0 <= t && r.commit <= i && agree(
                    h.reigns[t0].log,
                    r.log,
                    r.commit as int,
                );
            let last = r.commit - 1;
            agree_at(h.reigns[t0].log, r.log, r.commit as int, last);
            reign_terms(h, t, last);
            reign_terms(h, t0, last);
            assert(t0 == t);
            committed_stays(h, h2, t, i, q);
            assert(log.take(k) =~= r.log);
            assert(log.take(k + 1) =~= log);
            assert forall|j: int| #![trigger log[j]] i <= j < k implies config_of(log[j]) is None by {
                assert(log[j] == r.log[j]);
            }
            assert(h2.committed(t, i, q) && g2.start.len() < i && q <= k && steady(g2.log, i, k));
        }
    }
    assert(last_term(log) == t);
    extras_stay(h, h2, n, t);
    assert(h2.reign_ok(t));
    everyone_else_stays(h, h2, n);
}

/// What a replica knows to be committed is in the log of its term's leader.
pub proof fn final_in_reign(h: History, log: Seq<LogEntry>, n: int, term: Term, t: Term)
    requires
        h.inv(),
        h.final_through(log, n, term),
        term <= t,
        0 <= n,
        h.reigns.contains_key(t),
        n <= log.len(),
    ensures
        agree(log, h.reigns[t].log, n),
{
    if n > 0 {
        let (t0, i, q) = choose|t0: Term, i: int, q: int| #[trigger]
            h.vouched(t0, i, q) && t0 <= term && n <= i && agree(h.reigns[t0].log, log, n);
        let g = h.reigns[t];
        assert(h.reign_ok(t));
        let log0 = h.reigns[t0].log;
        agree_back(log0, log, n);
        if t0 < t {
            complete(h, t0, i, q, t, g.start, g.leader, g.quorum, false);
            assert(i <= g.start.len()) by {
                reveal(agree);
            }
            agree_less(g.start, g.log, g.start.len() as int, n);
            agree_less(log0, g.start, i, n);
            agree_across(log0, g.start, g.log, n);
            agree_across(log, log0, g.log, n);
        }
    } else {
        reveal(agree);
    }
}

/// A follower that takes over a beginning of its leader's log keeps the
/// invariant; what it knows to be committed stays.
#[verifier::rlimit(30)]
pub proof fn adopt_keeps(h: History, n: NodeId, i: int)
    requires
        h.inv(),
        h.replicas.contains_key(n),
        h.replicas[n].stage is Follower,
        h.reigns.contains_key(h.replicas[n].term),
        0 <= i <= h.reigns[h.replicas[n].term].log.len(),
    ensures
        h.adopted(n, i).inv(),
        h.adopted(n, i).steps_from(h, n),
        h.adopted(n, i).held_by(n, h.replicas[n].term) >= i,
        agree(h.replicas[n].log, h.adopted(n, i).replicas[n].log, h.replicas[n].commit as int),
{
    let r = h.replicas[n];
    let t = r.term;
    let h2 = h.adopted(n, i);
    let g = h.reigns[t];
    let log = h.taken_over(n, i);
    assert(h.replica_ok(n, r));
    assert(h.reign_ok(t));
    everything_agrees(h);
    if h.held.contains_key((n, t)) {
        assert(h.held_ok(n, t));
    }
    assert(h2.replicas.dom() =~= h.replicas.dom());
    assert(h2.steps_from(h, n));
    let c = r.commit as int;
    final_in_reign(h, r.log, c, t, t);
    agree_of_take(g.log, i);
    sound_take(h.reigns, g.log, i);
    sound_stays(h, h2, log);
    agree_self(r.log, c);
    if !agree(r.log, g.log, i) {
        if c > i {
            agree_less(r.log, g.log, c, i);
        }
        agree_less(g.log, log, i, c);
        agree_across(r.log, g.log, log, c);
        if i > 0 {
            reign_terms(h, t, i - 1);
        }
    }
    assert(c <= log.len()) by {
        reveal(agree);
    }
    final_stays(h, h2, r.log, c, t, t);
    if c > 0 {
        let (t0, j, q) = choose|t0: Term, j: int, q: int| #[trigger]
            h2.vouched(t0, j, q) && t0 <= t && c <= j && agree(h2.reigns[t0].log, r.log, c);
        agree_across(h2.reigns[t0].log, r.log, log, c);
    }
    assert forall|t0: Term, j: int| #![trigger agree(h2.reigns[t0].log, log, j)]
        0 < j <= h2.held_by(n, t0) && t0 <= t implies {
        ||| agree(h2.reigns[t0].log, log, j)
        ||| exists|t1: Term| t0 < t1 <= t && #[trigger] h2.superseded(t0, j, t1)
    } by {
        let log0 = h.reigns[t0].log;
        if t0 == t && j <= i {
            if agree(r.log, g.log, i) {
                agree_back(r.log, g.log, i);
                agree_less(g.log, r.log, i, j);
            } else {
                agree_less(g.log, log, i, j);
            }
        } else {
            assert(j <= h.held_by(n, t0));
            assert(h.held_ok(n, t0));
            if !agree(log0, r.log, j) {
                let t1 = choose|t1: Term| t0 < t1 <= t && #[trigger] h.superseded(t0, j, t1);
                superseded_stays(h, h2, t0, j, t1);
            } else if t0 < t && !agree(log0, g.start, j) {
                assert(h2.superseded(t0, j, t));
            } else if !agree(r.log, g.log, i) {
                if t0 < t {
                    assert(j <= g.start.len()) by {
                        reveal(agree);
                    }
                    agree_less(g.start, g.log, g.start.len() as int, j);
                    agree_across(log0, g.start, g.log, j);
                } else {
                    agree_self(g.log, j);
                }
                agree_back(log0, r.log, j);
                agree_across(r.log, log0, g.log, j);
                if j > i {
                    agree_less(r.log, g.log, j, i);
                }
                agree_less(g.log, log, i, j);
                agree_across(log0, g.log, log, j);
            }
        }
    }
    everyone_else_stays(h, h2, n);
}

/// A leader's commit: an entry of its term that a majority of its
/// configuration held.
#[verifier::rlimit(30)]
pub proof fn leader_commit_keeps(h: History, n: NodeId, i: int)
    requires
        h.inv(),
        h.replicas.contains_key(n),
        h.replicas[n].stage is Leader,
        h.replicas[n].commit <= i,
        0 < i <= h.replicas[n].log.len(),
        h.replicas[n].log[i - 1].term == h.replicas[n].term,
        majority(h.config(h.replicas[n].log), h.holders(h.replicas[n].term, i)),
    ensures
        h.found_committed(n, i).inv(),
        h.found_committed(n, i).steps_from(h, n),
{
    let r = h.replicas[n];
    let t = r.term;
    let h2 = h.found_committed(n, i);
    let g = h.reigns[t];
    let g2 = h2.reigns[t];
    assert(h.replica_ok(n, r));
    assert(h.reign_ok(t));
    everything_agrees(h);
    assert(h2.replicas.dom() =~= h.replicas.dom());
    assert(h2.steps_from(h, n));
    sound_stays(h, h2, r.log);
    kept_stays(h, h2, n, r.log, t as int, t as int);
    assert(r.log.take(r.log.len() as int) =~= r.log);
    assert(h.committed(t, i, r.log.len() as int));
    committed_stays(h, h2, t, i, r.log.len() as int);
    assert(h2.vouched(t, i, r.log.len() as int));
    agree_self(r.log, i);
    won_stays(h, h2, n, t, g.start, g.leader, g.quorum, false);
    assert forall|k: int| g.start.len() <= k < g.log.len() implies #[trigger] h2.change_ok(t, k) by {
        assert(h.change_ok(t, k));
        change_stays(h, h2, t, k);
    }
    assert(g2.log == g.log && g2.start == g.start);
    extras_stay(h, h2, n, t);
    assert(h2.reign_ok(t));
    everyone_else_stays(h, h2, n);
}

/// Registering a read keeps the invariant.
#[verifier::rlimit(30)]
pub proof fn pulse_keeps(h: History, n: NodeId, ticket: u64)
    requires
        h.inv(),
        h.replicas.contains_key(n),
        h.replicas[n].stage is Leader,
    ensures
        h.pulsed(n, ticket).inv(),
        h.pulsed(n, ticket).steps_from(h, n),
{
    let r = h.replicas[n];
    let t = r.term;
    let p = h.pulse_now(n, ticket);
    let h2 = h.pulsed(n, ticket);
    let g = h.reigns[t];
    let g2 = h2.reigns[t];
    assert(h.replica_ok(n, r));
    assert(h.reign_ok(t));
    everything_agrees(h);
    assert(g2.pulses.take(g.pulses.len() as int) =~= g.pulses);
    assert(h2.steps_from(h, n));
    sound_stays(h, h2, r.log);
    kept_stays(h, h2, n, r.log, t as int, t as int);
    final_stays(h, h2, r.log, r.commit as int, t, t);
    won_stays(h, h2, n, t, g.start, g.leader, g.quorum, false);
    assert forall|k: int| g.start.len() <= k < g.log.len() implies #[trigger] h2.change_ok(t, k) by {
        assert(h.change_ok(t, k));
        change_stays(h, h2, t, k);
    }
    if g.commit > 0 {
        let q = choose|q: int| #[trigger] h.committed(t, g.commit as int, q);
        committed_stays(h, h2, t, g.commit as int, q);
    }
    pulse_now_ok(h, n, ticket);
    pulse_stays(h, h2, n, t, p);
    assert forall|i: int| 0 <= i < g2.pulses.len() implies #[trigger] h2.pulse_ok(t, g2.pulses[i]) by {
        if i < g.pulses.len() {
            assert(g2.pulses[i] == g.pulses[i]);
            assert(h.pulse_ok(t, g.pulses[i]));
            pulse_stays(h, h2, n, t, g.pulses[i]);
        } else {
            assert(g2.pulses[i] == p);
        }
    }
    assert(g2.log == g.log && g2.start == g.start);
    assert(h2.reign_ok(t));
    assert(h2.replica_ok(n, h2.replicas[n]));
    everyone_else_stays(h, h2, n);
}

/// What a leader knows as it registers a read.
proof fn pulse_now_ok(h: History, n: NodeId, ticket: u64)
    requires
        h.inv(),
        h.replicas.contains_key(n),
        h.replicas[n].stage is Leader,
    ensures
        h.pulse_ok(h.replicas[n].term, h.pulse_now(n, ticket)),
{
    let r = h.replicas[n];
    let t = r.term;
    let p = h.pulse_now(n, ticket);
    assert(h.replica_ok(n, r));
    assert forall|t0: Term| #[trigger] p.found.contains_key(t0) implies h.seen_ok(p, t0) by {
        let g = h.reigns[t0];
        assert(h.reigns.contains_key(t0));
        assert(h.reign_ok(t0));
        assert forall|id: NodeId| #[trigger] g.quorum.contains(id) implies p.terms.contains_key(id)
            && p.terms[id] >= t0 by {
            assert(h.ballot_ok(id, t0));
        }
        if g.start.len() > 0 {
            sound_at(h.reigns, g.start, g.start.len() - 1);
        }
    }
    if forall|t0: Term| #[trigger] p.found.contains_key(t0) ==> t0 <= t {
        let g = h.reigns[t];
        assert(h.reign_ok(t));
        assert forall|t0: Term| #[trigger] p.found.contains_key(t0) implies p.found[t0] <= p.bound by {
            let c = h.reigns[t0].commit as int;
            assert(h.reigns.contains_key(t0));
            assert(h.reign_ok(t0));
            if t0 < t && c > 0 {
                let q = choose|q: int| #[trigger] h.committed(t0, c, q);
                complete(h, t0, c, q, t, g.start, g.leader, g.quorum, false);
                reveal(agree);
            }
        }
    }
}

/// Recording an accepted write keeps the invariant.
pub proof fn accept_keeps(h: History, n: NodeId, w: Accepted) -> (h2: History)
    requires
        h.inv(),
        h.replicas.contains_key(n),
        h.accepted_ok(w),
    ensures
        h2.inv(),
        h2.steps_from(h, n),
        h2 == (History { accepted: h.accepted.insert(w), ..h }),
{
    let h2 = History { accepted: h.accepted.insert(w), ..h };
    let r = h.replicas[n];
    assert(h.replica_ok(n, r));
    everything_agrees(h);
    assert(h2.steps_from(h, n));
    final_stays(h, h2, r.log, r.commit as int, r.term, r.term);
    kept_stays(h, h2, n, r.log, r.term as int, r.term as int);
    everyone_else_stays(h, h2, n);
    h2
}

/// A follower that drops what conflicts with its leader keeps the invariant.
#[verifier::rlimit(30)]
pub proof fn cut_keeps(h: History, n: NodeId, j: int) -> (h2: History)
    requires
        h.inv(),
        h.replicas.contains_key(n),
        h.replicas[n].stage is Follower,
        h.reigns.contains_key(h.replicas[n].term),
        0 <= j < h.replicas[n].log.len(),
        h.replicas[n].commit <= j,
        agree(h.replicas[n].log, h.reigns[h.replicas[n].term].log, j),
        j < h.reigns[h.replicas[n].term].log.len(),
        !agree(h.replicas[n].log, h.reigns[h.replicas[n].term].log, j + 1),
    ensures
        h2.inv(),
        h2.steps_from(h, n),
        h2 == h.with_replica(
            n,
            Replica { log: h.replicas[n].log.take(j), ..h.replicas[n] },
        ),
{
    let r = h.replicas[n];
    let t = r.term;
    let g = h.reigns[t];
    let log = r.log.take(j);
    let c = r.commit as int;
    assert(h.replica_ok(n, r));
    assert(h.reign_ok(t));
    sound_take(h.reigns, r.log, j);
    if j > 0 {
        sound_terms(h, r.log, j - 1, r.log.len() - 1);
    }
    agree_of_take(r.log, j);
    agree_less(r.log, log, j, c);
    if c > 0 {
        let (t0, i, q) = choose|t0: Term, i: int, q: int| #[trigger]
            h.vouched(t0, i, q) && t0 <= t && c <= i && agree(h.reigns[t0].log, r.log, c);
        agree_across(h.reigns[t0].log, r.log, log, c);
    }
    assert forall|t0: Term, i: int| #![trigger agree(h.reigns[t0].log, log, i)]
        0 < i <= h.held_by(n, t0) && t0 <= t implies {
        ||| agree(h.reigns[t0].log, log, i)
        ||| exists|t1: Term| t0 < t1 <= t && #[trigger] h.superseded(t0, i, t1)
    } by {
        let log0 = h.reigns[t0].log;
        if !agree(log0, r.log, i) {
            let t1 = choose|t1: Term| t0 < t1 <= t && #[trigger] h.superseded(t0, i, t1);
            assert(t0 < t1 <= t && h.superseded(t0, i, t1));
        } else if i <= j {
            agree_less(r.log, log, j, i);
            agree_across(log0, r.log, log, i);
        } else if t0 < t && !agree(log0, g.start, i) {
            assert(h.superseded(t0, i, t));
        } else {
            if t0 < t {
                assert(i <= g.start.len()) by {
                    reveal(agree);
                }
                agree_less(g.start, g.log, g.start.len() as int, i);
                agree_across(log0, g.start, g.log, i);
            } else {
                assert(h.held_ok(n, t0));
                agree_self(g.log, i);
            }
            agree_back(log0, r.log, i);
            agree_across(r.log, log0, g.log, i);
            agree_less(r.log, g.log, i, j + 1);
        }
    }
    replica_moves(h, n, Replica { log, ..r });
    h.with_replica(n, Replica { log, ..r })
}

/// A history with fewer writes on record keeps the invariant.
#[verifier::rlimit(30)]
pub proof fn forget_keeps(h: History, accepted: Set<Accepted>) -> (h2: History)
    requires
        h.inv(),
        accepted.subset_of(h.accepted),
    ensures
        h2.inv(),
        h2 == (History { accepted, ..h }),
{
    let h2 = History { accepted, ..h };
    assert forall|id: NodeId| #[trigger] h2.replicas.contains_key(id) implies h2.replica_ok(
        id,
        h2.replicas[id],
    ) by {
        let r = h.replicas[id];
        assert(h.replica_ok(id, r));
        forget_final(h, h2, r.log, r.commit as int, r.term);
        forget_kept(h, h2, id, r.log, r.term as int, r.term as int);
    }
    assert forall|t: Term| #[trigger] h2.reigns.contains_key(t) implies h2.reign_ok(t) by {
        let g = h.reigns[t];
        assert(h.reign_ok(t));
        assert forall|id: NodeId| #[trigger] g.quorum.contains(id) implies h2.kept(
            id,
            h2.ballots[(id, t)].log,
            t - 1,
            t - 1,
        ) by {
            forget_kept(h, h2, id, h.ballots[(id, t)].log, t - 1, t - 1);
        }
        assert forall|k: int| g.start.len() <= k < g.log.len() implies #[trigger] h2.change_ok(t, k) by {
            assert(h.change_ok(t, k));
            if config_of(g.log[k]) is Some {
                let (v, q) = choose|v: int, q: int| #[trigger]
                    h.committed(t, v, q) && g.start.len() < v && q <= k && steady(g.log, v, k);
                forget_committed(h, h2, t, v, q);
            }
        }
        if g.commit > 0 {
            let q = choose|q: int| #[trigger] h.committed(t, g.commit as int, q);
            forget_committed(h, h2, t, g.commit as int, q);
        }
        assert forall|i: int| 0 <= i < g.pulses.len() implies #[trigger] h2.pulse_ok(t, g.pulses[i]) by {
            let p = g.pulses[i];
            assert(h.pulse_ok(t, p));
            assert forall|t0: Term| #[trigger] p.found.contains_key(t0) implies h2.seen_ok(p, t0) by {
                assert(h.seen_ok(p, t0));
            }
        }
    }
    assert forall|id: NodeId, t: Term| #[trigger] h2.ballots.contains_key((id, t)) implies h2.ballot_ok(
        id,
        t,
    ) by {
        assert(h.ballot_ok(id, t));
        forget_kept(h, h2, id, h.ballots[(id, t)].log, t - 1, t as int);
    }
    assert forall|id: NodeId, t: Term| #[trigger] h2.bids.contains_key((id, t)) implies h2.bid_ok(
        id,
        t,
    ) by {
        assert(h.bid_ok(id, t));
    }
    assert forall|id: NodeId, t: Term| #[trigger] h2.held.contains_key((id, t)) implies h2.held_ok(
        id,
        t,
    ) by {
        assert(h.held_ok(id, t));
        assert(h2.held_by(id, t) == h.held_by(id, t));
    }
    assert forall|w: Accepted| #[trigger] h2.accepted.contains(w) implies h2.accepted_ok(w) by {
        assert(h.accepted.contains(w));
        assert(h.accepted_ok(w));
    }
    h2
}

proof fn forget_committed(h: History, h2: History, t: Term, i: int, q: int)
    requires
        h2 == (History { accepted: h2.accepted, ..h }),
        h.committed(t, i, q),
    ensures
        h2.committed(t, i, q),
{
    assert(h2.holders(t, i) =~= h.holders(t, i)) by {
        assert forall|id: NodeId| h2.held_by(id, t) == h.held_by(id, t) by {
        }
    }
}

pub proof fn forget_final(h: History, h2: History, log: Seq<LogEntry>, n: int, term: Term)
    requires
        h2 == (History { accepted: h2.accepted, ..h }),
        h.final_through(log, n, term),
    ensures
        h2.final_through(log, n, term),
{
    if n > 0 {
        let (t, i, q) = choose|t: Term, i: int, q: int| #[trigger]
            h.vouched(t, i, q) && t <= term && n <= i && agree(h.reigns[t].log, log, n);
        forget_committed(h, h2, t, i, q);
        assert(h2.vouched(t, i, q));
    }
}

proof fn forget_kept(h: History, h2: History, id: NodeId, log: Seq<LogEntry>, low: int, top: int)
    requires
        h2 == (History { accepted: h2.accepted, ..h }),
        h.kept(id, log, low, top),
    ensures
        h2.kept(id, log, low, top),
{
    assert forall|t0: Term, i: int| #![trigger agree(h2.reigns[t0].log, log, i)]
        0 < i <= h2.held_by(id, t0) && t0 <= low implies {
        ||| agree(h2.reigns[t0].log, log, i)
        ||| exists|t1: Term| t0 < t1 <= top && #[trigger] h2.superseded(t0, i, t1)
    } by {
        assert(h2.held_by(id, t0) == h.held_by(id, t0));
        if !agree(h.reigns[t0].log, log, i) {
            let t1 = choose|t1: Term| t0 < t1 <= top && #[trigger] h.superseded(t0, i, t1);
            assert(h2.superseded(t0, i, t1));
        }
    }
}

} // verus!
