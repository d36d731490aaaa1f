//! A cluster's history: who led in which term with which log, who voted for
//! whom, and who was seen to hold what. The agreement proofs are about this
//! record; the nodes' own states are tied to it step by step.
//!
//! Log positions count from 0 here: position `k` is the entry with index
//! `k + 1`, and "the first `i` entries" are those with index up to `i`.

use vstd::prelude::*;

use super::membership::{ascending, config_of, last_config};
use super::types::{LogEntry, NodeId, Term};

verus! {

/// Where a replica stands in its term.
#[verifier::ext_equal]
pub enum Stage {
    /// Neither of the others; a pre-campaign binds nobody and counts as this.
    Follower,
    Candidate { votes: Set<NodeId> },
    Leader,
}

/// A node as the history knows it, with its whole log: what it has compacted
/// away included.
#[verifier::ext_equal]
pub struct Replica {
    pub term: Term,
    pub voted_for: Option<NodeId>,
    pub log: Seq<LogEntry>,
    /// How many entries it knows to be committed.
    pub commit: nat,
    pub stage: Stage,
}

/// One term's leadership.
#[verifier::ext_equal]
pub struct Reign {
    pub leader: NodeId,
    /// The log it was elected with.
    pub start: Seq<LogEntry>,
    /// That log and everything the leader has appended to it.
    pub log: Seq<LogEntry>,
    /// The votes that elected it.
    pub quorum: Set<NodeId>,
    /// How much of its log the leader has found committed in this term.
    pub commit: nat,
    /// What was known when each of the leader's sequence numbers began.
    pub pulses: Seq<Pulse>,
}

/// What was known when a leader registered a read.
#[verifier::ext_equal]
pub struct Pulse {
    /// Each node's term.
    pub terms: Map<NodeId, Term>,
    /// How much each leader until then had found committed.
    pub found: Map<Term, nat>,
    /// What the read has to reflect.
    pub bound: nat,
    pub ticket: u64,
}

/// A vote, with the voter's log when it was first cast.
#[verifier::ext_equal]
pub struct Ballot {
    pub candidate: NodeId,
    pub log: Seq<LogEntry>,
}

/// A write that a leader accepted.
#[verifier::ext_equal]
pub struct Accepted {
    pub node: NodeId,
    pub ticket: u64,
    pub entry: LogEntry,
}

#[verifier::ext_equal]
pub struct History {
    /// The configuration that holds until a log sets one.
    pub founders: Set<NodeId>,
    pub replicas: Map<NodeId, Replica>,
    pub reigns: Map<Term, Reign>,
    /// The log each candidacy was run with.
    pub bids: Map<(NodeId, Term), Seq<LogEntry>>,
    pub ballots: Map<(NodeId, Term), Ballot>,
    /// How much of a term's leader's log a node held in that term.
    pub held: Map<(NodeId, Term), nat>,
    pub accepted: Set<Accepted>,
}

// ---- logs ----

/// Two logs have their first `n` entries in common.
#[verifier::opaque]
pub open spec fn agree(a: Seq<LogEntry>, b: Seq<LogEntry>, n: int) -> bool {
    &&& n <= a.len()
    &&& n <= b.len()
    &&& forall|k: int| #![trigger a[k]] #![trigger b[k]] 0 <= k < n ==> a[k] == b[k]
}

/// The term of a log's last entry; 0 if it has none.
pub open spec fn last_term(log: Seq<LogEntry>) -> Term {
    if log.len() == 0 {
        0
    } else {
        log.last().term
    }
}

/// §5.4.1: a log is at least as up-to-date as another.
pub open spec fn newer(a: Seq<LogEntry>, b: Seq<LogEntry>) -> bool {
    last_term(a) > last_term(b) || (last_term(a) == last_term(b) && a.len() >= b.len())
}

/// A configuration has members and lists them in order.
pub open spec fn entry_valid(entry: LogEntry) -> bool {
    match config_of(entry) {
        Some(members) => ascending(members.ids()) && members.ids().len() > 0,
        None => true,
    }
}

/// Every entry came from the leader of its term, behind everything that the
/// leader had before it.
#[verifier::opaque]
pub open spec fn sound(reigns: Map<Term, Reign>, log: Seq<LogEntry>) -> bool {
    forall|k: int|
        #![trigger log[k]]
        0 <= k < log.len() ==> {
            &&& log[k].index == k + 1
            &&& entry_valid(log[k])
            &&& reigns.contains_key(log[k].term)
            &&& agree(log, reigns[log[k].term].log, k + 1)
        }
}

/// The members that a log puts in charge.
pub open spec fn config(founders: Set<NodeId>, log: Seq<LogEntry>) -> Set<NodeId> {
    match last_config(log) {
        Some(members) => members.ids().to_set(),
        None => founders,
    }
}

/// No entry from position `from` to `to` sets a configuration.
pub open spec fn steady(log: Seq<LogEntry>, from: int, to: int) -> bool {
    forall|k: int| #![trigger log[k]] from <= k < to ==> config_of(log[k]) is None
}

// ---- majorities ----

/// More than half of `members` are in `set`.
pub open spec fn majority(members: Set<NodeId>, set: Set<NodeId>) -> bool {
    members.finite() && 2 * members.intersect(set).len() > members.len()
}

/// One configuration is the other with one member more.
pub open spec fn one_apart(a: Set<NodeId>, b: Set<NodeId>) -> bool {
    ||| exists|id: NodeId| !a.contains(id) && b == #[trigger] a.insert(id)
    ||| exists|id: NodeId| !b.contains(id) && a == #[trigger] b.insert(id)
}

/// The last term whose leader a vote in `term` can have seen.
pub open spec fn latest(term: Term, late: bool) -> int {
    if late {
        term as int
    } else {
        term - 1
    }
}

impl History {
    pub open spec fn config(self, log: Seq<LogEntry>) -> Set<NodeId> {
        config(self.founders, log)
    }

    /// How much of the log of `term`'s leader `id` held in that term.
    pub open spec fn held_by(self, id: NodeId, term: Term) -> nat {
        if self.held.contains_key((id, term)) {
            self.held[(id, term)]
        } else {
            0
        }
    }

    /// Who held the first `i` entries of the log of `term`'s leader.
    pub open spec fn holders(self, term: Term, i: int) -> Set<NodeId> {
        Set::new(|id: NodeId| self.held_by(id, term) >= i)
    }

    /// The first `i` entries of the log of `term`'s leader are committed: the
    /// last of them is of that term, and a majority of the configuration that
    /// the first `q` entries put in charge held them.
    pub open spec fn committed(self, term: Term, i: int, q: int) -> bool {
        &&& self.reigns.contains_key(term)
        &&& 0 < i <= q <= self.reigns[term].log.len()
        &&& self.reigns[term].log[i - 1].term == term
        &&& majority(self.config(self.reigns[term].log.take(q)), self.holders(term, i))
    }

    /// The first `i` entries of the log of `term`'s leader are committed, and
    /// that leader has found out.
    pub open spec fn vouched(self, term: Term, i: int, q: int) -> bool {
        self.committed(term, i, q) && i <= self.reigns[term].commit
    }

    /// A log's first `n` entries are known to be committed, by `term` at the
    /// latest.
    pub open spec fn final_through(self, log: Seq<LogEntry>, n: int, term: Term) -> bool {
        n > 0 ==> exists|t: Term, i: int, q: int| #[trigger]
            self.vouched(t, i, q) && t <= term && n <= i && agree(self.reigns[t].log, log, n)
    }

    /// The leader of `term` was not elected with the first `i` entries of the
    /// leader of `t0`.
    pub open spec fn superseded(self, t0: Term, i: int, term: Term) -> bool {
        self.reigns.contains_key(term) && !agree(self.reigns[t0].log, self.reigns[term].start, i)
    }

    /// What `id` held in the terms up to `low` is still in `log`, unless a
    /// leader of a term up to `top` was elected without it.
    pub open spec fn kept(self, id: NodeId, log: Seq<LogEntry>, low: int, top: int) -> bool {
        forall|t0: Term, i: int| #![trigger agree(self.reigns[t0].log, log, i)]
            0 < i <= self.held_by(id, t0) && t0 <= low ==> {
                ||| agree(self.reigns[t0].log, log, i)
                ||| exists|t1: Term| t0 < t1 <= top && #[trigger] self.superseded(t0, i, t1)
            }
    }

    /// What a majority's votes in `term` say of the log they elect; `late`
    /// where a vote may have been cast when the term had a leader already.
    pub open spec fn won(
        self,
        term: Term,
        start: Seq<LogEntry>,
        leader: NodeId,
        quorum: Set<NodeId>,
        late: bool,
    ) -> bool {
        &&& term >= 1
        &&& sound(self.reigns, start)
        &&& last_term(start) < term
        &&& majority(self.config(start), quorum)
        &&& forall|id: NodeId| #[trigger]
            quorum.contains(id) ==> {
                &&& self.ballots.contains_key((id, term))
                &&& self.ballots[(id, term)].candidate == leader
                &&& newer(start, self.ballots[(id, term)].log)
                &&& self.kept(id, self.ballots[(id, term)].log, term - 1, latest(term, late))
            }
    }

    // ---- the invariant ----

    pub open spec fn stage_ok(self, id: NodeId, r: Replica) -> bool {
        match r.stage {
            Stage::Follower => true,
            Stage::Candidate { votes } => {
                &&& r.term >= 1
                &&& last_term(r.log) < r.term
                &&& self.bids.contains_key((id, r.term))
                &&& self.bids[(id, r.term)] == r.log
                &&& self.reigns.contains_key(r.term) ==> self.reigns[r.term].leader != id
                &&& forall|v: NodeId| #[trigger]
                    votes.contains(v) ==> self.ballots.contains_key((v, r.term))
                        && self.ballots[(v, r.term)].candidate == id
            },
            Stage::Leader => {
                &&& self.reigns.contains_key(r.term)
                &&& self.reigns[r.term].leader == id
                &&& self.reigns[r.term].log == r.log
                &&& self.held_by(id, r.term) >= r.log.len()
                &&& self.reigns[r.term].commit <= r.commit
            },
        }
    }

    pub open spec fn replica_ok(self, id: NodeId, r: Replica) -> bool {
        &&& sound(self.reigns, r.log)
        &&& last_term(r.log) <= r.term
        &&& r.commit <= r.log.len()
        &&& self.final_through(r.log, r.commit as int, r.term)
        &&& self.kept(id, r.log, r.term as int, r.term as int)
        &&& r.voted_for is Some ==> self.ballots.contains_key((id, r.term))
            && self.ballots[(id, r.term)].candidate == r.voted_for->0
        &&& self.stage_ok(id, r)
    }

    /// A configuration that the leader of `term` appended at position `k`
    /// differs from the one before by one member, and was appended when an
    /// entry of that term, and every configuration before, had committed.
    pub open spec fn change_ok(self, term: Term, k: int) -> bool {
        let g = self.reigns[term];
        config_of(g.log[k]) is Some ==> {
            &&& one_apart(self.config(g.log.take(k)), self.config(g.log.take(k + 1)))
            &&& exists|v: int, q: int| #[trigger]
                self.committed(term, v, q) && g.start.len() < v && q <= k && steady(g.log, v, k)
        }
    }

    /// A pulse of the leader of `term`: terms have only risen since; every
    /// leader there was then had been elected by votes cast before; and if
    /// none of them led a later term, nothing was found committed beyond what
    /// the read has to reflect.
    pub open spec fn pulse_ok(self, term: Term, p: Pulse) -> bool {
        &&& forall|id: NodeId| #[trigger]
            p.terms.contains_key(id) ==> self.replicas.contains_key(id) && p.terms[id]
                <= self.replicas[id].term
        &&& forall|t: Term| #[trigger] p.found.contains_key(t) ==> self.seen_ok(p, t)
        &&& (forall|t: Term| #[trigger] p.found.contains_key(t) ==> t <= term) ==> (forall|t: Term|
            #[trigger] p.found.contains_key(t) ==> p.found[t] <= p.bound)
    }

    pub open spec fn seen_ok(self, p: Pulse, t: Term) -> bool {
        let g = self.reigns[t];
        &&& self.reigns.contains_key(t)
        &&& last_term(g.start) == 0 || p.found.contains_key(last_term(g.start))
        &&& forall|id: NodeId| #[trigger]
            g.quorum.contains(id) ==> p.terms.contains_key(id) && p.terms[id] >= t
    }

    pub open spec fn reign_ok(self, term: Term) -> bool {
        let g = self.reigns[term];
        &&& self.replicas.contains_key(g.leader)
        &&& self.replicas[g.leader].term >= term
        &&& sound(self.reigns, g.log)
        &&& agree(g.start, g.log, g.start.len() as int)
        &&& forall|k: int| #![trigger g.log[k]] g.start.len() <= k < g.log.len() ==> g.log[k].term == term
        &&& self.won(term, g.start, g.leader, g.quorum, false)
        &&& forall|k: int| g.start.len() <= k < g.log.len() ==> #[trigger] self.change_ok(term, k)
        &&& g.commit > 0 ==> exists|q: int| #[trigger] self.committed(term, g.commit as int, q)
        &&& g.pulses.len() >= 1
        &&& forall|i: int| 0 <= i < g.pulses.len() ==> #[trigger] self.pulse_ok(term, g.pulses[i])
    }

    pub open spec fn ballot_ok(self, id: NodeId, term: Term) -> bool {
        let b = self.ballots[(id, term)];
        &&& self.replicas.contains_key(id)
        &&& self.replicas[id].term >= term
        &&& self.replicas[id].term == term ==> self.replicas[id].voted_for == Some(b.candidate)
        &&& sound(self.reigns, b.log)
        &&& self.bids.contains_key((b.candidate, term))
        &&& newer(self.bids[(b.candidate, term)], b.log)
        &&& self.kept(id, b.log, term - 1, term as int)
    }

    pub open spec fn bid_ok(self, id: NodeId, term: Term) -> bool {
        &&& self.replicas.contains_key(id)
        &&& self.replicas[id].term >= term
    }

    pub open spec fn held_ok(self, id: NodeId, term: Term) -> bool {
        &&& self.replicas.contains_key(id)
        &&& self.replicas[id].term >= term
        &&& self.reigns.contains_key(term)
        &&& self.held_by(id, term) <= self.reigns[term].log.len()
    }

    /// An accepted write is where it was put.
    pub open spec fn accepted_ok(self, w: Accepted) -> bool {
        let t = w.entry.term;
        &&& self.reigns.contains_key(t)
        &&& 0 < w.entry.index <= self.reigns[t].log.len()
        &&& self.reigns[t].log[w.entry.index - 1] == w.entry
    }

    /// What every cluster's history satisfies.
    pub open spec fn inv(self) -> bool {
        &&& self.founders.finite()
        &&& forall|id: NodeId| #[trigger]
            self.replicas.contains_key(id) ==> self.replica_ok(id, self.replicas[id])
        &&& forall|t: Term| #[trigger] self.reigns.contains_key(t) ==> self.reign_ok(t)
        &&& forall|id: NodeId, t: Term| #[trigger]
            self.ballots.contains_key((id, t)) ==> self.ballot_ok(id, t)
        &&& forall|id: NodeId, t: Term| #[trigger] self.bids.contains_key((id, t)) ==> self.bid_ok(id, t)
        &&& forall|id: NodeId, t: Term| #[trigger] self.held.contains_key((id, t)) ==> self.held_ok(id, t)
        &&& forall|w: Accepted| #[trigger] self.accepted.contains(w) ==> self.accepted_ok(w)
    }

    /// A later point of the same history: nothing that was recorded is
    /// withdrawn.
    pub open spec fn extends(self, earlier: History) -> bool {
        &&& self.founders == earlier.founders
        &&& self.replicas.dom() == earlier.replicas.dom()
        &&& forall|id: NodeId| #[trigger]
            earlier.replicas.contains_key(id) ==> self.replicas[id].term >= earlier.replicas[id].term
        &&& forall|t: Term| #[trigger]
            earlier.reigns.contains_key(t) ==> {
                &&& self.reigns.contains_key(t)
                &&& self.reigns[t].leader == earlier.reigns[t].leader
                &&& self.reigns[t].start == earlier.reigns[t].start
                &&& self.reigns[t].quorum == earlier.reigns[t].quorum
                &&& self.reigns[t].commit >= earlier.reigns[t].commit
                &&& self.reigns[t].pulses.len() >= earlier.reigns[t].pulses.len()
                &&& self.reigns[t].pulses.take(earlier.reigns[t].pulses.len() as int)
                    == earlier.reigns[t].pulses
                &&& agree(earlier.reigns[t].log, self.reigns[t].log, earlier.reigns[t].log.len() as int)
            }
        &&& forall|x: (NodeId, Term)| #[trigger]
            earlier.bids.contains_key(x) ==> self.bids.contains_key(x) && self.bids[x] == earlier.bids[x]
        &&& forall|x: (NodeId, Term)| #[trigger]
            earlier.ballots.contains_key(x) ==> self.ballots.contains_key(x) && self.ballots[x]
                == earlier.ballots[x]
        &&& forall|id: NodeId, t: Term| #[trigger] self.held_by(id, t) >= earlier.held_by(id, t)
        &&& forall|w: Accepted| #[trigger] earlier.accepted.contains(w) ==> self.accepted.contains(w)
    }
}

} // verus!
