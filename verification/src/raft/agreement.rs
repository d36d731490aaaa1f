//! Why a cluster agrees: whatever is committed is in the log of every later
//! leader, and no term has two leaders, configuration changes included.

use vstd::prelude::*;

use super::history::{
    agree, entry_valid, last_term, latest, majority, one_apart, sound, steady, History,
    Pulse, Reign,
};
use super::membership::{config_of, last_config};
use super::types::{LogEntry, NodeId, Term};

verus! {

// ---- logs ----

/// Agreement is symmetric.
pub proof fn agree_back(a: Seq<LogEntry>, b: Seq<LogEntry>, n: int)
    requires
        agree(a, b, n),
    ensures
        agree(b, a, n),
{
    reveal(agree);
}

/// Agreement carries over a log in the middle.
pub proof fn agree_across(a: Seq<LogEntry>, b: Seq<LogEntry>, c: Seq<LogEntry>, n: int)
    requires
        agree(a, b, n),
        agree(b, c, n),
    ensures
        agree(a, c, n),
{
    reveal(agree);
    assert forall|k: int| #![trigger a[k]] #![trigger c[k]] 0 <= k < n implies a[k] == c[k] by {
        assert(a[k] == b[k]);
        assert(b[k] == c[k]);
    }
}

/// Logs that agree agree on less.
pub proof fn agree_less(a: Seq<LogEntry>, b: Seq<LogEntry>, n: int, m: int)
    requires
        agree(a, b, n),
        m <= n,
    ensures
        agree(a, b, m),
{
    reveal(agree);
}

/// Where logs agree they have the same entries.
pub proof fn agree_at(a: Seq<LogEntry>, b: Seq<LogEntry>, n: int, k: int)
    requires
        agree(a, b, n),
        0 <= k < n,
    ensures
        a[k] == b[k],
        k < a.len(),
        k < b.len(),
{
    reveal(agree);
}

/// What agreement says of the beginnings of two logs.
pub proof fn agree_takes(a: Seq<LogEntry>, b: Seq<LogEntry>, n: int)
    requires
        agree(a, b, n),
        0 <= n,
    ensures
        n <= a.len(),
        n <= b.len(),
        a.take(n) == b.take(n),
{
    reveal(agree);
    assert(a.take(n) =~= b.take(n));
}

/// A log agrees with itself.
pub proof fn agree_self(a: Seq<LogEntry>, n: int)
    requires
        n <= a.len(),
    ensures
        agree(a, a, n),
{
    reveal(agree);
}

/// What soundness says of one entry.
pub proof fn sound_at(reigns: Map<Term, Reign>, log: Seq<LogEntry>, k: int)
    requires
        sound(reigns, log),
        0 <= k < log.len(),
    ensures
        log[k].index == k + 1,
        entry_valid(log[k]),
        reigns.contains_key(log[k].term),
        agree(log, reigns[log[k].term].log, k + 1),
{
    reveal(sound);
}

/// Log matching: sound logs with an entry of the same term at the same place
/// agree through it.
pub proof fn logs_match(reigns: Map<Term, Reign>, a: Seq<LogEntry>, b: Seq<LogEntry>, k: int)
    requires
        sound(reigns, a),
        sound(reigns, b),
        0 <= k < a.len(),
        k < b.len(),
        a[k].term == b[k].term,
    ensures
        agree(a, b, k + 1),
{
    sound_at(reigns, a, k);
    sound_at(reigns, b, k);
    let c = reigns[a[k].term].log;
    agree_back(b, c, k + 1);
    agree_across(a, c, b, k + 1);
}

/// A beginning of a sound log is sound.
pub proof fn sound_take(reigns: Map<Term, Reign>, log: Seq<LogEntry>, n: int)
    requires
        sound(reigns, log),
        0 <= n <= log.len(),
    ensures
        sound(reigns, log.take(n)),
{
    let part = log.take(n);
    assert forall|k: int| #![trigger part[k]] 0 <= k < part.len() implies {
        &&& part[k].index == k + 1
        &&& entry_valid(part[k])
        &&& reigns.contains_key(part[k].term)
        &&& agree(part, reigns[part[k].term].log, k + 1)
    } by {
        sound_at(reigns, log, k);
        agree_of_take(log, n);
        agree_less(part, log, n, k + 1);
        agree_across(part, log, reigns[part[k].term].log, k + 1);
    }
    reveal(sound);
}

/// A log agrees with its own beginning.
pub proof fn agree_of_take(log: Seq<LogEntry>, n: int)
    requires
        0 <= n <= log.len(),
    ensures
        agree(log.take(n), log, n),
        agree(log, log.take(n), n),
{
    reveal(agree);
}

/// The last configuration is unchanged by entries that set none.
pub proof fn steady_config(log: Seq<LogEntry>, from: int, to: int)
    requires
        0 <= from <= to <= log.len(),
        steady(log, from, to),
    ensures
        last_config(log.take(from)) == last_config(log.take(to)),
    decreases to - from,
{
    if from < to {
        steady_config(log, from, to - 1);
        assert(log.take(to).drop_last() =~= log.take(to - 1));
        assert(log.take(to).last() == log[to - 1]);
        assert(config_of(log[to - 1]) is None);
    }
}

/// The last position from `from` to `to` that sets a configuration, if one
/// does.
pub open spec fn last_change(log: Seq<LogEntry>, from: int, to: int) -> Option<int>
    decreases to - from,
{
    if from >= to {
        None
    } else if config_of(log[to - 1]) is Some {
        Some(to - 1)
    } else {
        last_change(log, from, to - 1)
    }
}

pub proof fn last_change_is_last(log: Seq<LogEntry>, from: int, to: int)
    requires
        0 <= from <= to <= log.len(),
    ensures
        match last_change(log, from, to) {
            Some(k) => from <= k < to && config_of(log[k]) is Some && steady(log, k + 1, to),
            None => steady(log, from, to),
        },
    decreases to - from,
{
    if from < to && config_of(log[to - 1]) is None {
        last_change_is_last(log, from, to - 1);
    }
}

// ---- majorities ----

/// Majorities of the same configuration, or of two that differ by one
/// member, share a member.
pub proof fn majorities_share(a: Set<NodeId>, b: Set<NodeId>, x: Set<NodeId>, y: Set<NodeId>) -> (id:
    NodeId)
    requires
        a == b || one_apart(a, b),
        majority(a, x),
        majority(b, y),
    ensures
        x.contains(id),
        y.contains(id),
{
    let p = a.intersect(x);
    let q = b.intersect(y);
    let all = a.union(b);
    assert(p.finite() && q.finite() && all.finite());
    if a != b {
        if exists|id: NodeId| !a.contains(id) && b == #[trigger] a.insert(id) {
            let id = choose|id: NodeId| !a.contains(id) && b == #[trigger] a.insert(id);
            assert(all =~= b);
        } else {
            let id = choose|id: NodeId| !b.contains(id) && a == #[trigger] b.insert(id);
            assert(all =~= a);
        }
    } else {
        assert(all =~= a);
    }
    assert(p.len() + q.len() > all.len());
    if p.disjoint(q) {
        vstd::set_lib::lemma_set_disjoint_lens(p, q);
        assert((p + q).subset_of(all));
        vstd::set_lib::lemma_len_subset(p + q, all);
        assert(false);
    }
    choose|id: NodeId| p.contains(id) && q.contains(id)
}

// ---- what the invariant says of one reign ----

/// The terms along the log of a reign.
pub proof fn reign_terms(h: History, t: Term, k: int)
    requires
        h.inv(),
        h.reigns.contains_key(t),
        0 <= k < h.reigns[t].log.len(),
    ensures
        1 <= h.reigns[t].log[k].term <= t,
        k >= h.reigns[t].start.len() <==> h.reigns[t].log[k].term == t,
    decreases t,
{
    let g = h.reigns[t];
    assert(h.reign_ok(t));
    if k < g.start.len() {
        agree_at(g.start, g.log, g.start.len() as int, k);
        sound_terms(h, g.start, k, g.start.len() - 1);
    }
}

/// The terms along a sound log do not fall.
pub proof fn sound_terms(h: History, log: Seq<LogEntry>, j: int, k: int)
    requires
        h.inv(),
        sound(h.reigns, log),
        0 <= j <= k < log.len(),
    ensures
        1 <= log[j].term <= log[k].term,
    decreases log[k].term, 1int,
{
    let t = log[k].term;
    sound_at(h.reigns, log, k);
    let g = h.reigns[t];
    assert(h.reign_ok(t));
    agree_at(log, g.log, k + 1, j);
    agree_at(log, g.log, k + 1, k);
    if j < g.start.len() {
        agree_at(g.start, g.log, g.start.len() as int, j);
        sound_terms(h, g.start, j, g.start.len() - 1);
    }
}

/// The longest common beginning of two logs.
proof fn longest_common(a: Seq<LogEntry>, b: Seq<LogEntry>, n: int) -> (m: int)
    requires
        0 <= n,
        agree(a, b, n),
    ensures
        n <= m,
        agree(a, b, m),
        !agree(a, b, m + 1),
    decreases a.len() - n,
{
    reveal(agree);
    if agree(a, b, n + 1) {
        longest_common(a, b, n + 1)
    } else {
        n
    }
}

/// What stands behind a configuration change in a sound log: its leader had
/// committed an entry of its own term and every change before.
proof fn change_behind(h: History, log: Seq<LogEntry>, k: int) -> (vq: (int, int))
    requires
        h.inv(),
        sound(h.reigns, log),
        0 <= k < log.len(),
        config_of(log[k]) is Some,
    ensures
        h.committed(log[k].term, vq.0, vq.1),
        h.reigns[log[k].term].start.len() < vq.0,
        vq.1 <= k,
        steady(log, vq.0, k),
        one_apart(h.config(log.take(k)), h.config(log.take(k + 1))),
        agree(log, h.reigns[log[k].term].log, k + 1),
{
    let t = log[k].term;
    sound_at(h.reigns, log, k);
    let g = h.reigns[t];
    assert(h.reign_ok(t));
    agree_at(log, g.log, k + 1, k);
    reign_terms(h, t, k);
    assert(h.change_ok(t, k));
    let (v, q) = choose|v: int, q: int| #[trigger]
        h.committed(t, v, q) && g.start.len() < v && q <= k && steady(g.log, v, k);
    assert forall|j: int| #![trigger log[j]] v <= j < k implies config_of(log[j]) is None by {
        agree_at(log, g.log, k + 1, j);
    }
    agree_takes(log, g.log, k + 1);
    agree_less(log, g.log, k + 1, k);
    agree_takes(log, g.log, k);
    (v, q)
}

/// The configurations of two elected logs are the same or one member apart,
/// where the later one has nothing of the earlier leader's own entries.
#[verifier::rlimit(30)]
proof fn elected_configs(
    h: History,
    t0: Term,
    start0: Seq<LogEntry>,
    leader0: NodeId,
    quorum0: Set<NodeId>,
    t: Term,
    start: Seq<LogEntry>,
    leader: NodeId,
    quorum: Set<NodeId>,
    late: bool,
)
    requires
        h.inv(),
        t0 < t || (late && t0 == t),
        h.won(t0, start0, leader0, quorum0, false),
        h.won(t, start, leader, quorum, late),
        last_term(start) < t0,
    ensures
        h.config(start0) == h.config(start) || one_apart(h.config(start0), h.config(start)),
    decreases t, if late { 1int } else { 0int }, t0, 0int, 1int,
{
    reveal(agree);
    let a = longest_common(start0, start, 0);
    let m = start0.len() as int;
    let n = start.len() as int;
    last_change_is_last(start0, a, m);
    last_change_is_last(start, a, n);
    assert(start0.take(m) =~= start0);
    assert(start.take(n) =~= start);
    agree_takes(start0, start, a);
    match (last_change(start0, a, m), last_change(start, a, n)) {
        (None, None) => {
            steady_config(start0, a, m);
            steady_config(start, a, n);
        },
        (Some(k), None) => {
            let v = change_in_common(h, t0, start0, t, start, leader, quorum, late, k, a);
            steady_config(start, a, n);
            steady_config(start0, k + 1, m);
            steady_config(start0, a, k);
        },
        (None, Some(k)) => {
            sound_terms(h, start, k, n - 1);
            let v = change_in_common_back(h, t0, start0, leader0, quorum0, t, start, late, k, a);
            steady_config(start0, a, m);
            steady_config(start, k + 1, n);
            steady_config(start, a, k);
        },
        (Some(k0), Some(k)) => {
            sound_terms(h, start, k, n - 1);
            let v0 = change_in_common(h, t0, start0, t, start, leader, quorum, late, k0, a);
            let v = change_in_common_back(h, t0, start0, leader0, quorum0, t, start, late, k, a);
            agree_at(start0, start, a, v0 - 1);
            agree_at(start0, start, a, v - 1);
            sound_terms(h, start, v0 - 1, k);
            sound_terms(h, start0, v - 1, k0);
            let u = start[k].term;
            assert(start0[k0].term == u);
            let g = h.reigns[u];
            sound_at(h.reigns, start0, k0);
            sound_at(h.reigns, start, k);
            let least = if k0 <= k { k0 } else { k };
            agree_less(start0, g.log, k0 + 1, least + 1);
            agree_less(start, g.log, k + 1, least + 1);
            agree_back(start, g.log, least + 1);
            agree_across(start0, g.log, start, least + 1);
            agree_less(start0, start, least + 1, a + 1);
        },
    }
}

/// What was committed before the earlier log's change at `k` is in the later
/// log too.
proof fn change_in_common(
    h: History,
    t0: Term,
    start0: Seq<LogEntry>,
    t: Term,
    start: Seq<LogEntry>,
    leader: NodeId,
    quorum: Set<NodeId>,
    late: bool,
    k: int,
    a: int,
) -> (v: int)
    requires
        h.inv(),
        t0 < t || (late && t0 == t),
        sound(h.reigns, start0),
        last_term(start0) < t0,
        h.won(t, start, leader, quorum, late),
        0 <= a <= k < start0.len(),
        config_of(start0[k]) is Some,
        agree(start0, start, a),
        !agree(start0, start, a + 1),
    ensures
        0 < v <= a,
        start0[v - 1].term == start0[k].term,
        steady(start0, v, k),
        one_apart(h.config(start0.take(k)), h.config(start0.take(k + 1))),
    decreases t, if late { 1int } else { 0int }, t0, 0int, 0int,
{
    let u = start0[k].term;
    sound_terms(h, start0, k, start0.len() - 1);
    let (v, q) = change_behind(h, start0, k);
    let g = h.reigns[u];
    complete(h, u, v, q, t, start, leader, quorum, late);
    agree_less(start0, g.log, k + 1, v);
    agree_at(start0, g.log, k + 1, v - 1);
    agree_across(start0, g.log, start, v);
    if v > a {
        agree_less(start0, start, v, a + 1);
    }
    v
}

/// What was committed before the later log's change at `k` is in the earlier
/// log too.
proof fn change_in_common_back(
    h: History,
    t0: Term,
    start0: Seq<LogEntry>,
    leader0: NodeId,
    quorum0: Set<NodeId>,
    t: Term,
    start: Seq<LogEntry>,
    late: bool,
    k: int,
    a: int,
) -> (v: int)
    requires
        h.inv(),
        t0 < t || (late && t0 == t),
        h.won(t0, start0, leader0, quorum0, false),
        sound(h.reigns, start),
        0 <= a <= k < start.len(),
        start[k].term < t0,
        config_of(start[k]) is Some,
        agree(start0, start, a),
        !agree(start0, start, a + 1),
    ensures
        0 < v <= a,
        start[v - 1].term == start[k].term,
        steady(start, v, k),
        one_apart(h.config(start.take(k)), h.config(start.take(k + 1))),
    decreases t, if late { 1int } else { 0int }, t0, 0int, 0int,
{
    let u = start[k].term;
    let (v, q) = change_behind(h, start, k);
    let g = h.reigns[u];
    complete(h, u, v, q, t0, start0, leader0, quorum0, false);
    agree_less(start, g.log, k + 1, v);
    agree_at(start, g.log, k + 1, v - 1);
    agree_across(start, g.log, start0, v);
    agree_back(start, start0, v);
    if v > a {
        agree_less(start0, start, v, a + 1);
    }
    v
}

/// A voter that held committed entries brings them to the log it elects.
proof fn voter_brings(
    h: History,
    t0: Term,
    i: int,
    q: int,
    t: Term,
    start: Seq<LogEntry>,
    leader: NodeId,
    quorum: Set<NodeId>,
    late: bool,
    id: NodeId,
)
    requires
        h.inv(),
        h.committed(t0, i, q),
        t0 < t,
        h.won(t, start, leader, quorum, late),
        quorum.contains(id),
        h.held_by(id, t0) >= i,
    ensures
        last_term(start) > t0 || (last_term(start) == t0 && start.len() >= i),
    decreases t, if late { 1int } else { 0int }, t0, q, 0int,
{
    let b = h.ballots[(id, t)];
    let log0 = h.reigns[t0].log;
    assert(h.ballot_ok(id, t));
    assert(h.kept(id, b.log, t - 1, latest(t, late)));
    if !agree(log0, b.log, i) {
        let t1 = choose|t1: Term| t0 < t1 <= latest(t, late) && #[trigger] h.superseded(t0, i, t1);
        let g = h.reigns[t1];
        assert(h.reign_ok(t1));
        complete(h, t0, i, q, t1, g.start, g.leader, g.quorum, false);
    }
    agree_at(log0, b.log, i, i - 1);
    sound_terms(h, b.log, i - 1, b.log.len() - 1);
}

/// Leader completeness: what a leader's term committed is in every log that a
/// majority elects later.
#[verifier::rlimit(30)]
pub proof fn complete(
    h: History,
    t0: Term,
    i: int,
    q: int,
    t: Term,
    start: Seq<LogEntry>,
    leader: NodeId,
    quorum: Set<NodeId>,
    late: bool,
)
    requires
        h.inv(),
        h.committed(t0, i, q),
        t0 < t,
        h.won(t, start, leader, quorum, late),
    ensures
        agree(h.reigns[t0].log, start, i),
    decreases t, if late { 1int } else { 0int }, t0, q, 1int,
{
    let g0 = h.reigns[t0];
    assert(h.reign_ok(t0));
    let u = last_term(start);
    reign_terms(h, t0, i - 1);
    if u > t0 {
        let n = start.len() as int;
        sound_at(h.reigns, start, n - 1);
        let g = h.reigns[u];
        assert(h.reign_ok(u));
        complete(h, t0, i, q, u, g.start, g.leader, g.quorum, false);
        agree_at(start, g.log, n, n - 1);
        reign_terms(h, u, n - 1);
        reveal(agree);
        agree_less(g.start, g.log, g.start.len() as int, i);
        agree_less(start, g.log, n, i);
        agree_back(start, g.log, i);
        agree_across(g.start, g.log, start, i);
        agree_across(g0.log, g.start, start, i);
    } else if u == t0 {
        let n = start.len() as int;
        sound_at(h.reigns, start, n - 1);
        agree_at(start, g0.log, n, n - 1);
        reign_terms(h, t0, n - 1);
        agree_back(start, g0.log, n);
        if i <= n {
            agree_less(g0.log, start, n, i);
        } else {
            agree_takes(g0.log, start, n);
            assert(start.take(n) =~= start);
            last_change_is_last(g0.log, n, q);
            match last_change(g0.log, n, q) {
                None => {
                    steady_config(g0.log, n, q);
                },
                Some(k) => {
                    let (v, q2) = change_behind(h, g0.log, k);
                    reign_terms(h, t0, k);
                    if v > n {
                        complete(h, t0, v, q2, t, start, leader, quorum, late);
                        reveal(agree);
                    }
                    steady_config(g0.log, n, k);
                    steady_config(g0.log, k + 1, q);
                },
            }
            let id = majorities_share(
                h.config(g0.log.take(q)),
                h.config(start),
                h.holders(t0, i),
                quorum,
            );
            voter_brings(h, t0, i, q, t, start, leader, quorum, late, id);
        }
    } else {
        let m = g0.start.len() as int;
        reveal(agree);
        last_change_is_last(g0.log, m, q);
        match last_change(g0.log, m, q) {
            None => {
                steady_config(g0.log, m, q);
                agree_takes(g0.start, g0.log, m);
                assert(g0.start.take(m) =~= g0.start);
                elected_configs(
                    h,
                    t0,
                    g0.start,
                    g0.leader,
                    g0.quorum,
                    t,
                    start,
                    leader,
                    quorum,
                    late,
                );
                let id = majorities_share(
                    h.config(g0.log.take(q)),
                    h.config(start),
                    h.holders(t0, i),
                    quorum,
                );
                voter_brings(h, t0, i, q, t, start, leader, quorum, late, id);
            },
            Some(k) => {
                reign_terms(h, t0, k);
                let (v, q2) = change_behind(h, g0.log, k);
                complete(h, t0, v, q2, t, start, leader, quorum, late);
                agree_at(g0.log, start, v, v - 1);
                reign_terms(h, t0, v - 1);
                sound_terms(h, start, v - 1, start.len() - 1);
            },
        }
    }
}

/// Election safety: a majority's vote in a term that has a leader can only be
/// for that leader.
pub proof fn one_winner(
    h: History,
    t: Term,
    start: Seq<LogEntry>,
    leader: NodeId,
    quorum: Set<NodeId>,
)
    requires
        h.inv(),
        h.reigns.contains_key(t),
        h.won(t, start, leader, quorum, true),
    ensures
        h.reigns[t].leader == leader,
{
    let g = h.reigns[t];
    assert(h.reign_ok(t));
    elected_configs(h, t, g.start, g.leader, g.quorum, t, start, leader, quorum, true);
    let id = majorities_share(h.config(g.start), h.config(start), g.quorum, quorum);
    assert(g.quorum.contains(id));
}

/// The configuration a leader goes by and the one that elected the next leader
/// are the same or one member apart.
pub proof fn neighbours_meet(h: History, t: Term, t1: Term)
    requires
        h.inv(),
        h.reigns.contains_key(t),
        h.reigns.contains_key(t1),
        t < t1,
        last_term(h.reigns[t1].start) <= t,
    ensures
        ({
            let a = h.config(h.reigns[t].log);
            let b = h.config(h.reigns[t1].start);
            a == b || one_apart(a, b)
        }),
{
    let g = h.reigns[t];
    let g1 = h.reigns[t1];
    let q = g.log.len() as int;
    let n = g1.start.len() as int;
    assert(h.reign_ok(t));
    assert(h.reign_ok(t1));
    assert(g.log.take(q) =~= g.log);
    reveal(agree);
    if last_term(g1.start) == t {
        sound_at(h.reigns, g1.start, n - 1);
        agree_at(g1.start, g.log, n, n - 1);
        reign_terms(h, t, n - 1);
        agree_takes(g1.start, g.log, n);
        assert(g1.start.take(n) =~= g1.start);
        last_change_is_last(g.log, n, q);
        match last_change(g.log, n, q) {
            None => {
                steady_config(g.log, n, q);
            },
            Some(k) => {
                reign_terms(h, t, k);
                let (v, q2) = change_behind(h, g.log, k);
                if v > n {
                    complete(h, t, v, q2, t1, g1.start, g1.leader, g1.quorum, false);
                }
                steady_config(g.log, n, k);
                steady_config(g.log, k + 1, q);
            },
        }
    } else {
        let m = g.start.len() as int;
        last_change_is_last(g.log, m, q);
        match last_change(g.log, m, q) {
            None => {
                steady_config(g.log, m, q);
                agree_takes(g.start, g.log, m);
                assert(g.start.take(m) =~= g.start);
                elected_configs(
                    h,
                    t,
                    g.start,
                    g.leader,
                    g.quorum,
                    t1,
                    g1.start,
                    g1.leader,
                    g1.quorum,
                    false,
                );
            },
            Some(k) => {
                reign_terms(h, t, k);
                let (v, q2) = change_behind(h, g.log, k);
                complete(h, t, v, q2, t1, g1.start, g1.leader, g1.quorum, false);
                agree_at(g.log, g1.start, v, v - 1);
                reign_terms(h, t, v - 1);
                sound_terms(h, g1.start, v - 1, n - 1);
            },
        }
    }
}

/// The least term above `t` with a leader that a pulse has seen.
proof fn least_seen(p: Pulse, t: Term, t1: Term) -> (least: Term)
    requires
        p.found.contains_key(t1),
        t1 > t,
    ensures
        p.found.contains_key(least),
        least > t,
        forall|u: Term| #[trigger] p.found.contains_key(u) ==> u <= t || u >= least,
    decreases t1,
{
    if forall|u: Term| #[trigger] p.found.contains_key(u) ==> u <= t || u >= t1 {
        t1
    } else {
        let u = choose|u: Term| #[trigger] p.found.contains_key(u) && !(u <= t || u >= t1);
        least_seen(p, t, u)
    }
}

/// If a majority was still at a leader's term when a read was registered, no
/// later leader had been elected by then: nothing was found committed beyond
/// what the read has to reflect.
pub proof fn no_later_leader(h: History, t: Term, p: Pulse, acked: Set<NodeId>)
    requires
        h.inv(),
        h.reigns.contains_key(t),
        h.pulse_ok(t, p),
        majority(h.config(h.reigns[t].log), acked),
        forall|id: NodeId| #[trigger]
            acked.contains(id) && p.terms.contains_key(id) ==> p.terms[id] <= t,
    ensures
        forall|t0: Term| #[trigger] p.found.contains_key(t0) ==> p.found[t0] <= p.bound,
{
    if exists|t1: Term| #[trigger] p.found.contains_key(t1) && t1 > t {
        let some = choose|t1: Term| #[trigger] p.found.contains_key(t1) && t1 > t;
        let t1 = least_seen(p, t, some);
        assert(h.seen_ok(p, t1));
        let g1 = h.reigns[t1];
        assert(h.reign_ok(t1));
        neighbours_meet(h, t, t1);
        let id = majorities_share(
            h.config(h.reigns[t].log),
            h.config(g1.start),
            acked,
            g1.quorum,
        );
        assert(acked.contains(id) && g1.quorum.contains(id));
    }
}

} // verus!
