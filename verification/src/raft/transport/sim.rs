//! A simulated network with seeded, controllable faults.
//!
//! A [`SimNetwork`] decides the fate of every message between registered
//! nodes. Every message *leg* (request and reply separately) gets a random
//! delay and an independent drop decision from a single seeded
//! [`SplitMix64`], so a run is fully reproducible from its seed. All random
//! decisions for a send are drawn up front: a fixed number of draws per send,
//! independent of how the delays later interleave.
//!
//! Fault control:
//! - [`FaultConfig`]: delay range, per-leg drop probability, request
//!   duplication probability, RPC timeout; swappable at runtime.
//! - Directed link blocking.
//!
//! Link state is sampled once per leg (request: at send; reply: when the
//! handler answers), so a block landing mid-flight does not retroactively
//! destroy a message already "on the wire".
//!
//! The network also acts as an event-level safety observer: every
//! AppendEntries passing through is inspected for
//! - Election Safety (§5.2): the message is a leadership claim
//!   `(term, leader_id)`; two different claimants for one term violate it;
//! - Log Matching (§5.3): every shipped entry claims "the entry at
//!   `(term, index)` is this command"; two different commands ever shipped
//!   under one `(term, index)` violate it;
//! - well-formedness: entries must continue contiguously from
//!   `prev_log_index` with non-decreasing terms never above the leader's.
//!
//! Only order-independent properties of message *contents* are checked.

use serde_json::Value;
use vstd::prelude::*;
use vstd::string::*;

use super::TransportError;
use crate::raft::peers::{PeerTable, VoteSet};
use crate::raft::rpc::{AppendEntriesArgs, AppendModel, RequestModel, RpcRequest};
use crate::raft::types::{Command, LogEntry, LogIndex, NodeId, Session, Term};
use crate::rng::{advance, counter, draw, mix, reduce, SplitMix64};
use crate::text::{decimal, push_decimal};

verus! {

/// Whether two JSON values compare equal.
pub uninterp spec fn values_equal(a: Value, b: Value) -> bool;

/// `serde_json::Value`'s `==`: structural comparison. A value compares equal
/// to itself (JSON numbers are never NaN).
#[verifier::external_body]
fn same_value(a: &Value, b: &Value) -> (same: bool)
    ensures
        same == values_equal(*a, *b),
        *a == *b ==> same,
{
    a == b
}

/// Whether two commands say the same.
pub open spec fn commands_match(a: Command, b: Command) -> bool {
    match (a, b) {
        (
            Command::Put { key: k1, value: v1, session: s1 },
            Command::Put { key: k2, value: v2, session: s2 },
        ) => k1@ == k2@ && values_equal(v1, v2) && s1 == s2,
        (
            Command::Delete { key: k1, session: s1 },
            Command::Delete { key: k2, session: s2 },
        ) => k1@ == k2@ && s1 == s2,
        (Command::Noop, Command::Noop) => true,
        (Command::ConfigChange { members: m1 }, Command::ConfigChange { members: m2 }) => {
            m1.addrs() == m2.addrs()
        },
        _ => false,
    }
}

fn same_session(a: &Option<Session>, b: &Option<Session>) -> (same: bool)
    ensures
        same == (*a == *b),
{
    match (a, b) {
        (None, None) => true,
        (Some(x), Some(y)) => x.client == y.client && x.seq == y.seq,
        _ => false,
    }
}

fn same_command(a: &Command, b: &Command) -> (same: bool)
    ensures
        same == commands_match(*a, *b),
{
    match (a, b) {
        (
            Command::Put { key: k1, value: v1, session: s1 },
            Command::Put { key: k2, value: v2, session: s2 },
        ) => *k1 == *k2 && same_value(v1, v2) && same_session(s1, s2),
        (
            Command::Delete { key: k1, session: s1 },
            Command::Delete { key: k2, session: s2 },
        ) => *k1 == *k2 && same_session(s1, s2),
        (Command::Noop, Command::Noop) => true,
        (Command::ConfigChange { members: m1 }, Command::ConfigChange { members: m2 }) => {
            m1.same_as(m2)
        },
        _ => false,
    }
}

/// Fault parameters. Times are in microseconds; probabilities are counted in
/// units of 2^-53.
#[derive(Debug, Clone, Copy, PartialEq, Eq, Structural)]
pub struct FaultConfig {
    /// Delay bounds applied independently to each message leg.
    pub min_delay: u64,
    pub max_delay: u64,
    /// Probability that a given leg is silently lost.
    pub drop_threshold: u64,
    /// Probability that a request is delivered twice. The duplicate is an
    /// independent copy with its own delay whose reply goes nowhere; it is
    /// delivered even if the primary copy is dropped (one copy lost, the
    /// other not), but never through a blocked link.
    pub duplicate_threshold: u64,
    /// How long a sender waits for the reply before giving up.
    pub rpc_timeout: u64,
}

impl Default for FaultConfig {
    fn default() -> (config: Self)
        ensures
            config == (FaultConfig {
                min_delay: 1_000,
                max_delay: 10_000,
                drop_threshold: 0,
                duplicate_threshold: 0,
                rpc_timeout: 100_000,
            }),
    {
        FaultConfig {
            min_delay: 1_000,
            max_delay: 10_000,
            drop_threshold: 0,
            duplicate_threshold: 0,
            rpc_timeout: 100_000,
        }
    }
}

// ---- the safety observer ----

/// What the observer has seen.
#[verifier::ext_equal]
pub struct ObserverModel {
    /// First node seen claiming leadership of each term.
    pub leaders: Map<Term, NodeId>,
    /// First command seen shipped at each (term, index).
    pub seen: Map<(Term, LogIndex), Command>,
    /// Violations, oldest first.
    pub violations: Seq<Seq<char>>,
}

/// What is said of two claimants for one term.
pub open spec fn claim_text(known: NodeId, other: NodeId, term: Term) -> Seq<char> {
    "election safety violated: nodes "@ + decimal(known as nat) + " and "@ + decimal(other as nat)
        + " both sent AppendEntries as leader of term "@ + decimal(term as nat)
}

/// What is said of two commands under one (term, index).
pub open spec fn matching_text(term: Term, index: LogIndex) -> Seq<char> {
    "log matching violated: two different commands shipped for (term "@ + decimal(term as nat)
        + ", index "@ + decimal(index as nat) + ")"@
}

/// What is said of an entry that is not the next one.
pub open spec fn gap_text(args: AppendModel, i: int) -> Seq<char> {
    "malformed AppendEntries from node "@ + decimal(args.leader_id as nat) + ": entry index "@
        + decimal(args.entries[i].index as nat) + " where "@ + decimal(
        (args.prev_log_index + 1 + i) as nat,
    ) + " was expected (prev_log_index "@ + decimal(args.prev_log_index as nat) + ")"@
}

/// The term that entry `i` of a batch must reach.
pub open spec fn least_term(args: AppendModel, i: int) -> Term {
    if i == 0 {
        args.prev_log_term
    } else {
        args.entries[i - 1].term
    }
}

/// What is said of an entry whose term is out of line.
pub open spec fn term_text(args: AppendModel, i: int) -> Seq<char> {
    "malformed AppendEntries from node "@ + decimal(args.leader_id as nat) + ": entry (term "@
        + decimal(args.entries[i].term as nat) + ", index "@ + decimal(
        args.entries[i].index as nat,
    ) + ") outside ["@ + decimal(least_term(args, i) as nat) + ", "@ + decimal(args.term as nat)
        + "]"@
}

/// What is wrong with entry `i` of a batch.
pub open spec fn entry_fault(args: AppendModel, i: int) -> Option<Seq<char>> {
    if args.entries[i].index != args.prev_log_index + 1 + i {
        Some(gap_text(args, i))
    } else if args.entries[i].term < least_term(args, i) || args.entries[i].term > args.term {
        Some(term_text(args, i))
    } else {
        None
    }
}

/// What is wrong with the first `upto` entries of a batch: the first fault.
pub open spec fn shape_fault(args: AppendModel, upto: int) -> Option<Seq<char>>
    decreases upto,
{
    if upto <= 0 {
        None
    } else {
        match shape_fault(args, upto - 1) {
            Some(fault) => Some(fault),
            None => entry_fault(args, upto - 1),
        }
    }
}

impl ObserverModel {
    /// An observer that has seen nothing.
    pub open spec fn fresh() -> Self {
        ObserverModel { leaders: Map::empty(), seen: Map::empty(), violations: Seq::empty() }
    }

    pub open spec fn report(self, text: Seq<char>) -> Self {
        ObserverModel { violations: self.violations.push(text), ..self }
    }

    /// After the claim to lead `term`.
    pub open spec fn after_claim(self, term: Term, leader: NodeId) -> Self {
        if !self.leaders.contains_key(term) {
            ObserverModel { leaders: self.leaders.insert(term, leader), ..self }
        } else if self.leaders[term] != leader {
            self.report(claim_text(self.leaders[term], leader, term))
        } else {
            self
        }
    }

    /// After a look at the batch's shape.
    pub open spec fn after_shape(self, args: AppendModel) -> Self {
        match shape_fault(args, args.entries.len() as int) {
            Some(text) => self.report(text),
            None => self,
        }
    }

    /// After one shipped entry.
    pub open spec fn after_entry(self, entry: LogEntry) -> Self {
        let place = (entry.term, entry.index);
        if !self.seen.contains_key(place) {
            ObserverModel { seen: self.seen.insert(place, entry.command), ..self }
        } else if !commands_match(self.seen[place], entry.command) {
            self.report(matching_text(entry.term, entry.index))
        } else {
            self
        }
    }

    /// After a run of shipped entries.
    pub open spec fn after_entries(self, entries: Seq<LogEntry>) -> Self
        decreases entries.len(),
    {
        if entries.len() == 0 {
            self
        } else {
            self.after_entries(entries.drop_last()).after_entry(entries.last())
        }
    }

    /// After one AppendEntries.
    pub open spec fn after_append(self, args: AppendModel) -> Self {
        self.after_claim(args.term, args.leader_id).after_shape(args).after_entries(args.entries)
    }

    /// After one request: only AppendEntries carries claims. In particular a
    /// pre-vote is a non-binding probe, not a leadership claim.
    pub open spec fn after_request<P>(self, request: RequestModel<P>) -> Self {
        match request {
            RequestModel::AppendEntries(args) => self.after_append(args),
            _ => self,
        }
    }
}

/// The texts of a list of strings.
pub open spec fn texts_of(list: Seq<String>) -> Seq<Seq<char>> {
    list.map_values(|s: String| s@)
}

/// The event-level safety observer.
pub struct Observer {
    leaders_per_term: PeerTable,
    entries_seen: Vec<(Term, LogIndex, Command)>,
    violations: Vec<String>,
}

/// Whether something was seen at (term, index).
pub closed spec fn recorded(rows: Seq<(Term, LogIndex, Command)>, at: (Term, LogIndex)) -> bool {
    exists|i: int| 0 <= i < rows.len() && (#[trigger] rows[i]).0 == at.0 && rows[i].1 == at.1
}

/// What was seen at (term, index).
pub closed spec fn recorded_command(
    rows: Seq<(Term, LogIndex, Command)>,
    at: (Term, LogIndex),
) -> Command {
    rows[choose|i: int|
        0 <= i < rows.len() && (#[trigger] rows[i]).0 == at.0 && rows[i].1 == at.1].2
}

impl View for Observer {
    type V = ObserverModel;

    closed spec fn view(&self) -> ObserverModel {
        ObserverModel {
            leaders: self.leaders_per_term@,
            seen: Map::new(
                |at: (Term, LogIndex)| recorded(self.entries_seen@, at),
                |at: (Term, LogIndex)| recorded_command(self.entries_seen@, at),
            ),
            violations: texts_of(self.violations@),
        }
    }
}

impl Observer {
    /// One row per term, and per (term, index).
    pub closed spec fn wf(&self) -> bool {
        &&& self.leaders_per_term.wf()
        &&& forall|i: int, j: int|
            #![trigger self.entries_seen[i], self.entries_seen[j]]
            0 <= i < j < self.entries_seen.len() ==> self.entries_seen[i].0
                != self.entries_seen[j].0 || self.entries_seen[i].1 != self.entries_seen[j].1
    }

    /// An observer that has seen nothing.
    pub fn new() -> (observer: Self)
        ensures
            observer.wf(),
            observer@ == ObserverModel::fresh(),
    {
        let observer = Observer {
            leaders_per_term: PeerTable::new(),
            entries_seen: Vec::new(),
            violations: Vec::new(),
        };
        assert(observer@ =~= ObserverModel::fresh());
        observer
    }

    fn report(&mut self, text: String)
        requires
            old(self).wf(),
        ensures
            final(self).wf(),
            final(self)@ == old(self)@.report(text@),
    {
        self.violations.push(text);
        assert(self@ =~= old(self)@.report(text@));
    }

    /// Violations seen so far, oldest first.
    pub fn violations(&self) -> (list: Vec<String>)
        ensures
            texts_of(list@) == self@.violations,
    {
        let mut list: Vec<String> = Vec::new();
        let mut i: usize = 0;
        while i < self.violations.len()
            invariant
                i <= self.violations.len(),
                list@ == self.violations@.take(i as int),
            decreases self.violations.len() - i,
        {
            list.push(self.violations[i].clone());
            i += 1;
            assert(list@ =~= self.violations@.take(i as int));
        }
        assert(self.violations@.take(self.violations.len() as int) =~= self.violations@);
        list
    }

    /// Election Safety (§5.2): "I lead term T" must have a unique claimant.
    fn observe_claim(&mut self, term: Term, leader: NodeId)
        requires
            old(self).wf(),
        ensures
            final(self).wf(),
            final(self)@ == old(self)@.after_claim(term, leader),
    {
        match self.leaders_per_term.get(term) {
            None => {
                self.leaders_per_term.set(term, leader);
                assert(self@ =~= old(self)@.after_claim(term, leader));
            },
            Some(known) => {
                if known != leader {
                    let mut text = String::from_str("election safety violated: nodes ");
                    push_decimal(&mut text, known as u128);
                    text.append(" and ");
                    push_decimal(&mut text, leader as u128);
                    text.append(" both sent AppendEntries as leader of term ");
                    push_decimal(&mut text, term as u128);
                    self.report(text);
                }
            },
        }
    }

    /// Well-formedness: entries continue contiguously from prev_log_index
    /// with non-decreasing terms, none newer than the sender's own term.
    fn check_shape(&mut self, args: &AppendEntriesArgs)
        requires
            old(self).wf(),
        ensures
            final(self).wf(),
            final(self)@ == old(self)@.after_shape(args@),
    {
        let mut i: usize = 0;
        let mut min_term: u64 = args.prev_log_term;
        while i < args.entries.len()
            invariant
                i <= args.entries.len(),
                *self == *old(self),
                old(self).wf(),
                min_term == least_term(args@, i as int),
                shape_fault(args@, i as int) is None,
            decreases args.entries.len() - i,
        {
            let index: u64 = args.entries[i].index;
            let term: u64 = args.entries[i].term;
            let expected: u128 = args.prev_log_index as u128 + 1 + i as u128;
            if index as u128 != expected {
                let mut text = String::from_str("malformed AppendEntries from node ");
                push_decimal(&mut text, args.leader_id as u128);
                text.append(": entry index ");
                push_decimal(&mut text, index as u128);
                text.append(" where ");
                push_decimal(&mut text, expected);
                text.append(" was expected (prev_log_index ");
                push_decimal(&mut text, args.prev_log_index as u128);
                text.append(")");
                proof {
                    lemma_shape_fault_stays(args@, i + 1, args.entries.len() as int);
                }
                self.report(text);
                return;
            }
            if term < min_term || term > args.term {
                let mut text = String::from_str("malformed AppendEntries from node ");
                push_decimal(&mut text, args.leader_id as u128);
                text.append(": entry (term ");
                push_decimal(&mut text, term as u128);
                text.append(", index ");
                push_decimal(&mut text, index as u128);
                text.append(") outside [");
                push_decimal(&mut text, min_term as u128);
                text.append(", ");
                push_decimal(&mut text, args.term as u128);
                text.append("]");
                proof {
                    lemma_shape_fault_stays(args@, i + 1, args.entries.len() as int);
                }
                self.report(text);
                return;
            }
            min_term = term;
            i += 1;
        }
    }

    /// Log Matching (§5.3): a (term, index) names one command, forever,
    /// across every leader, retransmission and duplicate.
    fn observe_entry(&mut self, entry: &LogEntry)
        requires
            old(self).wf(),
        ensures
            final(self).wf(),
            final(self)@ == old(self)@.after_entry(*entry),
    {
        let ghost at = (entry.term, entry.index);
        let mut i: usize = 0;
        while i < self.entries_seen.len()
            invariant
                i <= self.entries_seen.len(),
                *self == *old(self),
                old(self).wf(),
                at == (entry.term, entry.index),
                forall|j: int|
                    #![trigger self.entries_seen[j]]
                    0 <= j < i ==> self.entries_seen[j].0 != at.0 || self.entries_seen[j].1 != at.1,
            decreases self.entries_seen.len() - i,
        {
            if self.entries_seen[i].0 == entry.term && self.entries_seen[i].1 == entry.index {
                proof {
                    let rows = self.entries_seen@;
                    assert(rows[i as int].0 == at.0);
                    let k = choose|k: int|
                        0 <= k < rows.len() && (#[trigger] rows[k]).0 == at.0 && rows[k].1 == at.1;
                    assert(rows[k].0 == at.0);
                    assert(k == i);
                }
                if !same_command(&self.entries_seen[i].2, &entry.command) {
                    let mut text = String::from_str(
                        "log matching violated: two different commands shipped for (term ",
                    );
                    push_decimal(&mut text, entry.term as u128);
                    text.append(", index ");
                    push_decimal(&mut text, entry.index as u128);
                    text.append(")");
                    self.report(text);
                }
                return;
            }
            i += 1;
        }
        self.entries_seen.push((entry.term, entry.index, entry.command.clone()));
        proof {
            let before = old(self).entries_seen@;
            let after = self.entries_seen@;
            let last = before.len() as int;
            assert(after[last] == (entry.term, entry.index, entry.command));
            assert forall|k: (Term, LogIndex)| recorded(after, k) == (recorded(before, k) || k
                == at) by {
                if recorded(before, k) {
                    let j = choose|j: int|
                        0 <= j < before.len() && (#[trigger] before[j]).0 == k.0 && before[j].1
                            == k.1;
                    assert(after[j] == before[j]);
                }
                if recorded(after, k) && k != at {
                    let j = choose|j: int|
                        0 <= j < after.len() && (#[trigger] after[j]).0 == k.0 && after[j].1 == k.1;
                    assert(after[j] == before[j]);
                }
            }
            assert forall|k: (Term, LogIndex)| recorded(after, k) implies recorded_command(after, k)
                == if k == at {
                entry.command
            } else {
                recorded_command(before, k)
            } by {
                let j = choose|j: int|
                    0 <= j < after.len() && (#[trigger] after[j]).0 == k.0 && after[j].1 == k.1;
                if k != at {
                    assert(after[j] == before[j]);
                    let b = choose|b: int|
                        0 <= b < before.len() && (#[trigger] before[b]).0 == k.0 && before[b].1
                            == k.1;
                    assert(before[b].0 == before[j].0);
                    assert(b == j);
                } else if j != last {
                    assert(after[j] == before[j]);
                }
            }
            assert(self@ =~= old(self)@.after_entry(*entry));
        }
    }

    /// Looks at one request on its way.
    pub fn inspect_append_entries<P>(&mut self, request: &RpcRequest<P>)
        requires
            old(self).wf(),
        ensures
            final(self).wf(),
            final(self)@ == old(self)@.after_request(request@),
    {
        if let RpcRequest::AppendEntries(args) = request {
            self.observe_claim(args.term, args.leader_id);
            self.check_shape(args);
            let ghost start = self@;
            let mut i: usize = 0;
            assert(args.entries@.take(0) =~= Seq::empty());
            while i < args.entries.len()
                invariant
                    i <= args.entries.len(),
                    self.wf(),
                    self@ == start.after_entries(args.entries@.take(i as int)),
                decreases args.entries.len() - i,
            {
                self.observe_entry(&args.entries[i]);
                assert(args.entries@.take(i + 1).drop_last() =~= args.entries@.take(i as int));
                i += 1;
            }
            assert(args.entries@.take(args.entries.len() as int) =~= args.entries@);
        }
    }
}

proof fn lemma_shape_fault_stays(args: AppendModel, from: int, upto: int)
    requires
        0 <= from <= upto,
        shape_fault(args, from) is Some,
    ensures
        shape_fault(args, upto) == shape_fault(args, from),
    decreases upto,
{
    if from < upto {
        lemma_shape_fault_stays(args, from, upto - 1);
    }
}

// ---- the network ----

/// Everything random about one send, drawn up front.
#[derive(Debug, Clone, Copy, PartialEq, Eq, Structural)]
pub struct SendPlan {
    /// Whether the destination is registered.
    pub known: bool,
    pub req_blocked: bool,
    pub req_dropped: bool,
    pub req_delay: u64,
    pub resp_dropped: bool,
    pub resp_delay: u64,
    pub req_duplicated: bool,
    pub dup_delay: u64,
    pub rpc_timeout: u64,
}

impl SendPlan {
    /// Whether a second copy is sent, on its own clock.
    pub fn sends_duplicate(&self) -> (sends: bool)
        ensures
            sends == (self.req_duplicated && !self.req_blocked),
    {
        self.req_duplicated && !self.req_blocked
    }

    /// Whether the request itself gets through.
    pub fn request_arrives(&self) -> (arrives: bool)
        ensures
            arrives == !(self.req_blocked || self.req_dropped),
    {
        !(self.req_blocked || self.req_dropped)
    }

    /// Whether the reply gets through, given the link's state when the
    /// handler answered.
    pub fn reply_arrives(&self, reply_blocked: bool) -> (arrives: bool)
        ensures
            arrives == !(self.resp_dropped || reply_blocked),
    {
        !(self.resp_dropped || reply_blocked)
    }

    /// The error that a send to `to` ends in at once: nobody is registered
    /// there.
    pub fn refusal(&self, to: NodeId) -> (error: Option<TransportError>)
        ensures
            error == if self.known {
                None::<TransportError>
            } else {
                Some(TransportError::Unreachable(to))
            },
    {
        if self.known {
            None
        } else {
            Some(TransportError::Unreachable(to))
        }
    }

    /// The error that the sender is left with once its time is up: a lost leg
    /// shows as nothing but silence.
    pub fn loss(&self, reply_blocked: bool) -> (error: Option<TransportError>)
        ensures
            error == if !(self.req_blocked || self.req_dropped) && !(self.resp_dropped
                || reply_blocked) {
                None::<TransportError>
            } else {
                Some(TransportError::Timeout)
            },
    {
        if self.request_arrives() && self.reply_arrives(reply_blocked) {
            None
        } else {
            Some(TransportError::Timeout)
        }
    }

    /// What the sender gets: the reply that came in time, or an error.
    pub fn conclude<T>(&self, to: NodeId, reply: Option<T>) -> (outcome: Result<T, TransportError>)
        ensures
            outcome == if !self.known {
                Err(TransportError::Unreachable(to))
            } else {
                match reply {
                    Some(heard) => Ok(heard),
                    None => Err(TransportError::Timeout),
                }
            },
    {
        match self.refusal(to) {
            Some(error) => Err(error),
            None => match reply {
                Some(heard) => Ok(heard),
                None => Err(TransportError::Timeout),
            },
        }
    }
}

/// Whether a draw falls below a threshold out of 2^53.
pub open spec fn hits(draw: u64, threshold: u64) -> bool {
    (draw >> 11) < threshold
}

/// The plan that six draws make.
pub open spec fn planned(
    state: u64,
    config: FaultConfig,
    known: bool,
    blocked: bool,
) -> SendPlan {
    SendPlan {
        known,
        req_blocked: blocked,
        req_dropped: hits(draw(state, 1), config.drop_threshold),
        req_delay: reduce(config.min_delay, config.max_delay, draw(state, 2)),
        resp_dropped: hits(draw(state, 3), config.drop_threshold),
        resp_delay: reduce(config.min_delay, config.max_delay, draw(state, 4)),
        req_duplicated: hits(draw(state, 5), config.duplicate_threshold),
        dup_delay: reduce(config.min_delay, config.max_delay, draw(state, 6)),
        rpc_timeout: config.rpc_timeout,
    }
}

/// The state of the network.
#[verifier::ext_equal]
pub struct SimModel {
    pub rng: u64,
    pub config: FaultConfig,
    pub nodes: Set<NodeId>,
    /// Directed `(from, to)` pairs whose messages are dropped.
    pub blocked: Set<(NodeId, NodeId)>,
    pub observer: ObserverModel,
}

/// The shared fabric.
pub struct SimNetwork {
    rng: SplitMix64,
    config: FaultConfig,
    nodes: VoteSet,
    blocked: Vec<(NodeId, NodeId)>,
    observer: Observer,
}

impl View for SimNetwork {
    type V = SimModel;

    closed spec fn view(&self) -> SimModel {
        SimModel {
            rng: self.rng@,
            config: self.config,
            nodes: self.nodes@,
            blocked: self.blocked@.to_set(),
            observer: self.observer@,
        }
    }
}

impl SimNetwork {
    pub closed spec fn wf(&self) -> bool {
        &&& self.observer.wf()
        &&& self.blocked@.no_duplicates()
        &&& self.nodes.wf()
    }

    /// A network without nodes, whose faults follow from `seed`.
    pub fn new(seed: u64, config: FaultConfig) -> (net: Self)
        ensures
            net.wf(),
            net@ == (SimModel {
                rng: seed,
                config,
                nodes: Set::empty(),
                blocked: Set::empty(),
                observer: ObserverModel::fresh(),
            }),
    {
        let net = SimNetwork {
            rng: SplitMix64::new(seed),
            config,
            nodes: VoteSet::new(),
            blocked: Vec::new(),
            observer: Observer::new(),
        };
        assert(net@.blocked =~= Set::empty());
        net
    }

    /// Attaches a node. Registering an id again changes nothing here (a
    /// restarted node).
    pub fn register(&mut self, id: NodeId)
        requires
            old(self).wf(),
        ensures
            final(self).wf(),
            final(self)@ == (SimModel { nodes: old(self)@.nodes.insert(id), ..old(self)@ }),
    {
        self.nodes.insert(id);
    }

    fn find_block(&self, from: NodeId, to: NodeId) -> (found: Option<usize>)
        ensures
            match found {
                Some(i) => {
                    &&& i < self.blocked.len()
                    &&& self.blocked[i as int] == (from, to)
                    &&& self@.blocked.contains((from, to))
                },
                None => !self@.blocked.contains((from, to)),
            },
    {
        let mut i: usize = 0;
        while i < self.blocked.len()
            invariant
                i <= self.blocked.len(),
                forall|j: int| 0 <= j < i ==> self.blocked@[j] != (from, to),
            decreases self.blocked.len() - i,
        {
            let pair = self.blocked[i];
            if pair.0 == from && pair.1 == to {
                assert(self.blocked@[i as int] == (from, to));
                assert(self.blocked@.contains((from, to)));
                return Some(i);
            }
            i += 1;
        }
        None
    }

    /// Whether messages in the `from → to` direction are dropped.
    pub fn is_blocked(&self, from: NodeId, to: NodeId) -> (blocked: bool)
        ensures
            blocked == self@.blocked.contains((from, to)),
    {
        self.find_block(from, to).is_some()
    }

    /// Blocks or unblocks messages in the `from → to` direction only.
    pub fn set_link_blocked(&mut self, from: NodeId, to: NodeId, blocked: bool)
        requires
            old(self).wf(),
        ensures
            final(self).wf(),
            final(self)@ == (SimModel {
                blocked: if blocked {
                    old(self)@.blocked.insert((from, to))
                } else {
                    old(self)@.blocked.remove((from, to))
                },
                ..old(self)@
            }),
    {
        let ghost before = self.blocked@;
        match self.find_block(from, to) {
            Some(i) => {
                if blocked {
                    assert(self@.blocked =~= old(self)@.blocked.insert((from, to)));
                } else {
                    self.blocked.remove(i);
                    proof {
                        let after = self.blocked@;
                        assert(after == before.remove(i as int));
                        assert forall|k: (NodeId, NodeId)| #[trigger]
                            after.contains(k) <==> before.contains(k) && k != (from, to) by {
                            if after.contains(k) {
                                let j = choose|j: int| 0 <= j < after.len() && after[j] == k;
                                if j < i {
                                    assert(before[j] == k);
                                } else {
                                    assert(before[j + 1] == k);
                                }
                            }
                            if before.contains(k) && k != (from, to) {
                                let j = choose|j: int| 0 <= j < before.len() && before[j] == k;
                                if j < i {
                                    assert(after[j] == k);
                                } else {
                                    assert(after[j - 1] == k);
                                }
                            }
                        }
                        assert(self@.blocked =~= old(self)@.blocked.remove((from, to)));
                    }
                }
            },
            None => {
                if blocked {
                    self.blocked.push((from, to));
                    proof {
                        let after = self.blocked@;
                        assert(after == before.push((from, to)));
                        assert(!before.contains((from, to)));
                        assert forall|k: (NodeId, NodeId)| #[trigger]
                            after.contains(k) <==> before.contains(k) || k == (from, to) by {
                            if before.contains(k) {
                                let j = choose|j: int| 0 <= j < before.len() && before[j] == k;
                                assert(after[j] == k);
                            }
                            assert(after[before.len() as int] == (from, to));
                        }
                        assert(self@.blocked =~= old(self)@.blocked.insert((from, to)));
                    }
                } else {
                    assert(self@.blocked =~= old(self)@.blocked.remove((from, to)));
                }
            },
        }
    }

    /// Blocks or unblocks both directions between `a` and `b`.
    pub fn set_pair_blocked(&mut self, a: NodeId, b: NodeId, blocked: bool)
        requires
            old(self).wf(),
        ensures
            final(self).wf(),
            final(self)@ == (SimModel {
                blocked: if blocked {
                    old(self)@.blocked.insert((a, b)).insert((b, a))
                } else {
                    old(self)@.blocked.remove((a, b)).remove((b, a))
                },
                ..old(self)@
            }),
    {
        self.set_link_blocked(a, b, blocked);
        self.set_link_blocked(b, a, blocked);
    }

    /// Replaces the fault parameters for all subsequent sends.
    pub fn set_fault_config(&mut self, config: FaultConfig)
        requires
            old(self).wf(),
        ensures
            final(self).wf(),
            final(self)@ == (SimModel { config, ..old(self)@ }),
    {
        self.config = config;
    }

    /// Safety violations seen so far: Election Safety (two distinct nodes
    /// claiming leadership of one term), Log Matching (two different commands
    /// ever shipped under one (term, index)), or a malformed AppendEntries.
    /// Every message crossing the network is inspected, even ones later
    /// dropped: a send is a claim regardless of delivery.
    pub fn safety_violations(&self) -> (list: Vec<String>)
        ensures
            texts_of(list@) == self@.observer.violations,
    {
        self.observer.violations()
    }

    fn draw_delay(&mut self) -> (delay: u64)
        requires
            old(self).wf(),
            old(self)@.config.min_delay <= old(self)@.config.max_delay,
        ensures
            final(self).wf(),
            final(self)@ == (SimModel { rng: advance(old(self)@.rng), ..old(self)@ }),
            delay == reduce(
                old(self)@.config.min_delay,
                old(self)@.config.max_delay,
                mix(advance(old(self)@.rng)),
            ),
    {
        self.rng.next_range(
            std::ops::RangeInclusive::new(self.config.min_delay, self.config.max_delay),
        )
    }

    fn draw_hit(&mut self, threshold: u64) -> (hit: bool)
        requires
            old(self).wf(),
        ensures
            final(self).wf(),
            final(self)@ == (SimModel { rng: advance(old(self)@.rng), ..old(self)@ }),
            hit == hits(mix(advance(old(self)@.rng)), threshold),
    {
        self.rng.next_below(threshold)
    }

    /// Decides the fate of one send, and lets the observer look at it. A fixed
    /// number of draws per send: the duplication draws are unconditional even
    /// when duplication is off.
    pub fn plan_send<P>(&mut self, from: NodeId, to: NodeId, request: &RpcRequest<P>) -> (plan:
        SendPlan)
        requires
            old(self).wf(),
            old(self)@.config.min_delay <= old(self)@.config.max_delay,
        ensures
            final(self).wf(),
            final(self)@ == (SimModel {
                rng: counter(old(self)@.rng, 6),
                observer: old(self)@.observer.after_request(request@),
                ..old(self)@
            }),
            plan == planned(
                old(self)@.rng,
                old(self)@.config,
                old(self)@.nodes.contains(to),
                old(self)@.blocked.contains((from, to)),
            ),
    {
        self.observer.inspect_append_entries(request);
        let known = self.nodes.contains(to);
        let req_blocked = self.is_blocked(from, to);
        let drop_threshold: u64 = self.config.drop_threshold;
        let duplicate_threshold: u64 = self.config.duplicate_threshold;
        let req_dropped = self.draw_hit(drop_threshold);
        let req_delay: u64 = self.draw_delay();
        let resp_dropped = self.draw_hit(drop_threshold);
        let resp_delay: u64 = self.draw_delay();
        let req_duplicated = self.draw_hit(duplicate_threshold);
        let dup_delay: u64 = self.draw_delay();
        proof {
            reveal_with_fuel(counter, 7);
        }
        SendPlan {
            known,
            req_blocked,
            req_dropped,
            req_delay,
            resp_dropped,
            resp_delay,
            req_duplicated,
            dup_delay,
            rpc_timeout: self.config.rpc_timeout,
        }
    }
}

} // verus!
