//! What the safety observer's silence means.

use vstd::prelude::*;

use super::sim::{
    commands_match, planned, shape_fault, values_equal, FaultConfig, ObserverModel,
};
use crate::raft::rpc::AppendModel;
use crate::raft::types::{Command, LogEntry, LogIndex, Term};
use crate::rng::draw;

verus! {

/// An observer that has seen these AppendEntries, in order.
pub open spec fn watched(batches: Seq<AppendModel>) -> ObserverModel
    decreases batches.len(),
{
    if batches.len() == 0 {
        ObserverModel::fresh()
    } else {
        watched(batches.drop_last()).after_append(batches.last())
    }
}

/// Nothing that was noted is forgotten, and no violation withdrawn.
spec fn remembers(a: ObserverModel, b: ObserverModel) -> bool {
    &&& a.violations.len() <= b.violations.len()
    &&& forall|t: Term| #[trigger]
        a.leaders.contains_key(t) ==> b.leaders.contains_key(t) && b.leaders[t] == a.leaders[t]
    &&& forall|at: (Term, LogIndex)| #[trigger]
        a.seen.contains_key(at) ==> b.seen.contains_key(at) && b.seen[at] == a.seen[at]
}

proof fn entries_remembered(o: ObserverModel, entries: Seq<LogEntry>)
    ensures
        remembers(o, o.after_entries(entries)),
    decreases entries.len(),
{
    if entries.len() > 0 {
        entries_remembered(o, entries.drop_last());
    }
}

/// In a silent observer's eyes every entry is the one first seen at its term
/// and index.
proof fn entries_match(o: ObserverModel, entries: Seq<LogEntry>, k: int)
    requires
        o.after_entries(entries).violations.len() == 0,
        0 <= k < entries.len(),
    ensures
        o.after_entries(entries).seen.contains_key((entries[k].term, entries[k].index)),
        commands_match(
            o.after_entries(entries).seen[(entries[k].term, entries[k].index)],
            entries[k].command,
        ) || o.after_entries(entries).seen[(entries[k].term, entries[k].index)] == entries[k].command,
    decreases entries.len(),
{
    let init = entries.drop_last();
    let before = o.after_entries(init);
    assert(remembers(before, before.after_entry(entries.last())));
    if k < init.len() {
        entries_match(o, init, k);
        assert(init[k] == entries[k]);
        assert(before.seen.contains_key((entries[k].term, entries[k].index)));
    }
}

proof fn batch_remembered(o: ObserverModel, args: AppendModel)
    ensures
        remembers(o, o.after_append(args)),
        o.after_append(args).violations.len() == 0 ==> {
            &&& o.after_append(args).leaders.contains_key(args.term)
            &&& o.after_append(args).leaders[args.term] == args.leader_id
            &&& shape_fault(args, args.entries.len() as int) is None
        },
{
    let claimed = o.after_claim(args.term, args.leader_id);
    let shaped = claimed.after_shape(args);
    entries_remembered(shaped, args.entries);
    assert(remembers(o, claimed));
    assert(remembers(claimed, shaped));
    assert(remembers(shaped, o.after_append(args)));
    remembers_on(o, claimed, shaped);
    remembers_on(o, shaped, o.after_append(args));
    if o.after_append(args).violations.len() == 0 {
        assert(claimed.leaders.contains_key(args.term));
        assert(shaped.leaders.contains_key(args.term));
    }
}

proof fn remembers_on(a: ObserverModel, b: ObserverModel, c: ObserverModel)
    requires
        remembers(a, b),
        remembers(b, c),
    ensures
        remembers(a, c),
{
    assert forall|t: Term| #[trigger] a.leaders.contains_key(t) implies c.leaders.contains_key(t)
        && c.leaders[t] == a.leaders[t] by {
        assert(b.leaders.contains_key(t));
    }
    assert forall|at: (Term, LogIndex)| #[trigger] a.seen.contains_key(at) implies c.seen.contains_key(at)
        && c.seen[at] == a.seen[at] by {
        assert(b.seen.contains_key(at));
    }
}

/// What a silent observer has noted of each batch it has seen.
proof fn noted(batches: Seq<AppendModel>, i: int)
    requires
        watched(batches).violations.len() == 0,
        0 <= i < batches.len(),
    ensures
        watched(batches).leaders.contains_key(batches[i].term),
        watched(batches).leaders[batches[i].term] == batches[i].leader_id,
        shape_fault(batches[i], batches[i].entries.len() as int) is None,
    decreases batches.len(),
{
    let init = batches.drop_last();
    batch_remembered(watched(init), batches.last());
    if i < init.len() {
        noted(init, i);
        assert(init[i] == batches[i]);
    }
}

/// A silent observer has seen at most one leader per term.
pub proof fn silence_means_one_leader_per_term(batches: Seq<AppendModel>, i: int, j: int)
    requires
        watched(batches).violations.len() == 0,
        0 <= i < batches.len(),
        0 <= j < batches.len(),
        batches[i].term == batches[j].term,
    ensures
        batches[i].leader_id == batches[j].leader_id,
{
    noted(batches, i);
    noted(batches, j);
}

/// A silent observer has seen only batches that are numbered without a gap
/// and whose terms stay in line.
pub proof fn silence_means_well_shaped_batches(batches: Seq<AppendModel>, i: int)
    requires
        watched(batches).violations.len() == 0,
        0 <= i < batches.len(),
    ensures
        shape_fault(batches[i], batches[i].entries.len() as int) is None,
{
    noted(batches, i);
}

/// A silent observer has seen, at each term and index, only commands that
/// match the first one it saw there.
pub proof fn silence_means_matching_entries(batches: Seq<AppendModel>, i: int, k: int)
    requires
        watched(batches).violations.len() == 0,
        0 <= i < batches.len(),
        0 <= k < batches[i].entries.len(),
    ensures
        ({
            let entry = batches[i].entries[k];
            let at = (entry.term, entry.index);
            &&& watched(batches).seen.contains_key(at)
            &&& watched(batches).seen[at] == entry.command || commands_match(
                watched(batches).seen[at],
                entry.command,
            )
        }),
    decreases batches.len(),
{
    let init = batches.drop_last();
    let last = batches.last();
    batch_remembered(watched(init), last);
    if i < init.len() {
        silence_means_matching_entries(init, i, k);
        let entry = batches[i].entries[k];
        assert(init[i] == batches[i]);
        assert(watched(init).seen.contains_key((entry.term, entry.index)));
    } else {
        let o = watched(init).after_claim(last.term, last.leader_id).after_shape(last);
        entries_match(o, last.entries, k);
    }
}

/// Two leaders of one term do not go unnoticed.
pub proof fn rivals_are_reported(batches: Seq<AppendModel>, i: int, j: int)
    requires
        0 <= i < batches.len(),
        0 <= j < batches.len(),
        batches[i].term == batches[j].term,
        batches[i].leader_id != batches[j].leader_id,
    ensures
        watched(batches).violations.len() > 0,
{
    if watched(batches).violations.len() == 0 {
        silence_means_one_leader_per_term(batches, i, j);
    }
}

/// Whether a batch is numbered on from the entry before it, with terms that
/// never fall and never pass the leader's own.
pub open spec fn in_shape(args: AppendModel) -> bool {
    forall|i: int| 0 <= i < args.entries.len() ==> #[trigger] entry_in_shape(args, i)
}

/// Whether entry `i` of a batch has the number that is due and a term in line.
pub open spec fn entry_in_shape(args: AppendModel, i: int) -> bool {
    &&& args.entries[i].index == args.prev_log_index + 1 + i
    &&& args.entries[i].term <= args.term
    &&& i == 0 ==> args.entries[i].term >= args.prev_log_term
    &&& i > 0 ==> args.entries[i].term >= args.entries[i - 1].term
}

proof fn lemma_in_shape(args: AppendModel, upto: int)
    requires
        0 <= upto <= args.entries.len(),
    ensures
        shape_fault(args, upto) is None <==> forall|i: int|
            0 <= i < upto ==> #[trigger] entry_in_shape(args, i),
    decreases upto,
{
    if upto > 0 {
        lemma_in_shape(args, upto - 1);
        assert(super::sim::entry_fault(args, upto - 1) is None <==> entry_in_shape(args, upto - 1));
    }
}

/// What goes unreported is in order, and what is in order goes unreported: a
/// batch out of shape is reported; so is a command that does not match the one
/// seen before at its term and index; and a further batch that claims its term
/// for the leader already seen there, is in shape, and matches what was seen
/// adds no report.
pub proof fn reports_are_made_exactly_when_something_is_wrong(
    batches: Seq<AppendModel>,
    next: AppendModel,
)
    ensures
        ({
            let before = watched(batches);
            let after = watched(batches.push(next));
            &&& after.violations.len() >= before.violations.len()
            &&& !in_shape(next) ==> after.violations.len() > before.violations.len()
            &&& before.leaders.contains_key(next.term) && before.leaders[next.term]
                != next.leader_id ==> after.violations.len() > before.violations.len()
            &&& next.entries.len() == 1 && before.seen.contains_key(
                (next.entries[0].term, next.entries[0].index),
            ) && !commands_match(
                before.seen[(next.entries[0].term, next.entries[0].index)],
                next.entries[0].command,
            ) ==> after.violations.len() > before.violations.len()
            &&& in_shape(next) && (before.leaders.contains_key(next.term)
                ==> before.leaders[next.term] == next.leader_id) && (forall|i: int|
                #![trigger next.entries[i]]
                0 <= i < next.entries.len() && before.seen.contains_key(
                    (next.entries[i].term, next.entries[i].index),
                ) ==> commands_match(
                    before.seen[(next.entries[i].term, next.entries[i].index)],
                    next.entries[i].command,
                )) ==> after.violations == before.violations
        }),
{
    let before = watched(batches);
    assert(batches.push(next).drop_last() =~= batches);
    let claimed = before.after_claim(next.term, next.leader_id);
    let shaped = claimed.after_shape(next);
    lemma_in_shape(next, next.entries.len() as int);
    entries_remembered(shaped, next.entries);
    if next.entries.len() == 1 {
        assert(next.entries.drop_last() =~= Seq::<LogEntry>::empty());
        assert(shaped.after_entries(next.entries.drop_last()) == shaped);
        assert(next.entries.last() == next.entries[0]);
    }
    if in_shape(next) && (before.leaders.contains_key(next.term) ==> before.leaders[next.term]
        == next.leader_id) && (forall|i: int|
        #![trigger next.entries[i]]
        0 <= i < next.entries.len() && before.seen.contains_key(
            (next.entries[i].term, next.entries[i].index),
        ) ==> commands_match(
            before.seen[(next.entries[i].term, next.entries[i].index)],
            next.entries[i].command,
        )) {
        assert(shaped.seen == before.seen && shaped.violations == before.violations);
        lemma_quiet(shaped, next, next.entries.len() as int);
        assert(next.entries.take(next.entries.len() as int) =~= next.entries);
    }
}

/// Entries at places of their own that match what was seen are not reported.
proof fn lemma_quiet(o: ObserverModel, args: AppendModel, upto: int)
    requires
        in_shape(args),
        0 <= upto <= args.entries.len(),
        forall|i: int|
            #![trigger args.entries[i]]
            0 <= i < args.entries.len() && o.seen.contains_key(
                (args.entries[i].term, args.entries[i].index),
            ) ==> commands_match(
                o.seen[(args.entries[i].term, args.entries[i].index)],
                args.entries[i].command,
            ),
    ensures
        o.after_entries(args.entries.take(upto)).violations == o.violations,
        forall|at: (Term, LogIndex)|
            at.1 > args.prev_log_index + upto ==> (#[trigger] o.after_entries(
                args.entries.take(upto),
            ).seen.contains_key(at) == o.seen.contains_key(at)),
        forall|at: (Term, LogIndex)| #[trigger]
            o.seen.contains_key(at) ==> o.after_entries(args.entries.take(upto)).seen[at]
                == o.seen[at],
    decreases upto,
{
    if upto > 0 {
        lemma_quiet(o, args, upto - 1);
        let part = args.entries.take(upto);
        assert(part.drop_last() =~= args.entries.take(upto - 1));
        assert(part.last() == args.entries[upto - 1]);
        assert(entry_in_shape(args, upto - 1));
        entries_remembered(o, args.entries.take(upto - 1));
    } else {
        assert(args.entries.take(0) =~= Seq::<LogEntry>::empty());
    }
}

/// What a plan is like: it says of the destination and the link what is so; a
/// threshold of zero loses and doubles nothing, one of 2^53 everything; every
/// delay lies between the shortest and the longest; and how much is lost has no
/// bearing on how long things take.
pub proof fn plans_keep_to_their_faults(
    state: u64,
    config: FaultConfig,
    other: FaultConfig,
    known: bool,
    blocked: bool,
)
    requires
        config.min_delay <= config.max_delay,
        other.min_delay == config.min_delay,
        other.max_delay == config.max_delay,
    ensures
        ({
            let plan = planned(state, config, known, blocked);
            let twin = planned(state, other, known, blocked);
            &&& plan.known == known
            &&& plan.req_blocked == blocked
            &&& plan.rpc_timeout == config.rpc_timeout
            &&& config.min_delay <= plan.req_delay <= config.max_delay
            &&& config.min_delay <= plan.resp_delay <= config.max_delay
            &&& config.min_delay <= plan.dup_delay <= config.max_delay
            &&& config.drop_threshold == 0 ==> !plan.req_dropped && !plan.resp_dropped
            &&& config.drop_threshold == 0x20_0000_0000_0000 ==> plan.req_dropped
                && plan.resp_dropped
            &&& config.duplicate_threshold == 0 ==> !plan.req_duplicated
            &&& config.duplicate_threshold == 0x20_0000_0000_0000 ==> plan.req_duplicated
            &&& twin.req_delay == plan.req_delay
            &&& twin.resp_delay == plan.resp_delay
            &&& twin.dup_delay == plan.dup_delay
            &&& config.drop_threshold <= other.drop_threshold ==> {
                &&& plan.req_dropped ==> twin.req_dropped
                &&& plan.resp_dropped ==> twin.resp_dropped
            }
            &&& config.duplicate_threshold <= other.duplicate_threshold ==> (plan.req_duplicated
                ==> twin.req_duplicated)
        }),
{
    let (lo, hi) = (config.min_delay, config.max_delay);
    crate::rng::reduced_draws_lie_in_range(lo, hi, draw(state, 2));
    crate::rng::reduced_draws_lie_in_range(lo, hi, draw(state, 4));
    crate::rng::reduced_draws_lie_in_range(lo, hi, draw(state, 6));
    crate::rng::threshold_extremes(draw(state, 1));
    crate::rng::threshold_extremes(draw(state, 3));
    crate::rng::threshold_extremes(draw(state, 5));
}

/// Commands match by everything they say: their kind, their key, their token,
/// their value, their members and where those are.
pub proof fn commands_match_by_what_they_say(a: Command, b: Command)
    ensures
        commands_match(a, b) ==> {
            &&& a is Put == b is Put
            &&& a is Delete == b is Delete
            &&& a is Noop == b is Noop
            &&& a is ConfigChange == b is ConfigChange
            &&& crate::dedup::token(a) == crate::dedup::token(b)
            &&& crate::dedup::written_key(a) == crate::dedup::written_key(b)
        },
        a is Put && b is Put && commands_match(a, b) ==> values_equal(a->Put_value, b->Put_value),
        a is ConfigChange && b is ConfigChange ==> (commands_match(a, b) <==> a->members.addrs()
            == b->members.addrs()),
        a is Noop && b is Noop ==> commands_match(a, b),
        a is Delete && b is Delete && a->Delete_key@ == b->Delete_key@ && a->Delete_session
            == b->Delete_session ==> commands_match(a, b),
        a is Put && b is Put && a->Put_key@ == b->Put_key@ && a->Put_session == b->Put_session
            && values_equal(a->Put_value, b->Put_value) ==> commands_match(a, b),
{
}

/// A plan takes the next six draws, in this order: whether the request is lost,
/// how long it takes, whether the reply is lost, how long it takes, whether the
/// request is doubled, how long the double takes.
pub proof fn a_plan_takes_six_draws_in_order(
    state: u64,
    config: FaultConfig,
    known: bool,
    blocked: bool,
)
    requires
        config.min_delay <= config.max_delay,
        config.max_delay - config.min_delay < u64::MAX,
        config.drop_threshold <= 0x20_0000_0000_0000,
        config.duplicate_threshold <= 0x20_0000_0000_0000,
    ensures
        ({
            let plan = planned(state, config, known, blocked);
            let span = config.max_delay - config.min_delay + 1;
            &&& plan.req_dropped == (draw(state, 1) < config.drop_threshold * 2048)
            &&& plan.req_delay - config.min_delay == draw(state, 2) as int % span
            &&& plan.resp_dropped == (draw(state, 3) < config.drop_threshold * 2048)
            &&& plan.resp_delay - config.min_delay == draw(state, 4) as int % span
            &&& plan.req_duplicated == (draw(state, 5) < config.duplicate_threshold * 2048)
            &&& plan.dup_delay - config.min_delay == draw(state, 6) as int % span
        }),
{
    crate::rng::a_threshold_is_a_share_of_the_draws(draw(state, 1), config.drop_threshold);
    crate::rng::a_threshold_is_a_share_of_the_draws(draw(state, 3), config.drop_threshold);
    crate::rng::a_threshold_is_a_share_of_the_draws(draw(state, 5), config.duplicate_threshold);
    let (lo, hi) = (config.min_delay, config.max_delay);
    crate::rng::reduced_draws_lie_in_range(lo, hi, draw(state, 2));
    crate::rng::reduced_draws_lie_in_range(lo, hi, draw(state, 4));
    crate::rng::reduced_draws_lie_in_range(lo, hi, draw(state, 6));
    let span = hi - lo + 1;
    lemma_below(draw(state, 2) as int, span);
    lemma_below(draw(state, 4) as int, span);
    lemma_below(draw(state, 6) as int, span);
}

proof fn lemma_below(n: int, span: int)
    requires
        span > 0,
    ensures
        0 <= n % span < span,
{
}

} // verus!
