//! The state machine that a node drives.

use vstd::prelude::*;

use super::types::LogEntry;

verus! {

/// Where committed commands land. Applied exactly once per log position, in
/// log order, on every node (leaders and followers alike).
pub trait StateMachine: Sized {
    /// The captured state that snapshots carry.
    type Payload;

    /// The mathematical state.
    type State;

    /// The machine's own invariant.
    spec fn valid(&self) -> bool;

    /// The state the machine is in.
    spec fn state(&self) -> Self::State;

    /// The state that a payload captures.
    spec fn captured(payload: Self::Payload) -> Self::State;

    /// The state that applying `entry` leads to.
    spec fn transition(state: Self::State, entry: LogEntry) -> Self::State;

    fn apply(&mut self, entry: &LogEntry)
        requires
            old(self).valid(),
        ensures
            final(self).valid(),
            final(self).state() == Self::transition(old(self).state(), *entry),
    ;

    /// The complete current state: the snapshot payload for compaction. Must
    /// capture everything a replay of the applied prefix would have produced,
    /// including bookkeeping like the dedup sessions table.
    fn snapshot(&self) -> (payload: Self::Payload)
        requires
            self.valid(),
        ensures
            Self::captured(payload) == self.state(),
    ;

    /// Replaces the entire state with a previously captured one
    /// (restore-at-boot and InstallSnapshot).
    fn restore(&mut self, payload: &Self::Payload)
        requires
            old(self).valid(),
        ensures
            final(self).valid(),
            final(self).state() == Self::captured(*payload),
    ;
}

/// The state after applying `entries` in order.
pub open spec fn run<S: StateMachine>(state: S::State, entries: Seq<LogEntry>) -> S::State
    decreases entries.len(),
{
    if entries.len() == 0 {
        state
    } else {
        S::transition(run::<S>(state, entries.drop_last()), entries.last())
    }
}

/// Applying two runs in a row is applying their concatenation.
pub proof fn run_in_parts<S: StateMachine>(
    state: S::State,
    first: Seq<LogEntry>,
    second: Seq<LogEntry>,
)
    ensures
        run::<S>(run::<S>(state, first), second) == run::<S>(state, first + second),
    decreases second.len(),
{
    if second.len() == 0 {
        assert(first + second =~= first);
    } else {
        run_in_parts::<S>(state, first, second.drop_last());
        assert((first + second).drop_last() =~= first + second.drop_last());
    }
}

} // verus!
