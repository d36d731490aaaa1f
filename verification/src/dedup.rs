//! What the retry windows guarantee: a tokened command takes effect at most
//! once, however often it is applied, and never at the expense of another.

use vstd::prelude::*;

use crate::raft::machine::{run, run_in_parts, StateMachine};
use crate::raft::types::{Command, LogEntry, Session};
use crate::store::{KvState, KvStore, SessionState, SESSION_WINDOW};

verus! {

proof fn lemma_bit_below_shift(r: u64, s: u64, k: u64)
    requires
        1 <= s < 64,
        k < s,
    ensures
        (((r << s) | 1) & (1u64 << k) != 0) == (k == 0),
{
    assert((((r << s) | 1) & (1u64 << k) != 0) == (k == 0)) by (bit_vector)
        requires
            1 <= s < 64,
            k < s,
    ;
}

proof fn lemma_bit_above_shift(r: u64, s: u64, k: u64)
    requires
        1 <= s <= k < 64,
    ensures
        (((r << s) | 1) & (1u64 << k) != 0) == (r & (1u64 << ((k - s) as u64)) != 0),
{
    let d = (k - s) as u64;
    assert((((r << s) | 1) & (1u64 << k) != 0) == (r & (1u64 << d) != 0)) by (bit_vector)
        requires
            1 <= s <= k < 64,
            d == k - s,
    ;
}

proof fn lemma_bit_set(r: u64, b: u64, k: u64)
    requires
        b < 64,
        k < 64,
    ensures
        ((r | (1u64 << b)) & (1u64 << k) != 0) == (k == b || r & (1u64 << k) != 0),
{
    assert(((r | (1u64 << b)) & (1u64 << k) != 0) == (k == b || r & (1u64 << k) != 0))
        by (bit_vector)
        requires
            b < 64,
            k < 64,
    ;
}

/// Recording a seq adds that seq and nothing else; a window that slides up
/// gives up what falls out of it.
pub proof fn recording_is_exact(state: SessionState, seq: u64, other: u64)
    ensures
        state.recorded(seq).max_seq == if seq > state.max_seq {
            seq
        } else {
            state.max_seq
        },
        state.recorded(seq).applied(other) <==> {
            &&& other <= state.recorded(seq).max_seq
            &&& {
                ||| state.recorded(seq).max_seq - other >= SESSION_WINDOW
                ||| other == seq
                ||| state.applied(other)
            }
        },
{
    let after = state.recorded(seq);
    if other <= after.max_seq && after.max_seq - other < SESSION_WINDOW {
        let k = (after.max_seq - other) as u64;
        if seq > state.max_seq {
            let s = (seq - state.max_seq) as u64;
            if s < SESSION_WINDOW {
                if k < s {
                    lemma_bit_below_shift(state.recent, s, k);
                } else {
                    lemma_bit_above_shift(state.recent, s, k);
                }
            } else {
                assert((1u64 & (1u64 << k) != 0) == (k == 0)) by (bit_vector)
                    requires
                        k < 64,
                ;
            }
        } else if state.max_seq - seq < SESSION_WINDOW {
            lemma_bit_set(state.recent, (state.max_seq - seq) as u64, k);
        }
    }
}

/// A first seq marks itself and everything more than a window behind it.
pub proof fn first_record_is_exact(seq: u64, other: u64)
    ensures
        (SessionState { max_seq: seq, recent: 1 }).applied(other) <==> other == seq || other
            + SESSION_WINDOW <= seq,
{
    if other <= seq && seq - other < SESSION_WINDOW {
        let k = (seq - other) as u64;
        assert((1u64 & (1u64 << k) != 0) == (k == 0)) by (bit_vector)
            requires
                k < 64,
        ;
    }
}

/// The token of a command.
pub open spec fn token(command: Command) -> Option<Session> {
    match command {
        Command::Put { session, .. } => session,
        Command::Delete { session, .. } => session,
        Command::Noop => None,
        Command::ConfigChange { .. } => None,
    }
}

/// Once a token has applied it stays applied, whatever follows.
pub proof fn applied_stays_applied(state: KvState, command: Command, session: Session)
    requires
        state.is_duplicate(Some(session)),
    ensures
        state.after(command).is_duplicate(Some(session)),
{
    if let Some(s) = token(command) {
        if s.client == session.client && state.after(command) != state {
            recording_is_exact(state.sessions[s.client], s.seq, session.seq);
        }
    }
}

/// A tokened command that was applied (or skipped) is a duplicate from then
/// on.
pub proof fn applying_marks_the_token(state: KvState, command: Command, session: Session)
    requires
        token(command) == Some(session),
    ensures
        state.after(command).is_duplicate(Some(session)),
{
    if !state.is_duplicate(Some(session)) {
        if state.sessions.contains_key(session.client) {
            recording_is_exact(state.sessions[session.client], session.seq, session.seq);
        } else {
            first_record_is_exact(session.seq, session.seq);
        }
    }
}

proof fn lemma_stays_applied(state: KvState, entries: Seq<LogEntry>, session: Session)
    requires
        state.is_duplicate(Some(session)),
    ensures
        run::<KvStore>(state, entries).is_duplicate(Some(session)),
    decreases entries.len(),
{
    if entries.len() > 0 {
        lemma_stays_applied(state, entries.drop_last(), session);
        applied_stays_applied(
            run::<KvStore>(state, entries.drop_last()),
            entries.last().command,
            session,
        );
    }
}

/// Exactly once: after a tokened command, any later command with the same
/// token changes nothing, whatever was applied in between.
pub proof fn a_retry_changes_nothing(
    state: KvState,
    first: LogEntry,
    between: Seq<LogEntry>,
    retry: LogEntry,
)
    requires
        token(first.command) is Some,
        token(retry.command) == token(first.command),
    ensures
        run::<KvStore>(state, (seq![first] + between).push(retry)) == run::<KvStore>(
            state,
            seq![first] + between,
        ),
{
    let session = token(first.command)->0;
    let log = seq![first] + between;
    applying_marks_the_token(state, first.command, session);
    assert(run::<KvStore>(state, seq![first]) == state.after(first.command)) by {
        assert(seq![first].drop_last() =~= Seq::empty());
        reveal_with_fuel(run, 2);
    }
    run_in_parts::<KvStore>(state, seq![first], between);
    lemma_stays_applied(state.after(first.command), between, session);
    assert(log.push(retry).drop_last() =~= log);
}

/// No false skip: a seq that never applied, and that lies above the window's
/// lower edge, still takes effect, also after higher seqs of its client.
pub proof fn an_unapplied_seq_takes_effect(
    state: KvState,
    key: String,
    value: serde_json::Value,
    session: Session,
)
    requires
        !state.is_duplicate(Some(session)),
    ensures
        state.after(Command::Put { key, value, session: Some(session) }).map == state.map.insert(
            key@,
            value,
        ),
        state.after(Command::Delete { key, session: Some(session) }).map == state.map.remove(key@),
{
}

/// Clients are independent: a command touches no other client's window.
pub proof fn clients_are_independent(state: KvState, command: Command, other: u64)
    requires
        match token(command) {
            Some(session) => session.client != other,
            None => true,
        },
    ensures
        state.after(command).sessions.contains_key(other) == state.sessions.contains_key(other),
        state.sessions.contains_key(other) ==> state.after(command).sessions[other]
            == state.sessions[other],
{
}

/// Commands without a token never touch the sessions table, and always take
/// effect.
pub proof fn tokenless_commands_always_apply(
    state: KvState,
    key: String,
    value: serde_json::Value,
)
    ensures
        state.after(Command::Put { key, value, session: None }) == (KvState {
            map: state.map.insert(key@, value),
            ..state
        }),
        state.after(Command::Delete { key, session: None }) == (KvState {
            map: state.map.remove(key@),
            ..state
        }),
        state.after(Command::Noop) == state,
{
}

// ---- order ----

/// Bit `k` of a window.
spec fn bit(r: u64, k: int) -> bool {
    r & (1u64 << (k as u64)) != 0
}

/// Windows with the same bits are the same.
proof fn same_bits(a: u64, b: u64, from: int)
    requires
        0 <= from <= 63,
        forall|k: int| from <= k < 64 ==> #[trigger] bit(a, k) == bit(b, k),
    ensures
        a >> (from as u64) == b >> (from as u64),
    decreases 64 - from,
{
    let k = from as u64;
    assert(bit(a, from) == bit(b, from));
    if from == 63 {
        assert(a >> k == b >> k) by (bit_vector)
            requires
                k == 63,
                (a & (1u64 << k) != 0) == (b & (1u64 << k) != 0),
        ;
    } else {
        same_bits(a, b, from + 1);
        let n = (from + 1) as u64;
        assert(a >> k == b >> k) by (bit_vector)
            requires
                k < 63,
                n == k + 1,
                a >> n == b >> n,
                (a & (1u64 << k) != 0) == (b & (1u64 << k) != 0),
        ;
    }
}

/// What recording does to each bit of the window.
proof fn recorded_bit(state: SessionState, seq: u64, k: int)
    requires
        0 <= k < 64,
    ensures
        bit(state.recorded(seq).recent, k) == if seq > state.max_seq {
            k == 0 || (k >= seq - state.max_seq && bit(state.recent, k - (seq - state.max_seq)))
        } else {
            k == state.max_seq - seq || bit(state.recent, k)
        },
{
    let b = k as u64;
    if seq > state.max_seq {
        let s = (seq - state.max_seq) as u64;
        if s < SESSION_WINDOW {
            if b < s {
                lemma_bit_below_shift(state.recent, s, b);
            } else {
                lemma_bit_above_shift(state.recent, s, b);
            }
        } else {
            assert((1u64 & (1u64 << b) != 0) == (b == 0)) by (bit_vector)
                requires
                    b < 64,
            ;
        }
    } else if state.max_seq - seq < SESSION_WINDOW {
        lemma_bit_set(state.recent, (state.max_seq - seq) as u64, b);
    }
}

/// Only which seqs were recorded matters, not in which order or how often:
/// recording two seqs in either order gives the same window, and recording one
/// again changes nothing.
pub proof fn recording_order_does_not_matter(state: SessionState, a: u64, b: u64)
    ensures
        state.recorded(a).recorded(b) == state.recorded(b).recorded(a),
        state.recorded(a).recorded(a) == state.recorded(a),
{
    let x = state.recorded(a).recorded(b);
    let y = state.recorded(b).recorded(a);
    assert forall|k: int| 0 <= k < 64 implies #[trigger] bit(x.recent, k) == bit(y.recent, k) by {
        recorded_twice(state, a, b, k);
        recorded_twice(state, b, a, k);
    }
    same_bits(x.recent, y.recent, 0);
    let (p, q) = (x.recent, y.recent);
    assert(p == q) by (bit_vector)
        requires
            p >> 0u64 == q >> 0u64,
    ;
    let once = state.recorded(a);
    let again = once.recorded(a);
    assert forall|k: int| 0 <= k < 64 implies #[trigger] bit(again.recent, k) == bit(once.recent, k) by {
        recorded_bit(once, a, k);
        recorded_bit(state, a, k);
    }
    same_bits(again.recent, once.recent, 0);
    let (p, q) = (again.recent, once.recent);
    assert(p == q) by (bit_vector)
        requires
            p >> 0u64 == q >> 0u64,
    ;
}

/// The bits after recording two seqs: those of the window slid up to the
/// highest, and those of the two seqs.
proof fn recorded_twice(state: SessionState, a: u64, b: u64, k: int)
    requires
        0 <= k < 64,
    ensures
        ({
            let after = state.recorded(a).recorded(b);
            let top = after.max_seq;
            let slid = k - (top - state.max_seq);
            bit(after.recent, k) == (k == top - a || k == top - b || (slid >= 0 && bit(
                state.recent,
                slid,
            )))
        }),
{
    let once = state.recorded(a);
    recorded_bit(once, b, k);
    recorded_bit(state, a, k);
    if b > once.max_seq {
        let j = k - (b - once.max_seq);
        if j >= 0 {
            recorded_bit(state, a, j);
        }
    }
}

// ---- what commands do ----

/// The key that a command writes.
pub open spec fn written_key(command: Command) -> Option<Seq<char>> {
    match command {
        Command::Put { key, .. } => Some(key@),
        Command::Delete { key, .. } => Some(key@),
        Command::Noop => None,
        Command::ConfigChange { .. } => None,
    }
}

/// Leadership and membership leave the data alone: neither a no-op nor a
/// configuration change, whatever its members, changes a value or a window.
pub proof fn only_puts_and_deletes_change_the_store(state: KvState, entry: LogEntry)
    requires
        entry.command is Noop || entry.command is ConfigChange,
    ensures
        KvStore::transition(state, entry) == state,
{
}

/// A command changes what one key holds at most: every other key holds what it
/// held, or nothing as before.
pub proof fn other_keys_stay(state: KvState, entry: LogEntry, key: Seq<char>)
    requires
        written_key(entry.command) != Some(key),
    ensures
        KvStore::transition(state, entry).map.contains_key(key) == state.map.contains_key(key),
        state.map.contains_key(key) ==> KvStore::transition(state, entry).map[key]
            == state.map[key],
{
}

/// Whether the token (`client`, `seq`) is spent by a run of entries: a command
/// carried it, or the client has got a window further.
pub open spec fn spent(log: Seq<LogEntry>, client: u64, seq: u64) -> bool {
    exists|i: int|
        #![trigger log[i]]
        0 <= i < log.len() && token(log[i].command) is Some && token(log[i].command)->0.client
            == client && (token(log[i].command)->0.seq == seq || seq + 64 <= token(
            log[i].command,
        )->0.seq)
}

/// Whether a run of entries holds a token of `client`.
spec fn came(log: Seq<LogEntry>, client: u64) -> bool {
    exists|i: int|
        #![trigger log[i]]
        0 <= i < log.len() && token(log[i].command) is Some && token(log[i].command)->0.client
            == client
}

/// A client's window, after a run from the empty store: it ends at the highest
/// seq that came, and marks exactly the spent ones.
proof fn lemma_window(log: Seq<LogEntry>, client: u64)
    ensures
        ({
            let sessions = run::<KvStore>(KvState::empty(), log).sessions;
            &&& sessions.contains_key(client) == came(log, client)
            &&& came(log, client) ==> {
                &&& exists|i: int|
                    #![trigger log[i]]
                    0 <= i < log.len() && token(log[i].command) == Some(
                        Session { client, seq: sessions[client].max_seq },
                    )
                &&& forall|i: int|
                    #![trigger log[i]]
                    0 <= i < log.len() && token(log[i].command) is Some && token(
                        log[i].command,
                    )->0.client == client ==> token(log[i].command)->0.seq
                        <= sessions[client].max_seq
                &&& forall|seq: u64| #[trigger]
                    sessions[client].applied(seq) == spent(log, client, seq)
            }
        }),
    decreases log.len(),
{
    if log.len() > 0 {
        let init = log.drop_last();
        let last = log.last();
        lemma_window(init, client);
        let before = run::<KvStore>(KvState::empty(), init);
        let after = run::<KvStore>(KvState::empty(), log);
        assert(after == before.after(last.command));
        assert(log[log.len() - 1] == last);
        assert forall|i: int| #![trigger log[i]] 0 <= i < init.len() implies log[i] == init[i] by {}
        lemma_came(log, client);
        assert forall|seq: u64| #[trigger]
            spent(log, client, seq) == (spent(init, client, seq) || (token(last.command) is Some
                && token(last.command)->0.client == client && (token(last.command)->0.seq == seq
                || seq + 64 <= token(last.command)->0.seq))) by {
            lemma_spent(log, client, seq);
        }
        if token(last.command) is Some && token(last.command)->0.client == client {
            let new = token(last.command)->0.seq;
            if before.sessions.contains_key(client) {
                let state = before.sessions[client];
                let top = choose|i: int|
                    #![trigger init[i]]
                    0 <= i < init.len() && token(init[i].command) == Some(
                        Session { client, seq: state.max_seq },
                    );
                assert(log[top] == init[top]);
                assert forall|seq: u64| state.max_seq - seq >= 64 implies #[trigger] spent(
                    init,
                    client,
                    seq,
                ) by {
                    assert(token(init[top].command)->0.seq == state.max_seq);
                }
                if state.applied(new) {
                    assert(after == before);
                    assert(spent(init, client, new));
                    assert forall|seq: u64| #[trigger] state.applied(seq) == spent(log, client, seq) by {
                        if seq == new {
                        } else if seq + 64 <= new {
                            assert(new <= state.max_seq);
                            assert(spent(init, client, seq));
                        }
                    }
                } else {
                    assert(after.sessions[client] == state.recorded(new));
                    assert forall|seq: u64| #[trigger] after.sessions[client].applied(seq) == spent(
                        log,
                        client,
                        seq,
                    ) by {
                        recording_is_exact(state, new, seq);
                        assert(state.applied(seq) == spent(init, client, seq));
                        if state.recorded(new).max_seq - seq >= 64 {
                            if new > state.max_seq {
                                assert(seq + 64 <= new);
                            }
                        }
                        if spent(init, client, seq) {
                            assert(state.applied(seq));
                        }
                    }
                    recording_is_exact(state, new, new);
                    if new > state.max_seq {
                        assert(token(log[log.len() - 1].command) == Some(Session { client, seq: new }));
                    }
                }
            } else {
                assert(!spent(init, client, new)) by {
                    if spent(init, client, new) {
                        assert(came(init, client));
                    }
                }
                assert(after.sessions[client] == (SessionState { max_seq: new, recent: 1 }));
                assert forall|seq: u64| #[trigger] after.sessions[client].applied(seq) == spent(
                    log,
                    client,
                    seq,
                ) by {
                    first_record_is_exact(new, seq);
                    if spent(init, client, seq) {
                        assert(came(init, client));
                    }
                }
                assert(token(log[log.len() - 1].command) == Some(Session { client, seq: new }));
            }
        } else {
            clients_are_independent(before, last.command, client);
            if came(init, client) {
                let top = choose|i: int|
                    #![trigger init[i]]
                    0 <= i < init.len() && token(init[i].command) == Some(
                        Session { client, seq: before.sessions[client].max_seq },
                    );
                assert(log[top] == init[top]);
                assert forall|seq: u64| #[trigger]
                    after.sessions[client].applied(seq) == spent(log, client, seq) by {
                    assert(before.sessions[client].applied(seq) == spent(init, client, seq));
                }
            }
        }
    } else {
        assert(run::<KvStore>(KvState::empty(), log) == KvState::empty());
    }
}

proof fn lemma_came(log: Seq<LogEntry>, client: u64)
    requires
        log.len() > 0,
    ensures
        came(log, client) == (came(log.drop_last(), client) || (token(log.last().command) is Some
            && token(log.last().command)->0.client == client)),
{
    let init = log.drop_last();
    if came(init, client) {
        let i = choose|i: int|
            #![trigger init[i]]
            0 <= i < init.len() && token(init[i].command) is Some && token(init[i].command)->0.client
                == client;
        assert(log[i] == init[i]);
    }
    assert(log[log.len() - 1] == log.last());
    if came(log, client) {
        let i = choose|i: int|
            #![trigger log[i]]
            0 <= i < log.len() && token(log[i].command) is Some && token(log[i].command)->0.client
                == client;
        if i < init.len() {
            assert(init[i] == log[i]);
        }
    }
}

proof fn lemma_spent(log: Seq<LogEntry>, client: u64, seq: u64)
    requires
        log.len() > 0,
    ensures
        spent(log, client, seq) == (spent(log.drop_last(), client, seq) || (token(
            log.last().command,
        ) is Some && token(log.last().command)->0.client == client && (token(
            log.last().command,
        )->0.seq == seq || seq + 64 <= token(log.last().command)->0.seq))),
{
    let init = log.drop_last();
    if spent(init, client, seq) {
        let i = choose|i: int|
            #![trigger init[i]]
            0 <= i < init.len() && token(init[i].command) is Some && token(init[i].command)->0.client
                == client && (token(init[i].command)->0.seq == seq || seq + 64 <= token(
                init[i].command,
            )->0.seq);
        assert(log[i] == init[i]);
    }
    assert(log[log.len() - 1] == log.last());
    if spent(log, client, seq) {
        let i = choose|i: int|
            #![trigger log[i]]
            0 <= i < log.len() && token(log[i].command) is Some && token(log[i].command)->0.client
                == client && (token(log[i].command)->0.seq == seq || seq + 64 <= token(
                log[i].command,
            )->0.seq);
        if i < init.len() {
            assert(init[i] == log[i]);
        }
    }
}

/// Exactly once, over a whole log: a put or delete takes effect unless its
/// token is spent by what came before it, a repetition of the token or a seq of
/// the same client at least a window higher; any seq counts, zero too. A spent
/// one changes nothing, and commands without a token always take effect.
pub proof fn a_write_takes_effect_unless_its_token_is_spent(log: Seq<LogEntry>, entry: LogEntry)
    ensures
        ({
            let before = run::<KvStore>(KvState::empty(), log);
            let after = run::<KvStore>(KvState::empty(), log.push(entry));
            let skipped = token(entry.command) matches Some(s) && spent(log, s.client, s.seq);
            match entry.command {
                Command::Put { key, value, session } => after.map == if skipped {
                    before.map
                } else {
                    before.map.insert(key@, value)
                },
                Command::Delete { key, session } => after.map == if skipped {
                    before.map
                } else {
                    before.map.remove(key@)
                },
                _ => after == before,
            }
        }),
{
    let before = run::<KvStore>(KvState::empty(), log);
    assert(log.push(entry).drop_last() =~= log);
    assert(log.push(entry).last() == entry);
    if let Some(s) = token(entry.command) {
        lemma_window(log, s.client);
        if spent(log, s.client, s.seq) {
            assert(came(log, s.client));
        }
    }
}

/// On a store that has never heard of a client, any token of that client is
/// fresh: the command takes effect, and its seq is then the only one recorded.
pub proof fn a_first_token_is_fresh(state: KvState, entry: LogEntry, session: Session)
    requires
        token(entry.command) == Some(session),
        !state.sessions.contains_key(session.client),
    ensures
        ({
            let after = KvStore::transition(state, entry);
            &&& match entry.command {
                Command::Put { key, value, .. } => after.map == state.map.insert(key@, value),
                Command::Delete { key, .. } => after.map == state.map.remove(key@),
                _ => false,
            }
            &&& after.sessions.contains_key(session.client)
            &&& forall|seq: u64| #[trigger]
                after.sessions[session.client].applied(seq) <==> seq == session.seq || seq + 64
                    <= session.seq
        }),
{
    let after = KvStore::transition(state, entry);
    assert forall|seq: u64| #[trigger]
        after.sessions[session.client].applied(seq) <==> seq == session.seq || seq + 64
            <= session.seq by {
        first_record_is_exact(session.seq, seq);
    }
}

} // verus!
