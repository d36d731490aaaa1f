//! How much of its log a leader sends at a time: a catch-up ships in bounded
//! steps instead of one tail-sized message racing the timeout.
//!
//! Entries are measured by the JSON text that carries them, e.g.
//! `{"term":1,"index":2,"command":{"Put":{"key":"k","value":3}}}`.

use serde_json::Value;
use vstd::prelude::*;

use super::membership::{AddrModel, Membership};
use super::types::{Command, LogEntry, NodeId, Session};
use crate::text::{chars_of, decimal};

verus! {

/// The JSON text of a value, as bytes.
pub uninterp spec fn json_bytes(value: Value) -> Option<Seq<u8>>;

/// `serde_json::to_vec` of a `Value`: its JSON text as bytes, or nothing if it
/// cannot be written.
#[verifier::external_body]
fn value_bytes(value: &Value) -> (bytes: Option<Vec<u8>>)
    ensures
        match bytes {
            Some(text) => json_bytes(*value) == Some(text@),
            None => json_bytes(*value) is None,
        },
{
    serde_json::to_vec(value).ok()
}

// ---- how long things are ----

/// The length of a value's JSON text; nothing where it has none.
pub open spec fn value_len(value: Value) -> nat {
    match json_bytes(value) {
        Some(text) => text.len(),
        None => 0,
    }
}

/// The bytes that a character takes inside a JSON string: two for a quote, a
/// backslash and the common control characters, six for the other control
/// characters, and as many as in UTF-8 for anything else.
pub open spec fn char_len(c: char) -> nat {
    let u = c as u32;
    if u == 0x22 || u == 0x5C || u == 0x08 || u == 0x09 || u == 0x0A || u == 0x0C || u == 0x0D {
        2
    } else if u < 0x20 {
        6
    } else if u < 0x80 {
        1
    } else if u < 0x800 {
        2
    } else if u < 0x10000 {
        3
    } else {
        4
    }
}

/// The bytes that the characters of a text take inside a JSON string.
pub open spec fn chars_len(s: Seq<char>) -> nat
    decreases s.len(),
{
    if s.len() == 0 {
        0
    } else {
        chars_len(s.drop_last()) + char_len(s.last())
    }
}

/// The length of a text as a JSON string, quotes counted in.
pub open spec fn text_len(s: Seq<char>) -> nat {
    chars_len(s) + 2
}

/// `,"session":{"client":..,"seq":..}`, where there is one.
pub open spec fn session_len(session: Option<Session>) -> nat {
    match session {
        Some(s) => 29 + decimal(s.client as nat).len() + decimal(s.seq as nat).len(),
        None => 0,
    }
}

/// `"..":{"raft":..,"client":..}` for each of the members.
pub open spec fn rows_len(ids: Seq<NodeId>, addrs: Map<NodeId, AddrModel>) -> nat
    decreases ids.len(),
{
    if ids.len() == 0 {
        0
    } else {
        let id = ids.last();
        rows_len(ids.drop_last(), addrs) + 22 + decimal(id as nat).len() + text_len(addrs[id].raft)
            + text_len(addrs[id].client)
    }
}

/// The members between braces, with commas between them.
pub open spec fn members_len(ids: Seq<NodeId>, addrs: Map<NodeId, AddrModel>) -> nat {
    rows_len(ids, addrs) + 2 + if ids.len() > 0 {
        (ids.len() - 1) as nat
    } else {
        0
    }
}

pub open spec fn command_len(command: Command) -> nat {
    match command {
        // {"Put":{"key":..,"value":..}}
        Command::Put { key, value, session } => {
            25 + text_len(key@) + value_len(value) + session_len(session)
        },
        // {"Delete":{"key":..}}
        Command::Delete { key, session } => 19 + text_len(key@) + session_len(session),
        // "Noop"
        Command::Noop => 6,
        // {"ConfigChange":{"members":..}}
        Command::ConfigChange { members } => 29 + members_len(members.ids(), members.addrs()),
    }
}

/// The length of an entry's JSON text, `{"term":..,"index":..,"command":..}`.
pub open spec fn entry_len(entry: LogEntry) -> nat {
    29 + decimal(entry.term as nat).len() + decimal(entry.index as nat).len() + command_len(
        entry.command,
    )
}

/// The length of a run of entries.
pub open spec fn entries_len(entries: Seq<LogEntry>) -> nat
    decreases entries.len(),
{
    if entries.len() == 0 {
        0
    } else {
        entries_len(entries.drop_last()) + entry_len(entries.last())
    }
}

// ---- batches ----

/// What is sent of `entries` at a time: the longest beginning within `limit`
/// bytes, but at least one entry; everything where there is no limit.
pub open spec fn batch(entries: Seq<LogEntry>, limit: Option<usize>) -> Seq<LogEntry>
    decreases entries.len(),
{
    match limit {
        None => entries,
        Some(most) => if entries.len() <= 1 || entries_len(entries) <= most {
            entries
        } else {
            batch(entries.drop_last(), limit)
        },
    }
}

/// A batch is a beginning of what there is to send, and not empty unless there
/// is nothing; it stays within the limit unless it is a single entry; and with
/// one more entry it would not.
pub proof fn batches_are_bounded(entries: Seq<LogEntry>, limit: Option<usize>)
    ensures
        batch(entries, limit).len() <= entries.len(),
        batch(entries, limit) == entries.take(batch(entries, limit).len() as int),
        entries.len() > 0 ==> batch(entries, limit).len() > 0,
        limit matches Some(most) ==> {
            let n = batch(entries, limit).len() as int;
            &&& n <= 1 || entries_len(batch(entries, limit)) <= most
            &&& n < entries.len() ==> entries_len(entries.take(n + 1)) > most
        },
    decreases entries.len(),
{
    assert(entries.take(entries.len() as int) =~= entries);
    if let Some(most) = limit {
        if !(entries.len() <= 1 || entries_len(entries) <= most) {
            let init = entries.drop_last();
            batches_are_bounded(init, limit);
            let n = batch(init, limit).len() as int;
            assert(init.take(n) =~= entries.take(n));
            if n < init.len() {
                assert(init.take(n + 1) =~= entries.take(n + 1));
            } else {
                assert(entries.take(n + 1) =~= entries);
            }
        }
    }
}

/// A beginning that fits, or is one entry, and does not with one more entry,
/// is the batch.
proof fn lemma_batch_is(entries: Seq<LogEntry>, most: usize, n: int)
    requires
        0 <= n <= entries.len(),
        n <= 1 || entries_len(entries.take(n)) <= most,
        n < entries.len() ==> n >= 1 && entries_len(entries.take(n + 1)) > most,
    ensures
        batch(entries, Some(most)) == entries.take(n),
    decreases entries.len(),
{
    assert(entries.take(entries.len() as int) =~= entries);
    if n < entries.len() {
        lemma_longer(entries, n + 1);
        let init = entries.drop_last();
        assert(init.take(n) =~= entries.take(n));
        if n < init.len() {
            assert(init.take(n + 1) =~= entries.take(n + 1));
        }
        lemma_batch_is(init, most, n);
    }
}

/// More entries are no shorter.
proof fn lemma_longer(entries: Seq<LogEntry>, n: int)
    requires
        0 <= n <= entries.len(),
    ensures
        entries_len(entries.take(n)) <= entries_len(entries),
    decreases entries.len() - n,
{
    if n == entries.len() {
        assert(entries.take(n) =~= entries);
    } else {
        lemma_longer(entries, n + 1);
        assert(entries.take(n + 1).drop_last() =~= entries.take(n));
    }
}

/// Lengths are counted up to this many bytes, which no limit reaches.
pub const PLENTY: u128 = 0x1_0000_0000_0000_0000;

/// A length, counted up to plenty.
pub open spec fn counted(len: nat) -> u128 {
    if len < PLENTY {
        len as u128
    } else {
        PLENTY
    }
}

/// The sum of two lengths, counted up to plenty.
fn plus(a: u128, b: u128, Ghost(x): Ghost<nat>, Ghost(y): Ghost<nat>) -> (sum: u128)
    requires
        a == counted(x),
        b == counted(y),
    ensures
        sum == counted(x + y),
{
    let sum: u128 = a + b;
    if sum < PLENTY {
        sum
    } else {
        PLENTY
    }
}

fn decimal_len(n: u64) -> (len: u128)
    ensures
        len == decimal(n as nat).len(),
        len <= n + 1,
    decreases n,
{
    if n < 10 {
        1
    } else {
        decimal_len(n / 10) + 1
    }
}

fn measure_text(s: &str) -> (len: u128)
    ensures
        len == counted(text_len(s@)),
{
    let chars = chars_of(s);
    let mut len: u128 = 0;
    let mut i: usize = 0;
    while i < chars.len()
        invariant
            i <= chars.len(),
            len == chars_len(chars@.take(i as int)),
            len <= 6 * i,
        decreases chars.len() - i,
    {
        assert(chars@.take(i + 1).drop_last() =~= chars@.take(i as int));
        let u: u32 = chars[i] as u32;
        let more: u128 = if u == 0x22 || u == 0x5C || u == 0x08 || u == 0x09 || u == 0x0A || u == 0x0C
            || u == 0x0D {
            2
        } else if u < 0x20 {
            6
        } else if u < 0x80 {
            1
        } else if u < 0x800 {
            2
        } else if u < 0x10000 {
            3
        } else {
            4
        };
        len = len + more;
        i += 1;
    }
    assert(chars@.take(chars.len() as int) =~= chars@);
    let total: u128 = len + 2;
    if total < PLENTY {
        total
    } else {
        PLENTY
    }
}

fn measure_session(session: &Option<Session>) -> (len: u128)
    ensures
        len == counted(session_len(*session)),
{
    match session {
        Some(s) => {
            let digits: u128 = decimal_len(s.client) + decimal_len(s.seq);
            if digits + 29 < PLENTY {
                digits + 29
            } else {
                PLENTY
            }
        },
        None => 0,
    }
}

fn measure_members(members: &Membership) -> (len: u128)
    ensures
        len == counted(members_len(members.ids(), members.addrs())),
{
    let ghost addrs = members.addrs();
    let mut rows: u128 = 0;
    let mut i: usize = 0;
    while i < members.len()
        invariant
            i <= members.ids().len(),
            addrs == members.addrs(),
            rows == counted(rows_len(members.ids().take(i as int), addrs)),
        decreases members.ids().len() - i,
    {
        let id: u64 = members.id_at(i);
        let addr = members.addr_at(i);
        let raft: u128 = measure_text(addr.raft.as_str());
        let client: u128 = measure_text(addr.client.as_str());
        let fixed: u128 = 22 + decimal_len(id);
        let ghost ids = members.ids().take(i as int);
        assert(members.ids().take(i + 1).drop_last() =~= ids);
        let head: u128 = if fixed < PLENTY {
            fixed
        } else {
            PLENTY
        };
        let addresses: u128 = plus(
            raft,
            client,
            Ghost(text_len(addr@.raft)),
            Ghost(text_len(addr@.client)),
        );
        let row: u128 = plus(
            head,
            addresses,
            Ghost(fixed as nat),
            Ghost(text_len(addr@.raft) + text_len(addr@.client)),
        );
        rows = plus(
            rows,
            row,
            Ghost(rows_len(ids, addrs)),
            Ghost(fixed as nat + (text_len(addr@.raft) + text_len(addr@.client))),
        );
        i += 1;
    }
    assert(members.ids().take(i as int) =~= members.ids());
    let commas: u128 = if i > 0 {
        i as u128 + 1
    } else {
        2
    };
    let rest: u128 = if commas < PLENTY {
        commas
    } else {
        PLENTY
    };
    plus(rows, rest, Ghost(rows_len(members.ids(), addrs)), Ghost(commas as nat))
}

fn measure_command(command: &Command) -> (len: u128)
    ensures
        len == counted(command_len(*command)),
{
    match command {
        Command::Put { key, value, session } => {
            let written: u128 = match value_bytes(value) {
                Some(text) => text.len() as u128,
                None => 0,
            };
            let words: u128 = plus(25, measure_text(key.as_str()), Ghost(25), Ghost(text_len(key@)));
            let with_value: u128 = plus(
                words,
                written,
                Ghost(25 + text_len(key@)),
                Ghost(value_len(*value)),
            );
            plus(
                with_value,
                measure_session(session),
                Ghost(25 + text_len(key@) + value_len(*value)),
                Ghost(session_len(*session)),
            )
        },
        Command::Delete { key, session } => {
            let words: u128 = plus(19, measure_text(key.as_str()), Ghost(19), Ghost(text_len(key@)));
            plus(
                words,
                measure_session(session),
                Ghost(19 + text_len(key@)),
                Ghost(session_len(*session)),
            )
        },
        Command::Noop => 6,
        Command::ConfigChange { members } => plus(
            29,
            measure_members(members),
            Ghost(29),
            Ghost(members_len(members.ids(), members.addrs())),
        ),
    }
}

/// The length of an entry's JSON text, counted up to plenty.
pub fn measure(entry: &LogEntry) -> (len: u128)
    ensures
        len == counted(entry_len(*entry)),
{
    let digits: u128 = decimal_len(entry.term) + decimal_len(entry.index);
    let fixed: u128 = 29 + digits;
    let head: u128 = if fixed < PLENTY {
        fixed
    } else {
        PLENTY
    };
    plus(
        head,
        measure_command(&entry.command),
        Ghost(fixed as nat),
        Ghost(command_len(entry.command)),
    )
}

/// How many of `entries` are sent at a time.
pub fn batch_len(entries: &[LogEntry], limit: Option<usize>) -> (n: usize)
    ensures
        n <= entries.len(),
        entries@.take(n as int) == batch(entries@, limit),
{
    let most: usize = match limit {
        Some(most) => most,
        None => {
            assert(entries@.take(entries.len() as int) =~= entries@);
            return entries.len();
        },
    };
    let mut total: u128 = 0;
    let mut n: usize = 0;
    assert(entries@.take(0) =~= Seq::empty());
    while n < entries.len()
        invariant
            n <= entries.len(),
            limit == Some(most),
            total == counted(entries_len(entries@.take(n as int))),
            n <= 1 || total <= most,
        decreases entries.len() - n,
    {
        assert(entries@.take(n + 1).drop_last() =~= entries@.take(n as int));
        let more: u128 = measure(&entries[n]);
        let longer: u128 = plus(
            total,
            more,
            Ghost(entries_len(entries@.take(n as int))),
            Ghost(entry_len(entries@[n as int])),
        );
        if n >= 1 && longer > most as u128 {
            proof {
                lemma_batch_is(entries@, most, n as int);
            }
            return n;
        }
        total = longer;
        n += 1;
    }
    proof {
        lemma_batch_is(entries@, most, n as int);
    }
    n
}

// ---- lengths ----

/// The length of a text inside a JSON string is that of its parts; a plain
/// ASCII character takes one byte, any character at least one and at most six,
/// and an empty text takes its quotes.
pub proof fn text_lengths_add_up(a: Seq<char>, b: Seq<char>, c: char)
    ensures
        text_len(a + b) + 2 == text_len(a) + text_len(b),
        text_len(Seq::empty()) == 2,
        1 <= char_len(c) <= 6,
        text_len(seq![c]) == char_len(c) + 2,
        'a' <= c <= 'z' || 'A' <= c <= 'Z' || '0' <= c <= '9' || c == ' ' || c == ':' || c == '/'
            || c == '.' || c == '-' ==> char_len(c) == 1,
        c == '"' || c == '\\' || c == '\n' || c == '\r' || c == '\t' ==> char_len(c) == 2,
    decreases b.len(),
{
    if b.len() == 0 {
        assert(a + b =~= a);
    } else {
        text_lengths_add_up(a, b.drop_last(), c);
        assert((a + b).drop_last() =~= a + b.drop_last());
        assert((a + b).last() == b.last());
    }
    assert(seq![c].drop_last() =~= Seq::<char>::empty());
    reveal_with_fuel(chars_len, 2);
}

/// The length of an entry is that of its JSON text, field by field: its term
/// and index in decimal, its command by its name, its key and addresses as JSON
/// strings, its value as it is written, its token where it has one.
pub proof fn an_entry_is_as_long_as_its_text(entry: LogEntry)
    ensures
        entry_len(entry) == ("{\"term\":"@ + decimal(entry.term as nat) + ",\"index\":"@ + decimal(
            entry.index as nat,
        ) + ",\"command\":"@).len() + command_len(entry.command) + 1,
        match entry.command {
            Command::Put { key, value, session } => command_len(entry.command) == (
            "{\"Put\":{\"key\":"@).len() + text_len(key@) + ",\"value\":"@.len() + value_len(value)
                + session_len(session) + "}}"@.len(),
            Command::Delete { key, session } => command_len(entry.command) == (
            "{\"Delete\":{\"key\":"@).len() + text_len(key@) + session_len(session) + "}}"@.len(),
            Command::Noop => command_len(entry.command) == "\"Noop\""@.len(),
            Command::ConfigChange { members } => command_len(entry.command) == (
            "{\"ConfigChange\":{\"members\":"@).len() + members_len(members.ids(), members.addrs())
                + "}}"@.len(),
        },
        forall|s: Session| #[trigger]
            session_len(Some(s)) == (",\"session\":{\"client\":"@ + decimal(s.client as nat)
                + ",\"seq\":"@ + decimal(s.seq as nat) + "}"@).len(),
        session_len(None) == 0,
{
    reveal_strlit("{\"term\":");
    reveal_strlit(",\"index\":");
    reveal_strlit(",\"command\":");
    reveal_strlit("{\"Put\":{\"key\":");
    reveal_strlit(",\"value\":");
    reveal_strlit("}}");
    reveal_strlit("{\"Delete\":{\"key\":");
    reveal_strlit("\"Noop\"");
    reveal_strlit("{\"ConfigChange\":{\"members\":");
    reveal_strlit(",\"session\":{\"client\":");
    reveal_strlit(",\"seq\":");
    reveal_strlit("}");
}

/// A configuration is as long as its members, each by its id in quotes and its
/// two addresses, with commas between them and braces around.
pub proof fn a_configuration_is_as_long_as_its_text(
    ids: Seq<NodeId>,
    addrs: Map<NodeId, AddrModel>,
    id: NodeId,
)
    ensures
        members_len(Seq::empty(), addrs) == 2,
        ({
            let row = ("\""@ + decimal(id as nat) + "\":{\"raft\":"@).len() + text_len(
                addrs[id].raft,
            ) + ",\"client\":"@.len() + text_len(addrs[id].client) + 1;
            members_len(ids.push(id), addrs) == members_len(ids, addrs) + row + if ids.len() > 0 {
                1int
            } else {
                0
            }
        }),
{
    reveal_strlit("\"");
    reveal_strlit("\":{\"raft\":");
    reveal_strlit(",\"client\":");
    assert(ids.push(id).drop_last() =~= ids);
    assert(ids.push(id).last() == id);
}

/// The length of a run of entries is that of its parts.
pub proof fn entry_lengths_add_up(a: Seq<LogEntry>, b: Seq<LogEntry>)
    ensures
        entries_len(a + b) == entries_len(a) + entries_len(b),
        a.len() == 1 ==> entries_len(a) == entry_len(a[0]),
    decreases b.len(),
{
    if b.len() == 0 {
        assert(a + b =~= a);
    } else {
        entry_lengths_add_up(a, b.drop_last());
        assert((a + b).drop_last() =~= a + b.drop_last());
    }
    if a.len() == 1 {
        assert(a.drop_last() =~= Seq::<LogEntry>::empty());
        reveal_with_fuel(entries_len, 2);
    }
}

} // verus!
