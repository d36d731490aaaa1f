//! Reading the log file back: cutting it into lines, and deciding which of
//! the decoded entries make up the retained log.

use vstd::prelude::*;
use vstd::string::*;

use super::storage::{numbered_from, StorageError};
use super::types::{LogEntry, LogIndex, Term};
use crate::text::{decimal, push_decimal};

verus! {

/// The byte that ends a line of the log file.
pub const NEWLINE: u8 = 10;

/// One line of the log file: bytes `start..end`, newline counted in.
/// `complete` says whether that newline is there.
#[derive(Debug, Clone, Copy, PartialEq, Eq, Structural)]
pub struct Chunk {
    pub start: usize,
    pub end: usize,
    pub complete: bool,
}

/// `chunks` cuts `bytes[..upto]` into lines behind each newline: the pieces
/// follow one another, none is empty, and a newline stands at the end of a
/// piece and nowhere else.
pub open spec fn cuts(bytes: Seq<u8>, upto: int, chunks: Seq<Chunk>) -> bool {
    &&& chunks.len() == 0 ==> upto == 0
    &&& chunks.len() > 0 ==> chunks[0].start == 0 && chunks.last().end == upto
    &&& forall|i: int|
        #![trigger chunks[i]]
        0 < i < chunks.len() ==> chunks[i].start == chunks[i - 1].end
    &&& forall|i: int|
        #![trigger chunks[i]]
        0 <= i < chunks.len() ==> {
            &&& chunks[i].start < chunks[i].end <= upto
            &&& chunks[i].complete == (bytes[chunks[i].end - 1] == NEWLINE)
            &&& forall|b: int| chunks[i].start <= b < chunks[i].end - 1 ==> bytes[b] != NEWLINE
        }
}

/// Every line but the last one ends in a newline.
pub open spec fn chunks_follow(chunks: Seq<Chunk>) -> bool {
    forall|i: int| #![trigger chunks[i]] 0 <= i < chunks.len() - 1 ==> chunks[i].complete
}

/// Cuts the log file's bytes into lines.
pub fn split_lines(bytes: &[u8]) -> (chunks: Vec<Chunk>)
    ensures
        cuts(bytes@, bytes.len() as int, chunks@),
        chunks_follow(chunks@),
{
    let mut chunks: Vec<Chunk> = Vec::new();
    let mut start: usize = 0;
    let mut i: usize = 0;
    while i < bytes.len()
        invariant
            start <= i <= bytes.len(),
            cuts(bytes@, start as int, chunks@),
            forall|k: int| #![trigger chunks[k]] 0 <= k < chunks.len() ==> chunks[k].complete,
            forall|b: int| start <= b < i ==> bytes[b] != NEWLINE,
        decreases bytes.len() - i,
    {
        if bytes[i] == NEWLINE {
            chunks.push(Chunk { start, end: i + 1, complete: true });
            start = i + 1;
        }
        i += 1;
    }
    if start < bytes.len() {
        chunks.push(Chunk { start, end: bytes.len(), complete: false });
    }
    chunks
}

/// Whether line `i` carries no usable entry.
pub open spec fn unusable(
    chunks: Seq<Chunk>,
    parsed: Seq<Result<LogEntry, String>>,
    i: int,
) -> bool {
    parsed[i] is Err || !chunks[i].complete
}

/// Whether line `i` is a malformed line before the last one.
pub open spec fn malformed(parsed: Seq<Result<LogEntry, String>>, i: int) -> bool {
    i < parsed.len() - 1 && parsed[i] is Err
}

/// Whether line `i` carries an entry that does not follow the one before.
pub open spec fn gap(
    chunks: Seq<Chunk>,
    parsed: Seq<Result<LogEntry, String>>,
    i: int,
) -> bool {
    &&& !unusable(chunks, parsed, i)
    &&& i > 0
    &&& parsed[i - 1] is Ok
    &&& parsed[i]->Ok_0.index != parsed[i - 1]->Ok_0.index + 1
}

/// Whether line `i` is damaged.
pub open spec fn damaged(
    chunks: Seq<Chunk>,
    parsed: Seq<Result<LogEntry, String>>,
    i: int,
) -> bool {
    0 <= i < parsed.len() && (malformed(parsed, i) || gap(chunks, parsed, i))
}

/// Whether line `i` is the first damaged one.
pub open spec fn first_damaged(
    chunks: Seq<Chunk>,
    parsed: Seq<Result<LogEntry, String>>,
    i: int,
) -> bool {
    &&& damaged(chunks, parsed, i)
    &&& forall|j: int| 0 <= j < i ==> !#[trigger] damaged(chunks, parsed, j)
}

/// Whether no line is damaged.
pub open spec fn undamaged(chunks: Seq<Chunk>, parsed: Seq<Result<LogEntry, String>>) -> bool {
    forall|i: int| !#[trigger] damaged(chunks, parsed, i)
}

/// Whether the final line is a torn append, to be dropped.
pub open spec fn torn(chunks: Seq<Chunk>, parsed: Seq<Result<LogEntry, String>>) -> bool {
    parsed.len() > 0 && unusable(chunks, parsed, parsed.len() - 1)
}

/// How many leading lines carry usable entries, in an undamaged log.
pub open spec fn good_lines(chunks: Seq<Chunk>, parsed: Seq<Result<LogEntry, String>>) -> int {
    if torn(chunks, parsed) {
        parsed.len() - 1
    } else {
        parsed.len() as int
    }
}

/// Where the usable lines end in the file.
pub open spec fn good_end(chunks: Seq<Chunk>, parsed: Seq<Result<LogEntry, String>>) -> int {
    let lines = good_lines(chunks, parsed);
    if lines == 0 {
        0
    } else {
        chunks[lines - 1].end as int
    }
}

/// The entries of the first `lines` lines.
pub open spec fn decoded(parsed: Seq<Result<LogEntry, String>>, lines: int) -> Seq<LogEntry> {
    Seq::new(lines as nat, |i: int| parsed[i]->Ok_0)
}

/// The entries of all usable lines.
pub open spec fn good_entries(
    chunks: Seq<Chunk>,
    parsed: Seq<Result<LogEntry, String>>,
) -> Seq<LogEntry> {
    decoded(parsed, good_lines(chunks, parsed))
}

/// The entries above `boundary`.
pub open spec fn kept_above(log: Seq<LogEntry>, boundary: int) -> Seq<LogEntry> {
    log.filter(|e: LogEntry| e.index > boundary)
}

/// Whether a run of entries reaches down to `boundary` or below it.
pub open spec fn overlaps(log: Seq<LogEntry>, boundary: int) -> bool {
    exists|k: int| #![trigger log[k]] 0 <= k < log.len() && log[k].index <= boundary
}

/// Whether a run of entries has another entry at `boundary` than the snapshot
/// there, whose term is `term`.
pub open spec fn diverges(log: Seq<LogEntry>, boundary: int, term: Option<Term>) -> bool {
    exists|k: int|
        #![trigger log[k]]
        0 <= k < log.len() && log[k].index == boundary && term is Some && log[k].term != term->0
}

/// What a log keeps behind a snapshot at `boundary`: what lies above it, or
/// nothing where the log diverges from the snapshot.
pub open spec fn retained(log: Seq<LogEntry>, boundary: int, term: Option<Term>) -> Seq<LogEntry> {
    if diverges(log, boundary, term) {
        Seq::empty()
    } else {
        kept_above(log, boundary)
    }
}

/// Whether the log file can be read back behind a snapshot at `boundary`.
pub open spec fn replays(
    chunks: Seq<Chunk>,
    parsed: Seq<Result<LogEntry, String>>,
    boundary: LogIndex,
) -> bool {
    let kept = kept_above(good_entries(chunks, parsed), boundary as int);
    &&& undamaged(chunks, parsed)
    &&& kept.len() > 0 ==> kept[0].index == boundary + 1
}

/// What is said of damaged line `i`.
pub open spec fn line_fault(
    chunks: Seq<Chunk>,
    parsed: Seq<Result<LogEntry, String>>,
    i: int,
    path: Seq<char>,
) -> Seq<char> {
    if malformed(parsed, i) {
        path + ": bad line at byte "@ + decimal(chunks[i].start as nat) + ": "@
            + parsed[i]->Err_0@
    } else {
        path + ": expected index "@ + decimal((parsed[i - 1]->Ok_0.index + 1) as nat)
            + " at byte "@ + decimal(chunks[i].start as nat) + ", found "@ + decimal(
            parsed[i]->Ok_0.index as nat,
        )
    }
}

/// What is said of a log that does not continue the snapshot boundary.
pub open spec fn start_fault(first: LogIndex, boundary: LogIndex, path: Seq<char>) -> Seq<char> {
    path + ": log starts at index "@ + decimal(first as nat)
        + " but the snapshot boundary is "@ + decimal(boundary as nat)
}

/// What is said of a log file that cannot be read back: the first damaged
/// line if there is one, else where the log starts.
pub open spec fn replay_fault(
    chunks: Seq<Chunk>,
    parsed: Seq<Result<LogEntry, String>>,
    boundary: LogIndex,
    path: Seq<char>,
) -> Seq<char> {
    if undamaged(chunks, parsed) {
        start_fault(
            kept_above(good_entries(chunks, parsed), boundary as int)[0].index,
            boundary,
            path,
        )
    } else {
        line_fault(chunks, parsed, choose|i: int| first_damaged(chunks, parsed, i), path)
    }
}

/// What was read back from the log file.
#[derive(Debug, PartialEq)]
pub struct Replay {
    /// The retained entries.
    pub log: Vec<LogEntry>,
    /// Byte offset just past the last usable line.
    pub good_end: usize,
    /// Whether a torn final line lies behind it.
    pub torn: bool,
    /// Whether lines were read that the snapshot covers.
    pub overlap: bool,
}

/// Validates the decoded lines of the log file.
///
/// Entries at or below `snapshot_index` are skipped (still validated): a
/// crash between writing the snapshot and rewriting the log leaves the old
/// log overlapping the boundary. What lies above must then continue exactly
/// at `snapshot_index + 1`; it is dropped where the line at the boundary has
/// another term than the snapshot, as installing the snapshot would have.
pub fn replay_log(
    chunks: &Vec<Chunk>,
    parsed: Vec<Result<LogEntry, String>>,
    snapshot_index: LogIndex,
    snapshot_term: Option<Term>,
    path: &str,
) -> (replay: Result<Replay, StorageError>)
    requires
        chunks.len() == parsed.len(),
        chunks_follow(chunks@),
    ensures
        match replay {
            Ok(replay) => {
                &&& replays(chunks@, parsed@, snapshot_index)
                &&& replay.log@ == retained(
                    good_entries(chunks@, parsed@),
                    snapshot_index as int,
                    snapshot_term,
                )
                &&& replay.overlap == overlaps(
                    good_entries(chunks@, parsed@),
                    snapshot_index as int,
                )
                &&& numbered_from(replay.log@, snapshot_index + 1)
                &&& replay.torn == torn(chunks@, parsed@)
                &&& replay.good_end == good_end(chunks@, parsed@)
            },
            Err(StorageError::Corrupt(message)) => {
                &&& !replays(chunks@, parsed@, snapshot_index)
                &&& message@ == replay_fault(chunks@, parsed@, snapshot_index, path@)
            },
            Err(_) => false,
        },
{
    let n: usize = parsed.len();
    let mut log: Vec<LogEntry> = Vec::new();
    let mut previous: Option<LogIndex> = None;
    let mut good: usize = 0;
    let mut is_torn = false;
    let mut overlap = false;
    let mut diverged = false;
    let mut i: usize = 0;
    proof {
        reveal(Seq::filter);
        assert(decoded(parsed@, 0) =~= Seq::empty());
    }
    while i < n && !is_torn
        invariant
            n == parsed.len() == chunks.len(),
            i <= n,
            chunks_follow(chunks@),
            is_torn ==> i == n - 1 && torn(chunks@, parsed@),
            forall|j: int| 0 <= j < i ==> !#[trigger] damaged(chunks@, parsed@, j),
            forall|j: int| 0 <= j < i ==> !#[trigger] unusable(chunks@, parsed@, j),
            previous == (if i == 0 {
                None
            } else {
                Some(parsed[i - 1]->Ok_0.index)
            }),
            good == (if i == 0 {
                0
            } else {
                chunks[i - 1].end
            }),
            log@ == kept_above(decoded(parsed@, i as int), snapshot_index as int),
            overlap == overlaps(decoded(parsed@, i as int), snapshot_index as int),
            diverged == diverges(decoded(parsed@, i as int), snapshot_index as int, snapshot_term),
            log.len() > 0 ==> i > 0 && log@.last().index == parsed[i - 1]->Ok_0.index,
            log.len() > 0 ==> numbered_from(log@, log[0].index as int),
            forall|k: int| #![trigger log[k]] 0 <= k < log.len() ==> log[k].index > snapshot_index,
        decreases n - i, (if is_torn { 0int } else { 1int }),
    {
        let start: usize = chunks[i].start;
        match &parsed[i] {
            Ok(entry) => {
                if chunks[i].complete {
                    assert(!unusable(chunks@, parsed@, i as int));
                    if let Some(before) = previous {
                        assert(!unusable(chunks@, parsed@, i - 1));
                        if before == u64::MAX || entry.index != before + 1 {
                            let mut message = String::from_str(path);
                            message.append(": expected index ");
                            push_decimal(&mut message, before as u128 + 1);
                            message.append(" at byte ");
                            push_decimal(&mut message, start as u128);
                            message.append(", found ");
                            push_decimal(&mut message, entry.index as u128);
                            proof {
                                assert(gap(chunks@, parsed@, i as int));
                                lemma_first_damaged(chunks@, parsed@, i as int);
                            }
                            return Err(StorageError::Corrupt(message));
                        }
                    }
                    assert(!damaged(chunks@, parsed@, i as int));
                    let ghost before_log = log@;
                    previous = Some(entry.index);
                    proof {
                        reveal(Seq::filter);
                        let here = decoded(parsed@, i + 1);
                        assert(here.drop_last() =~= decoded(parsed@, i as int));
                        assert(here.last() == *entry);
                        lemma_one_more_line(
                            decoded(parsed@, i as int),
                            *entry,
                            snapshot_index as int,
                            snapshot_term,
                        );
                        assert(here =~= decoded(parsed@, i as int).push(*entry));
                    }
                    if entry.index > snapshot_index {
                        log.push(entry.clone());
                    } else {
                        overlap = true;
                        if entry.index == snapshot_index {
                            if let Some(term) = snapshot_term {
                                if entry.term != term {
                                    diverged = true;
                                }
                            }
                        }
                    }
                    good = chunks[i].end;
                    i += 1;
                } else {
                    assert(i == n - 1);
                    is_torn = true;
                }
            },
            Err(e) => {
                if i == n - 1 {
                    is_torn = true;
                } else {
                    let mut message = String::from_str(path);
                    message.append(": bad line at byte ");
                    push_decimal(&mut message, start as u128);
                    message.append(": ");
                    message.append(e.as_str());
                    proof {
                        assert(malformed(parsed@, i as int));
                        lemma_first_damaged(chunks@, parsed@, i as int);
                    }
                    return Err(StorageError::Corrupt(message));
                }
            },
        }
    }
    proof {
        assert forall|j: int| !#[trigger] damaged(chunks@, parsed@, j) by {
            if 0 <= j < n && j >= i {
                assert(is_torn && j == n - 1);
            }
        }
        if !is_torn && n > 0 {
            assert(!unusable(chunks@, parsed@, n - 1));
        }
        assert(good_lines(chunks@, parsed@) == i);
    }
    if log.len() > 0 && (snapshot_index == u64::MAX || log[0].index != snapshot_index + 1) {
        let mut message = String::from_str(path);
        message.append(": log starts at index ");
        push_decimal(&mut message, log[0].index as u128);
        message.append(" but the snapshot boundary is ");
        push_decimal(&mut message, snapshot_index as u128);
        return Err(StorageError::Corrupt(message));
    }
    if diverged {
        log = Vec::new();
    }
    Ok(Replay { log, good_end: good, torn: is_torn, overlap })
}

/// What one more line changes of the overlap with a snapshot.
proof fn lemma_one_more_line(log: Seq<LogEntry>, entry: LogEntry, boundary: int, term: Option<Term>)
    ensures
        overlaps(log.push(entry), boundary) == (overlaps(log, boundary) || entry.index <= boundary),
        diverges(log.push(entry), boundary, term) == (diverges(log, boundary, term) || (entry.index
            == boundary && term is Some && entry.term != term->0)),
{
    let more = log.push(entry);
    assert(more[log.len() as int] == entry);
    assert forall|k: int| 0 <= k < log.len() implies #[trigger] more[k] == log[k] by {
    }
    if overlaps(log, boundary) {
        let k = choose|k: int| #![trigger log[k]] 0 <= k < log.len() && log[k].index <= boundary;
        assert(more[k] == log[k]);
    }
    if diverges(log, boundary, term) {
        let k = choose|k: int|
            #![trigger log[k]]
            0 <= k < log.len() && log[k].index == boundary && term is Some && log[k].term != term->0;
        assert(more[k] == log[k]);
    }
}

/// The first damaged line is unique.
proof fn lemma_first_damaged(
    chunks: Seq<Chunk>,
    parsed: Seq<Result<LogEntry, String>>,
    i: int,
)
    requires
        damaged(chunks, parsed, i),
        forall|j: int| 0 <= j < i ==> !#[trigger] damaged(chunks, parsed, j),
    ensures
        !undamaged(chunks, parsed),
        i == (choose|k: int| first_damaged(chunks, parsed, k)),
{
    assert(first_damaged(chunks, parsed, i));
    let k = choose|k: int| first_damaged(chunks, parsed, k);
    assert(first_damaged(chunks, parsed, k));
    if k < i {
        assert(!damaged(chunks, parsed, k));
    } else if i < k {
        assert(!damaged(chunks, parsed, i));
    }
}

// ---- what reading back comes to ----

/// Whether every line is whole: ended by a newline, readable, and numbered one
/// behind the line before.
pub open spec fn whole(chunks: Seq<Chunk>, parsed: Seq<Result<LogEntry, String>>) -> bool {
    &&& chunks.len() == parsed.len()
    &&& forall|i: int|
        #![trigger parsed[i]]
        0 <= i < parsed.len() ==> chunks[i].complete && parsed[i] is Ok && parsed[i]->Ok_0.index
            == parsed[0]->Ok_0.index + i
}

/// A whole log is read back entry by entry, with nothing to cut off: what lies
/// above the snapshot boundary is kept as it is, unless the line at the
/// boundary has another term than the snapshot, which leaves nothing.
pub proof fn a_whole_log_is_read_back(
    chunks: Seq<Chunk>,
    parsed: Seq<Result<LogEntry, String>>,
    boundary: LogIndex,
    term: Option<Term>,
)
    requires
        whole(chunks, parsed),
        parsed.len() > 0,
        parsed[0]->Ok_0.index <= boundary + 1,
    ensures
        replays(chunks, parsed, boundary),
        !torn(chunks, parsed),
        good_end(chunks, parsed) == chunks[chunks.len() - 1].end,
        good_entries(chunks, parsed).len() == parsed.len(),
        forall|i: int|
            #![trigger parsed[i]]
            0 <= i < parsed.len() ==> good_entries(chunks, parsed)[i] == parsed[i]->Ok_0,
        ({
            let first = parsed[0]->Ok_0.index;
            let kept = retained(good_entries(chunks, parsed), boundary as int, term);
            let covered = boundary + 1 - first;
            let differs = 0 < covered <= parsed.len() && term is Some && parsed[covered
                - 1]->Ok_0.term != term->0;
            &&& differs ==> kept.len() == 0
            &&& !differs && covered >= parsed.len() ==> kept.len() == 0
            &&& !differs && covered < parsed.len() ==> {
                &&& kept.len() == parsed.len() - covered
                &&& forall|i: int|
                    #![trigger kept[i]]
                    0 <= i < kept.len() ==> kept[i] == parsed[covered + i]->Ok_0
            }
        }),
{
    assert(!unusable(chunks, parsed, parsed.len() - 1)) by {
        assert(parsed[parsed.len() - 1] is Ok);
    }
    let log = good_entries(chunks, parsed);
    let first = parsed[0]->Ok_0.index;
    let covered = boundary + 1 - first;
    assert forall|i: int| #![trigger log[i]] 0 <= i < log.len() implies log[i].index == first + i by {
        assert(parsed[i] is Ok);
    }
    assert forall|i: int| !#[trigger] damaged(chunks, parsed, i) by {
        if 0 <= i < parsed.len() {
            assert(parsed[i] is Ok);
            if i > 0 {
                assert(parsed[i - 1] is Ok);
            }
        }
    }
    lemma_kept_suffix(log, first as int, boundary as int);
    if 0 < covered <= parsed.len() {
        assert(log[covered - 1] == parsed[covered - 1]->Ok_0);
        assert(log[covered - 1].index == boundary);
    }
    assert(diverges(log, boundary as int, term) == (0 < covered <= parsed.len() && term is Some
        && parsed[covered - 1]->Ok_0.term != term->0)) by {
        if diverges(log, boundary as int, term) {
            let k = choose|k: int|
                #![trigger log[k]]
                0 <= k < log.len() && log[k].index == boundary && term is Some && log[k].term
                    != term->0;
            assert(k == covered - 1);
        }
    }
}

/// What a consecutive run keeps above a boundary is its end.
proof fn lemma_kept_suffix(log: Seq<LogEntry>, first: int, boundary: int)
    requires
        forall|i: int| #![trigger log[i]] 0 <= i < log.len() ==> log[i].index == first + i,
        first <= boundary + 1,
    ensures
        kept_above(log, boundary) == if boundary + 1 - first >= log.len() {
            Seq::empty()
        } else {
            log.skip(boundary + 1 - first)
        },
    decreases log.len(),
{
    reveal(Seq::filter);
    let covered = boundary + 1 - first;
    if log.len() > 0 {
        let init = log.drop_last();
        assert forall|i: int| #![trigger init[i]] 0 <= i < init.len() implies init[i].index == first
            + i by {
            assert(init[i] == log[i]);
        }
        lemma_kept_suffix(init, first, boundary);
        assert(log.last() == log[log.len() - 1]);
        if covered < log.len() {
            if covered < init.len() {
                assert(init.skip(covered).push(log.last()) =~= log.skip(covered));
            } else {
                assert(Seq::<LogEntry>::empty().push(log.last()) =~= log.skip(covered));
            }
        }
    }
}

/// A torn last line is cut off and nothing else: the log is read back as if the
/// line were not there, and the file is good up to where the line starts.
pub proof fn a_torn_last_line_is_cut_off(
    chunks: Seq<Chunk>,
    parsed: Seq<Result<LogEntry, String>>,
    boundary: LogIndex,
)
    requires
        chunks.len() == parsed.len(),
        parsed.len() > 0,
        parsed[parsed.len() - 1] is Err || !chunks[chunks.len() - 1].complete,
        whole(chunks.drop_last(), parsed.drop_last()),
    ensures
        torn(chunks, parsed),
        good_entries(chunks, parsed) == good_entries(chunks.drop_last(), parsed.drop_last()),
        replays(chunks, parsed, boundary) == replays(
            chunks.drop_last(),
            parsed.drop_last(),
            boundary,
        ),
        good_end(chunks, parsed) == (if parsed.len() == 1 {
            0
        } else {
            chunks[chunks.len() - 2].end as int
        }),
{
    let n = parsed.len() - 1;
    let short = parsed.drop_last();
    let cut = chunks.drop_last();
    assert(unusable(chunks, parsed, n));
    if n > 0 {
        assert(short[n - 1] is Ok);
        assert(cut[n - 1].complete);
        assert(!unusable(cut, short, n - 1));
    }
    assert(!torn(cut, short));
    assert(good_entries(chunks, parsed) =~= good_entries(cut, short)) by {
        assert forall|i: int| 0 <= i < n implies good_entries(chunks, parsed)[i] == good_entries(
            cut,
            short,
        )[i] by {
            assert(short[i] == parsed[i]);
        }
    }
    assert forall|i: int| !#[trigger] damaged(chunks, parsed, i) by {
        if 0 <= i < n {
            assert(short[i] == parsed[i]);
            assert(short[i] is Ok);
            if i > 0 {
                assert(short[i - 1] == parsed[i - 1]);
                assert(short[i - 1] is Ok);
            }
        }
    }
    assert forall|i: int| !#[trigger] damaged(cut, short, i) by {
        if 0 <= i < n {
            assert(short[i] is Ok);
            if i > 0 {
                assert(short[i - 1] is Ok);
            }
        }
    }
}

/// Damage before the end is never read over: a line that cannot be read and is
/// not the last, and an entry that does not follow the one before it, make the
/// log unreadable.
pub proof fn damage_before_the_end_is_refused(
    chunks: Seq<Chunk>,
    parsed: Seq<Result<LogEntry, String>>,
    boundary: LogIndex,
    i: int,
)
    requires
        chunks.len() == parsed.len(),
        0 <= i < parsed.len(),
        ({
            ||| parsed[i] is Err && i < parsed.len() - 1
            ||| i > 0 && chunks[i].complete && parsed[i] is Ok && parsed[i - 1] is Ok
                && parsed[i]->Ok_0.index != parsed[i - 1]->Ok_0.index + 1
        }),
    ensures
        !replays(chunks, parsed, boundary),
{
    assert(damaged(chunks, parsed, i));
}

/// A log that does not reach down to the boundary is refused: something is
/// missing between the snapshot and it.
pub proof fn a_gap_behind_the_snapshot_is_refused(
    chunks: Seq<Chunk>,
    parsed: Seq<Result<LogEntry, String>>,
    boundary: LogIndex,
)
    requires
        whole(chunks, parsed),
        parsed.len() > 0,
        parsed[0]->Ok_0.index > boundary + 1,
    ensures
        !replays(chunks, parsed, boundary),
{
    assert(!unusable(chunks, parsed, parsed.len() - 1)) by {
        assert(parsed[parsed.len() - 1] is Ok);
    }
    let log = good_entries(chunks, parsed);
    assert forall|e: LogEntry| #[trigger] log.contains(e) implies e.index > boundary by {
        let i = choose|i: int| 0 <= i < log.len() && log[i] == e;
        assert(parsed[i] is Ok);
    }
    lemma_all_kept(log, boundary as int);
    assert(log[0] == parsed[0]->Ok_0);
}

proof fn lemma_all_kept(log: Seq<LogEntry>, boundary: int)
    requires
        forall|e: LogEntry| #[trigger] log.contains(e) ==> e.index > boundary,
    ensures
        kept_above(log, boundary) == log,
    decreases log.len(),
{
    reveal(Seq::filter);
    if log.len() > 0 {
        let init = log.drop_last();
        assert forall|e: LogEntry| #[trigger] init.contains(e) implies e.index > boundary by {
            let i = choose|i: int| 0 <= i < init.len() && init[i] == e;
            assert(log[i] == e);
            assert(log.contains(e));
        }
        lemma_all_kept(init, boundary);
        assert(log.contains(log.last()));
        assert(init.push(log.last()) =~= log);
    }
}

} // verus!
