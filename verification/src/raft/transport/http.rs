//! Node-to-node transport over HTTP/1.1: what one exchange looks like on the
//! wire, which connections are kept for the next one, and how long an
//! exchange may take.
//!
//! Each RPC is a `POST /raft` to the peer's raft address. Connections are
//! persistent, pooled per *address*: checkout is exclusive (a connection
//! serves one RPC at a time), checkin happens only at the successful tail (a
//! fully-consumed, Content-Length-framed 200), so a stream dropped by the RPC
//! timeout can never re-enter the pool. A failed attempt on a *pooled*
//! connection is retried once on a fresh one (the stale-idle race).
//!
//! Failure mapping mirrors a real network: connect/IO/parse errors and slow
//! peers all surface as [`TransportError::Timeout`]; only an id missing from
//! the peer map is `Unreachable`.

use std::collections::HashMap;

use vstd::prelude::*;
use vstd::string::*;
use vstd::utf8::{decode_utf8, valid_utf8};

use super::TransportError;
use crate::raft::types::NodeId;
use crate::text::{
    chars_of, decimal, is_space, number, parse_number, push_decimal, split, split_bounds, text_of,
    trim, trim_bounds, white_space,
};

verus! {

broadcast use vstd::std_specs::hash::group_hash_axioms;

/// Idle connections kept per address; parallelism beyond this churns (extra
/// connections are opened per RPC and dropped instead of pooled).
pub const MAX_IDLE_PER_PEER: usize = 4;

/// Backstop against a peer streaming garbage instead of a header terminator.
pub const MAX_RESPONSE_HEAD: usize = 16384;

/// Bodies up to this size are sent within the flat timeout.
pub const SMALL_BODY: u64 = 65536;

// ---- the response head ----

/// Whether the empty line that ends a head starts at `i`.
pub open spec fn ends_head(buf: Seq<u8>, i: int) -> bool {
    0 <= i && i + 4 <= buf.len() && buf[i] == 13 && buf[i + 1] == 10 && buf[i + 2] == 13 && buf[i
        + 3] == 10
}

/// Where the head ends: at the first empty line, if one is there yet.
pub fn find_header_end(buf: &[u8]) -> (end: Option<usize>)
    ensures
        match end {
            Some(i) => {
                &&& ends_head(buf@, i as int)
                &&& forall|j: int| 0 <= j < i ==> !#[trigger] ends_head(buf@, j)
            },
            None => forall|j: int| !#[trigger] ends_head(buf@, j),
        },
{
    let mut i: usize = 0;
    while i < buf.len() && buf.len() - i >= 4
        invariant
            i <= buf.len(),
            forall|j: int| 0 <= j < i ==> !#[trigger] ends_head(buf@, j),
        decreases buf.len() - i,
    {
        if buf[i] == 13 && buf[i + 1] == 10 && buf[i + 2] == 13 && buf[i + 3] == 10 {
            assert(ends_head(buf@, i as int));
            return Some(i);
        }
        i += 1;
    }
    None
}

/// What a response head says of its body and its connection.
#[derive(Debug, Clone, Copy, PartialEq, Eq, Structural)]
pub struct ResponseHead {
    pub content_length: Option<usize>,
    /// False when the server sent `Connection: close`.
    pub keep_alive: bool,
}

/// `std::str::from_utf8`: the text that bytes encode, if they are UTF-8.
#[verifier::external_body]
fn utf8_text(raw: &[u8]) -> (text: Option<&str>)
    ensures
        match text {
            Some(s) => valid_utf8(raw@) && s@ == decode_utf8(raw@),
            None => !valid_utf8(raw@),
        },
{
    std::str::from_utf8(raw).ok()
}

/// The runs of characters between white space, up to the last one that white
/// space has ended, and the run that is still open.
pub open spec fn words_and_rest(s: Seq<char>) -> (Seq<Seq<char>>, Seq<char>)
    decreases s.len(),
{
    if s.len() == 0 {
        (Seq::empty(), Seq::empty())
    } else {
        let (words, rest) = words_and_rest(s.drop_last());
        if !is_space(s.last()) {
            (words, rest.push(s.last()))
        } else if rest.len() > 0 {
            (words.push(rest), Seq::empty())
        } else {
            (words, rest)
        }
    }
}

/// The runs of characters between white space.
pub open spec fn words(s: Seq<char>) -> Seq<Seq<char>> {
    let (words, rest) = words_and_rest(s);
    if rest.len() > 0 {
        words.push(rest)
    } else {
        words
    }
}

/// The second word of a text, as bounds.
fn second_word(chars: &Vec<char>) -> (word: Option<(usize, usize)>)
    ensures
        match word {
            Some(bounds) => {
                &&& bounds.0 <= bounds.1 <= chars.len()
                &&& words(chars@).len() >= 2
                &&& chars@.subrange(bounds.0 as int, bounds.1 as int) == words(chars@)[1]
            },
            None => words(chars@).len() < 2,
        },
{
    let mut ended: usize = 0;
    let mut second: (usize, usize) = (0, 0);
    let mut start: usize = 0;
    let mut i: usize = 0;
    assert(chars@.subrange(0, 0) =~= Seq::empty());
    while i < chars.len()
        invariant
            start <= i <= chars.len(),
            ended <= i,
            words_and_rest(chars@.take(i as int)).0.len() == ended,
            chars@.subrange(start as int, i as int) == words_and_rest(chars@.take(i as int)).1,
            ended >= 2 ==> {
                &&& second.0 <= second.1 <= chars.len()
                &&& chars@.subrange(second.0 as int, second.1 as int) == words_and_rest(
                    chars@.take(i as int),
                ).0[1]
            },
        decreases chars.len() - i,
    {
        proof {
            assert(chars@.take(i + 1).drop_last() =~= chars@.take(i as int));
            assert(chars@.subrange(start as int, i as int).push(chars[i as int])
                =~= chars@.subrange(start as int, i + 1));
            assert(chars@.subrange(i + 1, i + 1) =~= Seq::empty());
        }
        if white_space(chars[i]) {
            if start < i {
                if ended == 1 {
                    second = (start, i);
                }
                ended += 1;
            }
            start = i + 1;
        }
        i += 1;
    }
    assert(chars@.take(chars.len() as int) =~= chars@);
    if ended >= 2 {
        Some(second)
    } else if ended == 1 && start < chars.len() {
        Some((start, chars.len()))
    } else {
        None
    }
}

/// An ASCII letter in lower case; any other character as it is.
pub open spec fn lower_char(c: char) -> char {
    if 'A' <= c <= 'Z' {
        ((c as u32 + 32) as u8) as char
    } else {
        c
    }
}

/// A text with its ASCII letters in lower case.
pub open spec fn lower(s: Seq<char>) -> Seq<char> {
    s.map_values(|c: char| lower_char(c))
}

fn to_lower(chars: &Vec<char>) -> (low: Vec<char>)
    ensures
        low@ == lower(chars@),
{
    let mut low: Vec<char> = Vec::with_capacity(chars.len());
    let mut i: usize = 0;
    while i < chars.len()
        invariant
            i <= chars.len(),
            low@ == lower(chars@.take(i as int)),
        decreases chars.len() - i,
    {
        let c: char = chars[i];
        if 'A' <= c && c <= 'Z' {
            low.push(((c as u32 + 32) as u8) as char);
        } else {
            low.push(c);
        }
        i += 1;
        assert(low@ =~= lower(chars@.take(i as int)));
    }
    assert(chars@.take(chars.len() as int) =~= chars@);
    low
}

/// Whether `pattern` stands in `s` at `i`.
pub open spec fn occurs_at(s: Seq<char>, pattern: Seq<char>, i: int) -> bool {
    0 <= i && i + pattern.len() <= s.len() && s.subrange(i, i + pattern.len()) == pattern
}

/// Whether `pattern` stands anywhere in `s`.
pub open spec fn contains_text(s: Seq<char>, pattern: Seq<char>) -> bool {
    exists|i: int| #[trigger] occurs_at(s, pattern, i)
}

/// Whether `pattern` stands at `at` in characters `..to`.
fn matches_at(chars: &Vec<char>, at: usize, to: usize, pattern: &Vec<char>) -> (found: bool)
    requires
        at <= to <= chars.len(),
    ensures
        found == (at + pattern.len() <= to && chars@.subrange(at as int, at + pattern.len())
            == pattern@),
{
    if pattern.len() > to - at {
        return false;
    }
    let mut k: usize = 0;
    while k < pattern.len()
        invariant
            k <= pattern.len() <= to - at,
            at <= to <= chars.len(),
            forall|j: int| 0 <= j < k ==> chars[at + j] == pattern[j],
        decreases pattern.len() - k,
    {
        if chars[at + k] != pattern[k] {
            assert(chars@.subrange(at as int, at + pattern.len())[k as int] != pattern@[k as int]);
            return false;
        }
        k += 1;
    }
    assert(chars@.subrange(at as int, at + pattern.len()) =~= pattern@);
    true
}

/// Whether `pattern` stands anywhere in characters `from..to`.
fn has_text(chars: &Vec<char>, from: usize, to: usize, pattern: &str) -> (found: bool)
    requires
        from <= to <= chars.len(),
    ensures
        found == contains_text(chars@.subrange(from as int, to as int), pattern@),
{
    let wanted = chars_of(pattern);
    let ghost part = chars@.subrange(from as int, to as int);
    let mut i: usize = from;
    while i <= to
        invariant
            from <= i <= to + 1,
            to <= chars.len(),
            wanted@ == pattern@,
            part == chars@.subrange(from as int, to as int),
            forall|j: int| 0 <= j < i - from ==> !#[trigger] occurs_at(part, pattern@, j),
        decreases to + 1 - i,
    {
        let there = matches_at(chars, i, to, &wanted);
        assert(there == occurs_at(part, pattern@, i - from)) by {
            if i + wanted.len() <= to {
                assert(part.subrange(i - from, i - from + wanted.len()) =~= chars@.subrange(
                    i as int,
                    i + wanted.len(),
                ));
            }
        }
        if there {
            return true;
        }
        if i == to {
            assert forall|j: int| !#[trigger] occurs_at(part, pattern@, j) by {}
            return false;
        }
        i += 1;
    }
    false
}

/// The first 80 characters of a text.
pub open spec fn first_80(s: Seq<char>) -> Seq<char> {
    if s.len() <= 80 {
        s
    } else {
        s.take(80)
    }
}

/// A line of a head: a terminated piece loses one carriage return at its end.
pub open spec fn line_of(piece: Seq<char>, terminated: bool) -> Seq<char> {
    if terminated && piece.len() > 0 && piece.last() == '\r' {
        piece.drop_last()
    } else {
        piece
    }
}

/// Line `k` of a head.
pub open spec fn head_line(pieces: Seq<Seq<char>>, k: int) -> Seq<char> {
    line_of(pieces[k], k < pieces.len() - 1)
}

/// Whether a comma-separated value lists `word`.
pub open spec fn value_lists(value: Seq<char>, word: Seq<char>) -> bool {
    exists|k: int|
        0 <= k < split(value, ',').len() && #[trigger] trim(split(value, ',')[k]) == word
}

/// Whether a line is the header `name` and its value lists `word`.
pub open spec fn line_says(line: Seq<char>, name: Seq<char>, word: Seq<char>) -> bool {
    occurs_at(line, name, 0) && value_lists(line.skip(name.len() as int), word)
}

/// Whether some line behind the status line is the header `name` and its value
/// lists `word`.
pub open spec fn header_says(low: Seq<char>, name: Seq<char>, word: Seq<char>) -> bool {
    exists|k: int|
        1 <= k < split(low, '\n').len() && #[trigger] line_says(
            head_line(split(low, '\n'), k),
            name,
            word,
        )
}

/// Whether a head announces a chunked body: in a `Transfer-Encoding` header,
/// however it is spaced, or spelled out anywhere.
pub open spec fn chunked(low: Seq<char>) -> bool {
    contains_text(low, "transfer-encoding: chunked"@) || header_says(
        low,
        "transfer-encoding:"@,
        "chunked"@,
    )
}

/// Whether a head closes the connection: in a `Connection` header, however it
/// is spaced, or spelled out anywhere.
pub open spec fn closing(low: Seq<char>) -> bool {
    contains_text(low, "connection: close"@) || header_says(low, "connection:"@, "close"@)
}

/// The header name whose value sizes the body.
pub open spec fn length_prefix() -> Seq<char> {
    "content-length:"@
}

/// What a line says of the body's size: nothing, a size, or something that is
/// not one.
pub open spec fn line_length(line: Seq<char>) -> Option<Result<usize, Seq<char>>> {
    if occurs_at(line, length_prefix(), 0) {
        match number(trim(line.skip(length_prefix().len() as int))) {
            Some(n) if n <= usize::MAX => Some(Ok(n as usize)),
            _ => Some(Err("bad content-length: "@ + first_80(line))),
        }
    } else {
        None
    }
}

/// What the lines behind the status line say of the body's size, where the
/// first `upto` of `pieces` were read: the last size counts, the first bad one
/// is the error.
pub open spec fn declared_length(pieces: Seq<Seq<char>>, upto: int) -> Result<
    Option<usize>,
    Seq<char>,
>
    decreases upto,
{
    if upto <= 1 {
        Ok(None)
    } else {
        match declared_length(pieces, upto - 1) {
            Err(e) => Err(e),
            Ok(before) => match line_length(head_line(pieces, upto - 1)) {
                None => Ok(before),
                Some(Ok(n)) => Ok(Some(n)),
                Some(Err(e)) => Err(e),
            },
        }
    }
}

/// The status code of a head.
pub open spec fn status_of(head: Seq<char>) -> Option<u16> {
    if words(head).len() < 2 {
        None
    } else {
        match number(words(head)[1]) {
            Some(n) if n <= u16::MAX => Some(n as u16),
            _ => None,
        }
    }
}

/// What a response head (status line + headers, without the final empty line)
/// comes to.
pub open spec fn read_head(raw: Seq<u8>) -> Result<ResponseHead, Seq<char>> {
    if !valid_utf8(raw) {
        Err("non-utf8 response head"@)
    } else {
        let head = decode_utf8(raw);
        let low = lower(head);
        match status_of(head) {
            None => Err("malformed status line: "@ + first_80(head)),
            Some(status) => {
                if status != 200 {
                    Err("raft rpc returned status "@ + decimal(status as nat))
                } else if chunked(low) {
                    Err("chunked responses are not supported"@)
                } else {
                    let pieces = split(low, '\n');
                    match declared_length(pieces, pieces.len() as int) {
                        Err(e) => Err(e),
                        Ok(content_length) => Ok(
                            ResponseHead {
                                content_length,
                                keep_alive: !closing(low),
                            },
                        ),
                    }
                }
            },
        }
    }
}

/// The first 80 characters of `chars[from..to]`, as a text.
fn clipped(chars: &Vec<char>, from: usize, to: usize) -> (text: String)
    requires
        from <= to <= chars.len(),
    ensures
        text@ == first_80(chars@.subrange(from as int, to as int)),
{
    let end: usize = if to - from <= 80 {
        to
    } else {
        from + 80
    };
    assert(chars@.subrange(from as int, end as int) =~= first_80(
        chars@.subrange(from as int, to as int),
    ));
    text_of(chars, from, end)
}

/// Reads what one line says of the body's size.
fn read_line_length(chars: &Vec<char>, from: usize, to: usize) -> (length: Option<
    Result<usize, String>,
>)
    requires
        from <= to <= chars.len(),
    ensures
        ({
            let said = line_length(chars@.subrange(from as int, to as int));
            match length {
                None => said is None,
                Some(Ok(n)) => said == Some(Ok::<usize, Seq<char>>(n)),
                Some(Err(e)) => said == Some(Err::<usize, Seq<char>>(e@)),
            }
        }),
{
    let prefix = chars_of("content-length:");
    let ghost line = chars@.subrange(from as int, to as int);
    let there = matches_at(chars, from, to, &prefix);
    assert(there == occurs_at(line, length_prefix(), 0)) by {
        if from + prefix.len() <= to {
            assert(line.subrange(0, prefix.len() as int) =~= chars@.subrange(
                from as int,
                from + prefix.len(),
            ));
        }
    }
    if !there {
        return None;
    }
    let value: usize = from + prefix.len();
    let (start, end) = trim_bounds(chars, value, to);
    assert(chars@.subrange(value as int, to as int) =~= line.skip(prefix.len() as int));
    match parse_number(chars, start, end) {
        Some(n) => if n <= usize::MAX as u64 {
            Some(Ok(n as usize))
        } else {
            Some(Err(String::from_str("bad content-length: ").concat(clipped(chars, from, to).as_str())))
        },
        None => Some(
            Err(String::from_str("bad content-length: ").concat(clipped(chars, from, to).as_str())),
        ),
    }
}

/// Whether the comma-separated value in characters `from..to` lists `word`.
fn lists_word(chars: &Vec<char>, from: usize, to: usize, word: &str) -> (found: bool)
    requires
        from <= to <= chars.len(),
    ensures
        found == value_lists(chars@.subrange(from as int, to as int), word@),
{
    let wanted = chars_of(word);
    let mut value: Vec<char> = Vec::with_capacity(to - from);
    let mut i: usize = from;
    while i < to
        invariant
            from <= i <= to <= chars.len(),
            value@ == chars@.subrange(from as int, i as int),
        decreases to - i,
    {
        value.push(chars[i]);
        i += 1;
        assert(value@ =~= chars@.subrange(from as int, i as int));
    }
    let ghost pieces = split(value@, ',');
    let bounds = split_bounds(&value, ',');
    let mut k: usize = 0;
    while k < bounds.len()
        invariant
            k <= bounds.len() == pieces.len(),
            wanted@ == word@,
            value@ == chars@.subrange(from as int, to as int),
            pieces == split(value@, ','),
            forall|j: int|
                #![trigger bounds[j]]
                0 <= j < bounds.len() ==> {
                    &&& bounds[j].0 <= bounds[j].1 <= value.len()
                    &&& value@.subrange(bounds[j].0 as int, bounds[j].1 as int) == pieces[j]
                },
            forall|j: int| 0 <= j < k ==> #[trigger] trim(pieces[j]) != word@,
        decreases bounds.len() - k,
    {
        let (start, end) = bounds[k];
        let (first, last) = trim_bounds(&value, start, end);
        let same = last - first == wanted.len() && matches_at(&value, first, last, &wanted);
        assert(same == (trim(pieces[k as int]) == word@));
        if same {
            return true;
        }
        k += 1;
    }
    false
}

/// Whether some header `name` has a value that lists `word`.
fn has_header(low: &Vec<char>, name: &str, word: &str) -> (found: bool)
    ensures
        found == header_says(low@, name@, word@),
{
    let ghost pieces = split(low@, '\n');
    let prefix = chars_of(name);
    let bounds = split_bounds(low, '\n');
    let mut k: usize = 1;
    while k < bounds.len()
        invariant
            1 <= k,
            bounds.len() == pieces.len(),
            prefix@ == name@,
            pieces == split(low@, '\n'),
            forall|j: int|
                #![trigger bounds[j]]
                0 <= j < bounds.len() ==> {
                    &&& bounds[j].0 <= bounds[j].1 <= low.len()
                    &&& low@.subrange(bounds[j].0 as int, bounds[j].1 as int) == pieces[j]
                },
            forall|j: int|
                1 <= j < k && j < pieces.len() ==> !#[trigger] line_says(
                    head_line(pieces, j),
                    name@,
                    word@,
                ),
        decreases bounds.len() - k,
    {
        let (start, piece_end) = bounds[k];
        let end: usize = if k < bounds.len() - 1 && start < piece_end && low[piece_end - 1] == '\r' {
            piece_end - 1
        } else {
            piece_end
        };
        let ghost line = head_line(pieces, k as int);
        assert(low@.subrange(start as int, end as int) =~= line);
        let there = matches_at(low, start, end, &prefix);
        assert(there == occurs_at(line, name@, 0)) by {
            if start + prefix.len() <= end {
                assert(line.subrange(0, prefix.len() as int) =~= low@.subrange(
                    start as int,
                    start + prefix.len(),
                ));
            }
        }
        if there {
            let value: usize = start + prefix.len();
            assert(low@.subrange(value as int, end as int) =~= line.skip(prefix.len() as int));
            if lists_word(low, value, end, word) {
                assert(line_says(head_line(pieces, k as int), name@, word@));
                return true;
            }
        }
        k += 1;
    }
    false
}

/// Reads what the headers say of the body's size.
fn read_length(low: &Vec<char>) -> (length: Result<Option<usize>, String>)
    ensures
        ({
            let pieces = split(low@, '\n');
            match length {
                Ok(n) => declared_length(pieces, pieces.len() as int) == Ok::<
                    Option<usize>,
                    Seq<char>,
                >(n),
                Err(e) => declared_length(pieces, pieces.len() as int) == Err::<
                    Option<usize>,
                    Seq<char>,
                >(e@),
            }
        }),
{
    let ghost pieces = split(low@, '\n');
    let bounds = split_bounds(low, '\n');
    let mut content_length: Option<usize> = None;
    let mut k: usize = 1;
    if bounds.len() == 0 {
        return Ok(None);
    }
    while k < bounds.len()
        invariant
            1 <= k <= bounds.len() == pieces.len(),
            pieces == split(low@, '\n'),
            forall|j: int|
                #![trigger bounds[j]]
                0 <= j < bounds.len() ==> {
                    &&& bounds[j].0 <= bounds[j].1 <= low.len()
                    &&& low@.subrange(bounds[j].0 as int, bounds[j].1 as int) == pieces[j]
                },
            declared_length(pieces, k as int) == Ok::<Option<usize>, Seq<char>>(content_length),
        decreases bounds.len() - k,
    {
        let (start, piece_end) = bounds[k];
        let end: usize = if k < bounds.len() - 1 && start < piece_end && low[piece_end - 1] == '\r' {
            piece_end - 1
        } else {
            piece_end
        };
        assert(low@.subrange(start as int, end as int) =~= head_line(pieces, k as int));
        match read_line_length(low, start, end) {
            None => {},
            Some(Ok(n)) => {
                content_length = Some(n);
            },
            Some(Err(e)) => {
                proof {
                    lemma_length_fault_stays(pieces, k + 1, pieces.len() as int);
                }
                return Err(e);
            },
        }
        k += 1;
    }
    Ok(content_length)
}

proof fn lemma_length_fault_stays(pieces: Seq<Seq<char>>, from: int, upto: int)
    requires
        1 <= from <= upto,
        declared_length(pieces, from) is Err,
    ensures
        declared_length(pieces, upto) == declared_length(pieces, from),
    decreases upto,
{
    if from < upto {
        lemma_length_fault_stays(pieces, from, upto - 1);
    }
}

/// Parses a response head (status line + headers, without the trailing empty
/// line). Non-200 and chunked responses are errors: the caller treats them
/// like any transport failure, and they are never repooled.
pub fn parse_response_head(raw: &[u8]) -> (head: Result<ResponseHead, String>)
    ensures
        match head {
            Ok(h) => read_head(raw@) == Ok::<ResponseHead, Seq<char>>(h),
            Err(e) => read_head(raw@) == Err::<ResponseHead, Seq<char>>(e@),
        },
{
    let text = match utf8_text(raw) {
        Some(text) => text,
        None => {
            return Err(String::from_str("non-utf8 response head"));
        },
    };
    let chars = chars_of(text);
    assert(chars@.subrange(0, chars.len() as int) =~= chars@);
    let status: Option<u64> = match second_word(&chars) {
        Some((start, end)) => parse_number(&chars, start, end),
        None => None,
    };
    let code: u64 = match status {
        Some(n) => n,
        None => 65536,
    };
    if code > 65535 {
        return Err(
            String::from_str("malformed status line: ").concat(
                clipped(&chars, 0, chars.len()).as_str(),
            ),
        );
    }
    if code != 200 {
        let mut message = String::from_str("raft rpc returned status ");
        push_decimal(&mut message, code as u128);
        return Err(message);
    }
    let low = to_lower(&chars);
    assert(low@.subrange(0, low.len() as int) =~= low@);
    if has_text(&low, 0, low.len(), "transfer-encoding: chunked") || has_header(
        &low,
        "transfer-encoding:",
        "chunked",
    ) {
        return Err(String::from_str("chunked responses are not supported"));
    }
    match read_length(&low) {
        Err(e) => Err(e),
        Ok(content_length) => {
            let keep_alive = !(has_text(&low, 0, low.len(), "connection: close") || has_header(
                &low,
                "connection:",
                "close",
            ));
            Ok(ResponseHead { content_length, keep_alive })
        },
    }
}

// ---- one exchange ----

/// The head of a request (persistent: no `Connection: close`).
pub open spec fn request_text(path: Seq<char>, addr: Seq<char>, length: nat) -> Seq<char> {
    "POST "@ + path + " HTTP/1.1\r\nHost: "@ + addr
        + "\r\nContent-Type: application/json\r\nContent-Length: "@ + decimal(length)
        + "\r\n\r\n"@
}

/// The head of a request for `path` at `addr` with a body of `length` bytes.
pub fn request_head(path: &str, addr: &str, length: usize) -> (head: String)
    ensures
        head@ == request_text(path@, addr@, length as nat),
{
    let mut head = String::from_str("POST ");
    head.append(path);
    head.append(" HTTP/1.1\r\nHost: ");
    head.append(addr);
    head.append("\r\nContent-Type: application/json\r\nContent-Length: ");
    push_decimal(&mut head, length as u128);
    head.append("\r\n\r\n");
    head
}

/// How far a response has been read. The connection is clean for reuse only
/// if exactly the declared Content-Length was consumed and the server did not
/// opt out of keep-alive; a 200 without Content-Length is read to close.
#[derive(Debug)]
pub enum Reading {
    /// Looking for the end of the head.
    Head { buf: Vec<u8> },
    /// Reading a body of `length` bytes, of which some are still missing.
    Sized { body: Vec<u8>, length: usize, keep_alive: bool },
    /// Reading a body that ends where the connection does.
    ToClose { body: Vec<u8> },
}

/// What one more event makes of a response.
#[derive(Debug)]
pub enum Progress {
    /// Read on.
    More(Reading),
    /// The body, and whether the connection may be used again.
    Done { body: Vec<u8>, reusable: bool },
    /// The exchange failed.
    Failed(String),
}

/// How far a response has been read, by the bytes.
#[verifier::ext_equal]
pub enum ReadingModel {
    Head { buf: Seq<u8> },
    Sized { body: Seq<u8>, length: usize, keep_alive: bool },
    ToClose { body: Seq<u8> },
}

/// What one more event makes of a response, by the bytes.
#[verifier::ext_equal]
pub enum ProgressModel {
    More(ReadingModel),
    Done { body: Seq<u8>, reusable: bool },
    Failed(Seq<char>),
}

impl View for Reading {
    type V = ReadingModel;

    open spec fn view(&self) -> ReadingModel {
        match self {
            Reading::Head { buf } => ReadingModel::Head { buf: buf@ },
            Reading::Sized { body, length, keep_alive } => ReadingModel::Sized {
                body: body@,
                length: *length,
                keep_alive: *keep_alive,
            },
            Reading::ToClose { body } => ReadingModel::ToClose { body: body@ },
        }
    }
}

impl View for Progress {
    type V = ProgressModel;

    open spec fn view(&self) -> ProgressModel {
        match self {
            Progress::More(reading) => ProgressModel::More(reading@),
            Progress::Done { body, reusable } => ProgressModel::Done {
                body: body@,
                reusable: *reusable,
            },
            Progress::Failed(message) => ProgressModel::Failed(message@),
        }
    }
}

/// Where the head ends in `buf`.
pub open spec fn head_end(buf: Seq<u8>) -> int {
    choose|i: int|
        ends_head(buf, i) && forall|j: int| 0 <= j < i ==> !#[trigger] ends_head(buf, j)
}

/// A response whose head is whole: what its body makes of it.
pub open spec fn begin_body(head: ResponseHead, body: Seq<u8>) -> ProgressModel {
    match head.content_length {
        Some(length) => {
            if body.len() < length {
                ProgressModel::More(
                    ReadingModel::Sized { body, length, keep_alive: head.keep_alive },
                )
            } else {
                // Bytes beyond the declared body leave the connection in an
                // unknowable state: the body counts, the connection does not.
                ProgressModel::Done {
                    body: body.take(length as int),
                    reusable: head.keep_alive && body.len() == length,
                }
            }
        },
        None => ProgressModel::More(ReadingModel::ToClose { body }),
    }
}

impl ReadingModel {
    /// A body in progress lacks at least one byte.
    pub open spec fn wf(self) -> bool {
        match self {
            ReadingModel::Sized { body, length, .. } => body.len() < length,
            _ => true,
        }
    }

    /// How many bytes may be read next.
    pub open spec fn wanted(self) -> int {
        match self {
            ReadingModel::Sized { body, length, .. } => length - body.len(),
            _ => 4096,
        }
    }

    /// After `chunk` has arrived.
    pub open spec fn after_bytes(self, chunk: Seq<u8>) -> ProgressModel {
        match self {
            ReadingModel::Head { buf } => {
                let all = buf + chunk;
                if exists|i: int| #[trigger] ends_head(all, i) {
                    match read_head(all.take(head_end(all))) {
                        Err(e) => ProgressModel::Failed(e),
                        Ok(head) => begin_body(head, all.skip(head_end(all) + 4)),
                    }
                } else if all.len() > MAX_RESPONSE_HEAD {
                    ProgressModel::Failed("response head too large"@)
                } else {
                    ProgressModel::More(ReadingModel::Head { buf: all })
                }
            },
            ReadingModel::Sized { body, length, keep_alive } => {
                let all = body + chunk;
                if all.len() < length {
                    ProgressModel::More(ReadingModel::Sized { body: all, length, keep_alive })
                } else {
                    ProgressModel::Done { body: all, reusable: keep_alive }
                }
            },
            ReadingModel::ToClose { body } => ProgressModel::More(
                ReadingModel::ToClose { body: body + chunk },
            ),
        }
    }

    /// After the peer has closed the connection.
    pub open spec fn after_close(self) -> ProgressModel {
        match self {
            ReadingModel::Head { .. } => ProgressModel::Failed(
                "connection closed before response head"@,
            ),
            ReadingModel::Sized { .. } => ProgressModel::Failed("early eof"@),
            ReadingModel::ToClose { body } => ProgressModel::Done { body, reusable: false },
        }
    }
}

/// Appends a run of bytes.
fn extend(buf: &mut Vec<u8>, chunk: &[u8])
    ensures
        final(buf)@ == old(buf)@ + chunk@,
{
    let mut i: usize = 0;
    while i < chunk.len()
        invariant
            i <= chunk.len(),
            buf@ == old(buf)@ + chunk@.take(i as int),
        decreases chunk.len() - i,
    {
        buf.push(chunk[i]);
        i += 1;
        assert(buf@ =~= old(buf)@ + chunk@.take(i as int));
    }
    assert(chunk@.take(chunk.len() as int) =~= chunk@);
}

impl Reading {
    /// Nothing has been read yet.
    pub fn start() -> (reading: Self)
        ensures
            reading@ == (ReadingModel::Head { buf: Seq::empty() }),
            reading@.wf(),
    {
        Reading::Head { buf: Vec::new() }
    }

    /// How many bytes may be read next, so that a sized body is never read
    /// past its end.
    pub fn wanted(&self) -> (count: usize)
        requires
            self@.wf(),
        ensures
            count == self@.wanted(),
            count > 0,
    {
        match self {
            Reading::Sized { body, length, .. } => *length - body.len(),
            _ => 4096,
        }
    }

    /// Some bytes have arrived.
    pub fn on_bytes(self, chunk: &[u8]) -> (progress: Progress)
        requires
            self@.wf(),
            chunk.len() <= self@.wanted(),
        ensures
            progress@ == self@.after_bytes(chunk@),
            progress@ matches ProgressModel::More(next) ==> next.wf(),
    {
        let ghost before = self@;
        match self {
            Reading::Head { buf } => {
                let mut buf = buf;
                extend(&mut buf, chunk);
                match find_header_end(buf.as_slice()) {
                    Some(end) => {
                        assert(ends_head(buf@, end as int));
                        assert(head_end(buf@) == end) by {
                            let other = head_end(buf@);
                            assert(ends_head(buf@, other) && forall|j: int|
                                0 <= j < other ==> !#[trigger] ends_head(buf@, j));
                            if other < end {
                                assert(!ends_head(buf@, other));
                            } else if other > end {
                                assert(!ends_head(buf@, end as int));
                            }
                        }
                        let head_bytes = vstd::slice::slice_subrange(buf.as_slice(), 0, end);
                        assert(head_bytes@ =~= buf@.take(end as int));
                        let head = match parse_response_head(head_bytes) {
                            Ok(head) => head,
                            Err(e) => {
                                return Progress::Failed(e);
                            },
                        };
                        assert(end + 4 <= buf.len());
                        let body = buf.split_off(end + 4);
                        assert(body@ =~= (before->Head_buf + chunk@).skip(end + 4));
                        begin(head, body)
                    },
                    None => {
                        if buf.len() > MAX_RESPONSE_HEAD {
                            Progress::Failed(String::from_str("response head too large"))
                        } else {
                            Progress::More(Reading::Head { buf })
                        }
                    },
                }
            },
            Reading::Sized { body, length, keep_alive } => {
                let mut body = body;
                extend(&mut body, chunk);
                if body.len() < length {
                    Progress::More(Reading::Sized { body, length, keep_alive })
                } else {
                    Progress::Done { body, reusable: keep_alive }
                }
            },
            Reading::ToClose { body } => {
                let mut body = body;
                extend(&mut body, chunk);
                Progress::More(Reading::ToClose { body })
            },
        }
    }

    /// The peer has closed the connection.
    pub fn on_close(self) -> (progress: Progress)
        ensures
            progress@ == self@.after_close(),
    {
        match self {
            Reading::Head { .. } => Progress::Failed(
                String::from_str("connection closed before response head"),
            ),
            Reading::Sized { .. } => Progress::Failed(String::from_str("early eof")),
            Reading::ToClose { body } => Progress::Done { body, reusable: false },
        }
    }
}

/// The body begins.
fn begin(head: ResponseHead, body: Vec<u8>) -> (progress: Progress)
    ensures
        progress@ == begin_body(head, body@),
        progress@ matches ProgressModel::More(next) ==> next.wf(),
{
    match head.content_length {
        Some(length) => {
            if body.len() < length {
                Progress::More(Reading::Sized { body, length, keep_alive: head.keep_alive })
            } else {
                let exact = body.len() == length;
                let mut body = body;
                body.truncate(length);
                Progress::Done { body, reusable: head.keep_alive && exact }
            }
        },
        None => Progress::More(Reading::ToClose { body }),
    }
}

/// What follows an attempt at an exchange.
#[derive(Debug, Clone, Copy, PartialEq, Eq, Structural)]
pub enum AfterAttempt {
    /// Answer; keep the connection for the next exchange if `keep`.
    Answer { keep: bool },
    /// Try once more on a fresh connection.
    RetryFresh,
    /// Give up.
    GiveUp,
}

/// Exactly one retry, on a FRESH connection, and only when the failed attempt
/// used a POOLED one: the stale-idle race, where the peer closed the socket
/// while it sat in the pool. A fresh-connection failure is a real network
/// answer. The retry may duplicate an RPC the peer already processed, which is
/// safe because Raft RPCs are duplicate-tolerant. `reusable` is the outcome of
/// an attempt that was answered.
pub fn after_attempt(pooled: bool, reusable: Option<bool>) -> (next: AfterAttempt)
    ensures
        next == match reusable {
            Some(keep) => AfterAttempt::Answer { keep },
            None => if pooled {
                AfterAttempt::RetryFresh
            } else {
                AfterAttempt::GiveUp
            },
        },
{
    match reusable {
        Some(keep) => AfterAttempt::Answer { keep },
        None => if pooled {
            AfterAttempt::RetryFresh
        } else {
            AfterAttempt::GiveUp
        },
    }
}

/// The HTTP status that answers an inbound RPC: 400 if its body does not
/// decode, 503 if the node is gone (before or while handling it), else 200.
pub fn rpc_status(decoded: bool, answered: bool) -> (status: u16)
    ensures
        status == if !decoded {
            400u16
        } else if !answered {
            503
        } else {
            200
        },
{
    if !decoded {
        400
    } else if !answered {
        503
    } else {
        200
    }
}

// ---- addresses, connections and budgets ----

/// Idle connections, keyed by address: an address change is a new key, so
/// stale sockets to a re-addressed member are never handed out for its new
/// address.
#[verifier::reject_recursive_types(T)]
pub struct Pool<T> {
    shelves: Vec<(String, Vec<T>)>,
}

/// Whether a shelf for `addr` is there.
pub closed spec fn shelved<T>(shelves: Seq<(String, Vec<T>)>, addr: Seq<char>) -> bool {
    exists|i: int| 0 <= i < shelves.len() && (#[trigger] shelves[i]).0@ == addr
}

/// Where the shelf for `addr` stands.
pub closed spec fn shelf<T>(shelves: Seq<(String, Vec<T>)>, addr: Seq<char>) -> int {
    choose|i: int| 0 <= i < shelves.len() && (#[trigger] shelves[i]).0@ == addr
}

/// What the shelf for `addr` holds.
pub closed spec fn idle_on<T>(shelves: Seq<(String, Vec<T>)>, addr: Seq<char>) -> Seq<T> {
    if shelved(shelves, addr) {
        shelves[shelf(shelves, addr)].1@
    } else {
        Seq::empty()
    }
}

/// No address has two shelves.
pub closed spec fn one_shelf_each<T>(shelves: Seq<(String, Vec<T>)>) -> bool {
    forall|i: int, j: int|
        #![trigger shelves[i], shelves[j]]
        0 <= i < j < shelves.len() ==> shelves[i].0@ != shelves[j].0@
}

proof fn lemma_idle_on<T>(shelves: Seq<(String, Vec<T>)>, i: int)
    requires
        one_shelf_each(shelves),
        0 <= i < shelves.len(),
    ensures
        shelved(shelves, shelves[i].0@),
        idle_on(shelves, shelves[i].0@) == shelves[i].1@,
{
    let k = shelf(shelves, shelves[i].0@);
    assert(shelves[k].0@ == shelves[i].0@);
    if k < i {
        assert(shelves[k].0@ != shelves[i].0@);
    } else if i < k {
        assert(shelves[i].0@ != shelves[k].0@);
    }
}

/// Changing what one shelf holds changes no other.
proof fn lemma_restocked<T>(before: Seq<(String, Vec<T>)>, after: Seq<(String, Vec<T>)>, i: int)
    requires
        one_shelf_each(before),
        0 <= i < before.len() == after.len(),
        after[i].0@ == before[i].0@,
        forall|j: int| #![trigger after[j]] 0 <= j < before.len() && j != i ==> after[j] == before[j],
    ensures
        one_shelf_each(after),
        forall|addr: Seq<char>|
            #![trigger idle_on(after, addr)]
            idle_on(after, addr) == if addr == before[i].0@ {
                after[i].1@
            } else {
                idle_on(before, addr)
            },
{
    assert forall|a: int, b: int|
        #![trigger after[a], after[b]]
        0 <= a < b < after.len() implies after[a].0@ != after[b].0@ by {
        assert(before[a].0@ != before[b].0@);
    }
    assert forall|addr: Seq<char>| #![trigger idle_on(after, addr)] idle_on(after, addr) == if addr
        == before[i].0@ {
        after[i].1@
    } else {
        idle_on(before, addr)
    } by {
        if shelved(after, addr) {
            let k = shelf(after, addr);
            lemma_idle_on(after, k);
            lemma_idle_on(before, k);
            assert(before[k].0@ == addr);
        } else if shelved(before, addr) {
            let k = shelf(before, addr);
            assert(after[k].0@ == addr);
        }
        lemma_idle_on(after, i);
    }
}

/// A new shelf changes no other.
proof fn lemma_new_shelf<T>(before: Seq<(String, Vec<T>)>, after: Seq<(String, Vec<T>)>)
    requires
        one_shelf_each(before),
        after.len() == before.len() + 1,
        after.drop_last() == before,
        !shelved(before, after.last().0@),
    ensures
        one_shelf_each(after),
        forall|addr: Seq<char>|
            #![trigger idle_on(after, addr)]
            idle_on(after, addr) == if addr == after.last().0@ {
                after.last().1@
            } else {
                idle_on(before, addr)
            },
{
    let last = before.len() as int;
    assert forall|a: int| 0 <= a < before.len() implies #[trigger] after[a] == before[a] by {
        assert(after.drop_last()[a] == before[a]);
    }
    assert forall|a: int, b: int|
        #![trigger after[a], after[b]]
        0 <= a < b < after.len() implies after[a].0@ != after[b].0@ by {
        assert(after[a] == before[a]);
        if b < last {
            assert(before[a].0@ != before[b].0@);
        }
    }
    assert forall|addr: Seq<char>| #![trigger idle_on(after, addr)] idle_on(after, addr) == if addr
        == after.last().0@ {
        after.last().1@
    } else {
        idle_on(before, addr)
    } by {
        lemma_idle_on(after, last);
        if shelved(after, addr) {
            let k = shelf(after, addr);
            lemma_idle_on(after, k);
            if k < last {
                lemma_idle_on(before, k);
            }
        } else if shelved(before, addr) {
            let k = shelf(before, addr);
            assert(after[k].0@ == addr);
        }
    }
}

/// Taking one shelf away changes no other.
proof fn lemma_removed_shelf<T>(
    before: Seq<(String, Vec<T>)>,
    after: Seq<(String, Vec<T>)>,
    i: int,
)
    requires
        one_shelf_each(before),
        0 <= i < before.len(),
        after == before.update(i, before.last()).drop_last(),
    ensures
        one_shelf_each(after),
        forall|addr: Seq<char>|
            #![trigger idle_on(after, addr)]
            addr != before[i].0@ ==> idle_on(after, addr) == idle_on(before, addr),
{
    let last = before.len() - 1;
    assert forall|a: int, b: int|
        #![trigger after[a], after[b]]
        0 <= a < b < after.len() implies after[a].0@ != after[b].0@ by {
        let x = if a == i {
            last
        } else {
            a
        };
        let y = if b == i {
            last
        } else {
            b
        };
        assert(before[x].0@ != before[y].0@ || before[y].0@ != before[x].0@);
        assert(after[a] == before[x] && after[b] == before[y]);
        if x < y {
            assert(before[x].0@ != before[y].0@);
        } else {
            assert(before[y].0@ != before[x].0@);
        }
    }
    assert forall|addr: Seq<char>|
        #![trigger idle_on(after, addr)]
        addr != before[i].0@ implies idle_on(after, addr) == idle_on(before, addr) by {
        if shelved(after, addr) {
            let k = shelf(after, addr);
            let x = if k == i {
                last
            } else {
                k
            };
            assert(after[k] == before[x]);
            lemma_idle_on(after, k);
            lemma_idle_on(before, x);
        } else if shelved(before, addr) {
            let x = shelf(before, addr);
            let k = if x == last {
                i
            } else {
                x
            };
            assert(after[k] == before[x]);
            assert(after[k].0@ == addr);
        }
    }
}

impl<T> Pool<T> {
    /// No address has two shelves, and none holds more than the cap.
    pub closed spec fn wf(&self) -> bool {
        &&& one_shelf_each(self.shelves@)
        &&& forall|i: int|
            #![trigger self.shelves[i]]
            0 <= i < self.shelves.len() ==> self.shelves[i].1.len() <= MAX_IDLE_PER_PEER
    }

    /// The idle connections to `addr`, the most recently returned one last.
    pub closed spec fn idle(&self, addr: Seq<char>) -> Seq<T> {
        idle_on(self.shelves@, addr)
    }

    /// An empty pool.
    pub fn new() -> (pool: Self)
        ensures
            pool.wf(),
            forall|addr: Seq<char>| pool.idle(addr) == Seq::<T>::empty(),
    {
        Pool { shelves: Vec::new() }
    }

    /// Where the shelf for `addr` stands.
    fn find(&self, addr: &str) -> (found: Option<usize>)
        requires
            self.wf(),
        ensures
            match found {
                Some(i) => {
                    &&& i < self.shelves.len()
                    &&& self.shelves[i as int].0@ == addr@
                    &&& self.idle(addr@) == self.shelves[i as int].1@
                },
                None => !shelved(self.shelves@, addr@),
            },
    {
        let mut i: usize = 0;
        while i < self.shelves.len()
            invariant
                i <= self.shelves.len(),
                self.wf(),
                forall|j: int| #![trigger self.shelves[j]] 0 <= j < i ==> self.shelves[j].0@
                    != addr@,
            decreases self.shelves.len() - i,
        {
            if crate::text::same_text(self.shelves[i].0.as_str(), addr) {
                proof {
                    lemma_idle_on(self.shelves@, i as int);
                }
                return Some(i);
            }
            i += 1;
        }
        None
    }

    /// Pops an idle connection to `addr`, if any. Checkout is exclusive:
    /// parallel RPCs to one peer each get their own stream, so responses can
    /// never interleave.
    pub fn checkout(&mut self, addr: &str) -> (stream: Option<T>)
        requires
            old(self).wf(),
        ensures
            final(self).wf(),
            match stream {
                Some(s) => {
                    &&& old(self).idle(addr@).len() > 0
                    &&& s == old(self).idle(addr@).last()
                    &&& final(self).idle(addr@) == old(self).idle(addr@).drop_last()
                },
                None => {
                    &&& old(self).idle(addr@).len() == 0
                    &&& final(self).idle(addr@) == old(self).idle(addr@)
                },
            },
            forall|other: Seq<char>|
                other != addr@ ==> #[trigger] final(self).idle(other) == old(self).idle(other),
    {
        match self.find(addr) {
            None => None,
            Some(i) => {
                let stream = self.shelves[i].1.pop();
                proof {
                    lemma_restocked(old(self).shelves@, self.shelves@, i as int);
                }
                stream
            },
        }
    }

    /// Returns a connection to the idle pool, or hands it back if `addr` has
    /// as many as are kept. Called ONLY at the successful tail of an RPC: when
    /// the RPC timeout drops an exchange, the stream it owned is dropped with
    /// it and its half-read response can never leak into a later RPC.
    pub fn checkin(&mut self, addr: &str, stream: T) -> (refused: Option<T>)
        requires
            old(self).wf(),
        ensures
            final(self).wf(),
            old(self).idle(addr@).len() <= MAX_IDLE_PER_PEER,
            if old(self).idle(addr@).len() < MAX_IDLE_PER_PEER {
                &&& refused is None
                &&& final(self).idle(addr@) == old(self).idle(addr@).push(stream)
            } else {
                &&& refused == Some(stream)
                &&& final(self).idle(addr@) == old(self).idle(addr@)
            },
            forall|other: Seq<char>|
                other != addr@ ==> #[trigger] final(self).idle(other) == old(self).idle(other),
    {
        match self.find(addr) {
            None => {
                let mut streams: Vec<T> = Vec::new();
                streams.push(stream);
                self.shelves.push((String::from_str(addr), streams));
                proof {
                    assert(self.shelves@.drop_last() =~= old(self).shelves@);
                    lemma_new_shelf(old(self).shelves@, self.shelves@);
                    assert(self.idle(addr@) =~= old(self).idle(addr@).push(stream));
                }
                None
            },
            Some(i) => {
                if self.shelves[i].1.len() >= MAX_IDLE_PER_PEER {
                    return Some(stream);
                }
                self.shelves[i].1.push(stream);
                proof {
                    lemma_restocked(old(self).shelves@, self.shelves@, i as int);
                }
                None
            },
        }
    }

    /// Drops the idle connections to addresses that `peers` does not list.
    pub fn prune(&mut self, peers: &HashMap<NodeId, String>)
        requires
            old(self).wf(),
        ensures
            final(self).wf(),
            forall|addr: Seq<char>|
                #![trigger final(self).idle(addr)]
                final(self).idle(addr) == if listed(peers@, addr) {
                    old(self).idle(addr)
                } else {
                    Seq::empty()
                },
    {
        let mut i: usize = 0;
        let ghost start = *old(self);
        while i < self.shelves.len()
            invariant
                i <= self.shelves.len(),
                self.wf(),
                forall|j: int|
                    #![trigger self.shelves[j]]
                    0 <= j < i ==> listed(peers@, self.shelves[j].0@),
                forall|addr: Seq<char>|
                    #![trigger self.idle(addr)]
                    listed(peers@, addr) ==> self.idle(addr) == start.idle(addr),
            decreases self.shelves.len() - i,
        {
            if lists_address(peers, self.shelves[i].0.as_str()) {
                i += 1;
            } else {
                let ghost before = *self;
                self.shelves.swap_remove(i);
                proof {
                    lemma_removed_shelf(before.shelves@, self.shelves@, i as int);
                    assert forall|addr: Seq<char>|
                        #![trigger self.idle(addr)]
                        listed(peers@, addr) implies self.idle(addr) == start.idle(addr) by {
                        assert(before.idle(addr) == start.idle(addr));
                        assert(idle_on(self.shelves@, addr) == idle_on(before.shelves@, addr));
                    }
                }
            }
        }
        proof {
            assert forall|addr: Seq<char>| #![trigger self.idle(addr)] !listed(
                peers@,
                addr,
            ) implies self.idle(addr) == Seq::<T>::empty() by {
                if shelved(self.shelves@, addr) {
                    let k = shelf(self.shelves@, addr);
                    assert(listed(peers@, self.shelves[k].0@));
                }
            }
        }
    }
}

/// Whether some member has this address.
pub open spec fn listed(peers: Map<NodeId, String>, addr: Seq<char>) -> bool {
    exists|id: NodeId| #[trigger] peers.contains_key(id) && peers[id]@ == addr
}

/// Whether some member has this address.
fn lists_address(peers: &HashMap<NodeId, String>, addr: &str) -> (found: bool)
    ensures
        found == listed(peers@, addr@),
{
    let mut found = false;
    for entry in iter: peers.iter()
        invariant
            found <==> exists|i: int|
                0 <= i < iter.index() && (#[trigger] iter.seq()[i]).1@ == addr@,
            forall|i: int|
                #![trigger iter.seq()[i]]
                0 <= i < iter.seq().len() ==> peers@.contains_key(*iter.seq()[i].0)
                    && peers@[*iter.seq()[i].0] == *iter.seq()[i].1,
            forall|k: NodeId| #[trigger]
                peers@.contains_key(k) ==> iter.seq().contains((&k, &peers@[k])),
    {
        if crate::text::same_text(entry.1.as_str(), addr) {
            found = true;
            assert(iter.seq()[iter.index()].1@ == addr@);
        }
    }
    found
}

/// The time that an RPC with a body of `length` bytes may take, in
/// microseconds: the flat timeout, plus the body's transfer time at the
/// assumed bandwidth for bodies over 64 KiB.
pub open spec fn budget(timeout_ms: u64, bandwidth: Option<u64>, length: u64) -> int {
    let flat = timeout_ms * 1000;
    match bandwidth {
        Some(bytes_per_sec) if bytes_per_sec > 0 && length > SMALL_BODY => flat + length * 1_000_000
            / bytes_per_sec as int,
        _ => flat,
    }
}

/// The outbound half of the transport: the address book, the idle
/// connections and the per-RPC budget.
#[verifier::reject_recursive_types(T)]
pub struct HttpTransport<T> {
    id: NodeId,
    /// Peer id → raft address (`host:port`).
    peers: HashMap<NodeId, String>,
    pool: Pool<T>,
    rpc_timeout_ms: u64,
    /// Bytes per second for the size-aware timeout; `None` = flat timeout.
    assumed_bandwidth: Option<u64>,
}

impl<T> HttpTransport<T> {
    pub closed spec fn wf(&self) -> bool {
        self.pool.wf()
    }

    /// This node's id.
    pub closed spec fn own_id(&self) -> NodeId {
        self.id
    }

    /// The address book.
    pub closed spec fn book(&self) -> Map<NodeId, String> {
        self.peers@
    }

    /// The idle connections to `addr`.
    pub closed spec fn idle(&self, addr: Seq<char>) -> Seq<T> {
        self.pool.idle(addr)
    }

    /// The flat timeout and the assumed bandwidth.
    pub closed spec fn limits(&self) -> (u64, Option<u64>) {
        (self.rpc_timeout_ms, self.assumed_bandwidth)
    }

    /// A transport with a flat timeout and no idle connections.
    pub fn new(id: NodeId, peers: HashMap<NodeId, String>, rpc_timeout_ms: u64) -> (transport: Self)
        ensures
            transport.wf(),
            transport.own_id() == id,
            transport.book() == peers@,
            transport.limits() == (rpc_timeout_ms, None::<u64>),
            forall|addr: Seq<char>| transport.idle(addr) == Seq::<T>::empty(),
    {
        HttpTransport { id, peers, pool: Pool::new(), rpc_timeout_ms, assumed_bandwidth: None }
    }

    /// The same transport with a size-aware timeout.
    pub fn with_assumed_bandwidth(self, assumed_bandwidth: Option<u64>) -> (transport: Self)
        requires
            self.wf(),
        ensures
            transport.wf(),
            transport.own_id() == self.own_id(),
            transport.book() == self.book(),
            transport.limits() == (self.limits().0, assumed_bandwidth),
            forall|addr: Seq<char>| transport.idle(addr) == self.idle(addr),
    {
        HttpTransport { assumed_bandwidth, ..self }
    }

    /// This node's id.
    pub fn id(&self) -> (id: NodeId)
        ensures
            id == self.own_id(),
    {
        self.id
    }

    /// Replaces the peer address book. In-flight RPCs already resolved their
    /// address and finish against the old one, exactly like a real network
    /// change. Idle connections to addresses that left the book are pruned:
    /// otherwise sockets to removed or re-addressed members would sit in the
    /// pool until process exit.
    pub fn set_peers(&mut self, peers: HashMap<NodeId, String>)
        requires
            old(self).wf(),
        ensures
            final(self).wf(),
            final(self).own_id() == old(self).own_id(),
            final(self).book() == peers@,
            final(self).limits() == old(self).limits(),
            forall|addr: Seq<char>|
                #![trigger final(self).idle(addr)]
                final(self).idle(addr) == if listed(peers@, addr) {
                    old(self).idle(addr)
                } else {
                    Seq::empty()
                },
    {
        self.pool.prune(&peers);
        self.peers = peers;
    }

    /// Where `to` listens; `Unreachable` if it is not in the book.
    pub fn address_of(&self, to: NodeId) -> (addr: Result<String, TransportError>)
        ensures
            match addr {
                Ok(addr) => self.book().contains_key(to) && addr == self.book()[to],
                Err(e) => !self.book().contains_key(to) && e == TransportError::Unreachable(to),
            },
    {
        match self.peers.get(&to) {
            Some(addr) => Ok(addr.clone()),
            None => Err(TransportError::Unreachable(to)),
        }
    }

    /// Pops an idle connection to `addr`, if any.
    pub fn checkout(&mut self, addr: &str) -> (stream: Option<T>)
        requires
            old(self).wf(),
        ensures
            final(self).wf(),
            final(self).own_id() == old(self).own_id(),
            final(self).book() == old(self).book(),
            final(self).limits() == old(self).limits(),
            match stream {
                Some(s) => {
                    &&& old(self).idle(addr@).len() > 0
                    &&& s == old(self).idle(addr@).last()
                    &&& final(self).idle(addr@) == old(self).idle(addr@).drop_last()
                },
                None => {
                    &&& old(self).idle(addr@).len() == 0
                    &&& final(self).idle(addr@) == old(self).idle(addr@)
                },
            },
            forall|other: Seq<char>|
                other != addr@ ==> #[trigger] final(self).idle(other) == old(self).idle(other),
    {
        self.pool.checkout(addr)
    }

    /// Returns a connection to the idle pool, or hands it back if `addr` has
    /// as many as are kept.
    pub fn checkin(&mut self, addr: &str, stream: T) -> (refused: Option<T>)
        requires
            old(self).wf(),
        ensures
            final(self).wf(),
            final(self).own_id() == old(self).own_id(),
            final(self).book() == old(self).book(),
            final(self).limits() == old(self).limits(),
            old(self).idle(addr@).len() <= MAX_IDLE_PER_PEER,
            if old(self).idle(addr@).len() < MAX_IDLE_PER_PEER {
                &&& refused is None
                &&& final(self).idle(addr@) == old(self).idle(addr@).push(stream)
            } else {
                &&& refused == Some(stream)
                &&& final(self).idle(addr@) == old(self).idle(addr@)
            },
            forall|other: Seq<char>|
                other != addr@ ==> #[trigger] final(self).idle(other) == old(self).idle(other),
    {
        self.pool.checkin(addr, stream)
    }

    /// The time that an RPC with a body of `length` bytes may take, in
    /// microseconds, as far as 64 bits hold it.
    pub fn budget_us(&self, length: u64) -> (us: u64)
        ensures
            us == if budget(self.limits().0, self.limits().1, length) <= u64::MAX {
                budget(self.limits().0, self.limits().1, length)
            } else {
                u64::MAX as int
            },
    {
        let flat: u128 = self.rpc_timeout_ms as u128 * 1000;
        let total: u128 = match self.assumed_bandwidth {
            Some(bytes_per_sec) => if bytes_per_sec > 0 && length > SMALL_BODY {
                let moved: u128 = length as u128 * 1_000_000;
                let transfer: u128 = moved / bytes_per_sec as u128;
                assert(transfer <= moved) by (nonlinear_arith)
                    requires
                        transfer == moved / bytes_per_sec as u128,
                        bytes_per_sec > 0,
                ;
                flat + transfer
            } else {
                flat
            },
            None => flat,
        };
        if total <= u64::MAX as u128 {
            total as u64
        } else {
            u64::MAX
        }
    }
}

} // verus!
