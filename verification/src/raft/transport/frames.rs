//! What a response comes to: how its head is read, how its body is framed, and
//! that it does not matter in which pieces it arrives.

use vstd::prelude::*;
use vstd::utf8::{decode_utf8, valid_utf8};

use super::http::{
    begin_body, budget, chunked, contains_text, declared_length, ends_head, head_end, head_line,
    header_says, length_prefix, line_length, line_says, lower, occurs_at, read_head, request_text,
    words, words_and_rest, ProgressModel, ReadingModel, ResponseHead, MAX_RESPONSE_HEAD,
};
use crate::text::{decimal, is_space, number, split, trim};

verus! {

// ---- words ----

proof fn lemma_words_join(a: Seq<char>, b: Seq<char>, space: char)
    requires
        is_space(space),
    ensures
        ({
            let (all, rest) = words_and_rest(a.push(space) + b);
            let (tail, open) = words_and_rest(b);
            &&& all == words(a) + tail
            &&& rest == open
        }),
    decreases b.len(),
{
    let whole = a.push(space) + b;
    if b.len() == 0 {
        assert(whole =~= a.push(space));
        assert(whole.drop_last() =~= a);
        assert(words_and_rest(whole).0 =~= words(a) + Seq::empty());
    } else {
        lemma_words_join(a, b.drop_last(), space);
        assert(whole.drop_last() =~= a.push(space) + b.drop_last());
        assert(whole.last() == b.last());
        let (tail, open) = words_and_rest(b.drop_last());
        if is_space(b.last()) && open.len() > 0 {
            assert(words(a) + tail.push(open) =~= (words(a) + tail).push(open));
        }
    }
}

/// White space parts words and does nothing else: the words of two texts with
/// white space between them are those of the first and then those of the
/// second; a text without white space is one word, an empty one none.
pub proof fn white_space_parts_words(a: Seq<char>, b: Seq<char>, space: char)
    requires
        is_space(space),
    ensures
        words(a.push(space) + b) == words(a) + words(b),
        words(Seq::empty()) == Seq::<Seq<char>>::empty(),
        a.len() > 0 && (forall|i: int| #![trigger a[i]] 0 <= i < a.len() ==> !is_space(a[i]))
            ==> words(a) == seq![a],
{
    lemma_words_join(a, b, space);
    let (tail, open) = words_and_rest(b);
    if open.len() > 0 {
        assert(words(a) + tail.push(open) =~= (words(a) + tail).push(open));
    }
    if a.len() > 0 && (forall|i: int| #![trigger a[i]] 0 <= i < a.len() ==> !is_space(a[i])) {
        lemma_one_word(a);
        assert(words(a) =~= seq![a]);
    }
}

proof fn lemma_one_word(a: Seq<char>)
    requires
        forall|i: int| #![trigger a[i]] 0 <= i < a.len() ==> !is_space(a[i]),
    ensures
        words_and_rest(a) == (Seq::<Seq<char>>::empty(), a),
    decreases a.len(),
{
    if a.len() > 0 {
        let init = a.drop_last();
        assert forall|i: int| #![trigger init[i]] 0 <= i < init.len() implies !is_space(init[i]) by {
            assert(init[i] == a[i]);
        }
        lemma_one_word(init);
        assert(a.last() == a[a.len() - 1]);
        assert(init.push(a.last()) =~= a);
    } else {
        assert(a =~= Seq::empty());
    }
}

// ---- heads ----

/// Line `k` of a head, without its line end.
pub open spec fn nth_line(low: Seq<char>, k: int) -> Seq<char> {
    let piece = split(low, '\n')[k];
    if k < split(low, '\n').len() - 1 && piece.len() > 0 && piece[piece.len() - 1] == '\r' {
        piece.take(piece.len() - 1)
    } else {
        piece
    }
}

/// Whether line `k` declares the body's length.
pub open spec fn declares(low: Seq<char>, k: int) -> bool {
    let line = nth_line(low, k);
    &&& 1 <= k < split(low, '\n').len()
    &&& line.len() >= 15
    &&& line.take(15) == "content-length:"@
}

/// The length that line `k` declares, if it is a number.
pub open spec fn declared(low: Seq<char>, k: int) -> Option<u64> {
    number(trim(nth_line(low, k).skip(15)))
}

proof fn lemma_line(low: Seq<char>, k: int)
    requires
        0 <= k < split(low, '\n').len(),
    ensures
        head_line(split(low, '\n'), k) == nth_line(low, k),
        1 <= k ==> (line_length(nth_line(low, k)) is Some <==> declares(low, k)),
        declares(low, k) && (declared(low, k) matches Some(n) ==> n > usize::MAX) ==> line_length(
            nth_line(low, k),
        )->0 is Err,
        declares(low, k) && declared(low, k) is Some && declared(low, k)->0 <= usize::MAX
            ==> line_length(nth_line(low, k)) == Some(
            Ok::<usize, Seq<char>>(declared(low, k)->0 as usize),
        ),
{
    let piece = split(low, '\n')[k];
    if piece.len() > 0 {
        assert(piece.drop_last() =~= piece.take(piece.len() - 1));
    }
    reveal_strlit("content-length:");
    let line = nth_line(low, k);
    assert(length_prefix().len() == 15);
    if line.len() >= 15 {
        assert(line.subrange(0, 15) =~= line.take(15));
    }
}

proof fn lemma_declared(low: Seq<char>, upto: int)
    requires
        0 <= upto <= split(low, '\n').len(),
    ensures
        match declared_length(split(low, '\n'), upto) {
            Ok(Some(n)) => exists|k: int|
                k < upto && #[trigger] declares(low, k) && declared(low, k) == Some(n as u64)
                    && forall|j: int| k < j < upto ==> !#[trigger] declares(low, j),
            Ok(None) => forall|j: int| j < upto ==> !#[trigger] declares(low, j),
            Err(_) => exists|k: int|
                k < upto && #[trigger] declares(low, k) && (declared(low, k) matches Some(n) ==> n
                    > usize::MAX),
        },
    decreases upto,
{
    if upto > 1 {
        let pieces = split(low, '\n');
        lemma_declared(low, upto - 1);
        lemma_line(low, upto - 1);
        let line = nth_line(low, upto - 1);
        match declared_length(pieces, upto - 1) {
            Err(_) => {
                let k = choose|k: int|
                    k < upto - 1 && #[trigger] declares(low, k) && (declared(low, k) matches Some(
                        n,
                    ) ==> n > usize::MAX);
                assert(declares(low, k));
            },
            Ok(before) => {
                if declares(low, upto - 1) {
                    assert(line_length(line) is Some);
                } else {
                    assert(line_length(line) is None);
                    if let Some(n) = before {
                        let k = choose|k: int|
                            k < upto - 1 && #[trigger] declares(low, k) && declared(low, k) == Some(
                                n as u64,
                            ) && forall|j: int| k < j < upto - 1 ==> !#[trigger] declares(low, j);
                        assert(declares(low, k));
                    }
                }
            },
        }
    }
}

/// What a head that is accepted says: its status is 200, and the length of the
/// body is what the last line that declares one says; where none does, the body
/// has no declared length.
pub proof fn an_accepted_head_says_what_it_says(raw: Seq<u8>)
    ensures
        read_head(raw) matches Ok(head) ==> {
            let text = decode_utf8(raw);
            let low = lower(text);
            &&& valid_utf8(raw)
            &&& words(text).len() >= 2
            &&& number(words(text)[1]) == Some(200u64)
            &&& head.content_length matches Some(n) ==> exists|k: int| #[trigger]
                declares(low, k) && declared(low, k) == Some(n as u64) && forall|j: int|
                    j > k ==> !#[trigger] declares(low, j)
            &&& head.content_length is None ==> forall|j: int| !#[trigger] declares(low, j)
        },
{
    if read_head(raw) is Ok {
        let low = lower(decode_utf8(raw));
        let upto = split(low, '\n').len() as int;
        lemma_declared(low, upto);
        let head = read_head(raw)->Ok_0;
        if let Some(n) = head.content_length {
            let k = choose|k: int|
                k < upto && #[trigger] declares(low, k) && declared(low, k) == Some(n as u64)
                    && forall|j: int| k < j < upto ==> !#[trigger] declares(low, j);
            assert(declares(low, k));
        }
    }
}

/// Which heads must be accepted: any text with status 200 that speaks nowhere
/// of `chunked` and declares only lengths that are numbers. The connection may
/// be used again unless the head speaks of `close` somewhere.
pub proof fn a_plain_head_is_accepted(raw: Seq<u8>)
    requires
        valid_utf8(raw),
        words(decode_utf8(raw)).len() >= 2,
        number(words(decode_utf8(raw))[1]) == Some(200u64),
        !contains_text(lower(decode_utf8(raw)), "chunked"@),
        forall|k: int| #[trigger]
            declares(lower(decode_utf8(raw)), k) ==> declared(lower(decode_utf8(raw)), k) is Some
                && declared(lower(decode_utf8(raw)), k)->0 <= usize::MAX,
    ensures
        read_head(raw) is Ok,
        !contains_text(lower(decode_utf8(raw)), "close"@) ==> read_head(raw)->Ok_0.keep_alive,
{
    let low = lower(decode_utf8(raw));
    let upto = split(low, '\n').len() as int;
    lemma_declared(low, upto);
    reveal_strlit("chunked");
    reveal_strlit("transfer-encoding: chunked");
    reveal_strlit("transfer-encoding:");
    reveal_strlit("close");
    reveal_strlit("connection: close");
    reveal_strlit("connection:");
    assert("transfer-encoding: chunked"@.skip(19) =~= "chunked"@);
    assert("connection: close"@.skip(12) =~= "close"@);
    lemma_not_said(low, "transfer-encoding: chunked"@, 19, "transfer-encoding:"@, "chunked"@);
    if !contains_text(low, "close"@) {
        lemma_not_said(low, "connection: close"@, 12, "connection:"@, "close"@);
    }
}

/// A word that stands nowhere in a head is said by no header.
proof fn lemma_not_said(
    low: Seq<char>,
    phrase: Seq<char>,
    at: int,
    name: Seq<char>,
    word: Seq<char>,
)
    requires
        !contains_text(low, word),
        0 <= at <= phrase.len(),
        phrase.skip(at) == word,
    ensures
        !contains_text(low, phrase),
        !header_says(low, name, word),
{
    if contains_text(low, phrase) {
        let i = choose|i: int| #[trigger] occurs_at(low, phrase, i);
        assert(low.subrange(i + at, i + at + word.len()) =~= low.subrange(
            i,
            i + phrase.len(),
        ).skip(at));
        assert(occurs_at(low, word, i + at));
    }
    if header_says(low, name, word) {
        let pieces = split(low, '\n');
        let k = choose|k: int|
            1 <= k < pieces.len() && #[trigger] line_says(head_line(pieces, k), name, word);
        let line = head_line(pieces, k);
        let value = line.skip(name.len() as int);
        let v = choose|v: int|
            0 <= v < split(value, ',').len() && #[trigger] trim(split(value, ',')[v]) == word;
        let part = split(value, ',')[v];
        let a = lemma_piece_within(low, '\n', k);
        let b = lemma_piece_within(value, ',', v);
        let c = crate::text::trimming_takes_the_white_space_around(part);
        let i = a + name.len() + b + c;
        assert(low.subrange(i, i + word.len()) =~= word) by {
            assert forall|x: int| 0 <= x < word.len() implies low.subrange(
                i,
                i + word.len(),
            )[x] == #[trigger] word[x] by {
                assert(word[x] == part[c + x]);
                assert(part[c + x] == value[b + c + x]);
                assert(value[b + c + x] == line[name.len() + b + c + x]);
                assert(line[name.len() + b + c + x] == pieces[k][name.len() + b + c + x]);
                assert(pieces[k][name.len() + b + c + x] == low[a + name.len() + b + c + x]);
            }
        }
        assert(occurs_at(low, word, i));
    }
}

/// A piece of a text stands somewhere in it.
proof fn lemma_piece_within(s: Seq<char>, sep: char, k: int) -> (at: int)
    requires
        0 <= k < split(s, sep).len(),
    ensures
        0 <= at,
        at + split(s, sep)[k].len() <= s.len(),
        split(s, sep)[k] == s.subrange(at, at + split(s, sep)[k].len()),
        k == split(s, sep).len() - 1 ==> at + split(s, sep)[k].len() == s.len(),
    decreases s.len(),
{
    let pieces = split(s, sep);
    if s.len() == 0 {
        assert(pieces[k] =~= s.subrange(0, 0));
        0
    } else {
        let init = s.drop_last();
        let before = split(init, sep);
        crate::text::pieces_join_to_the_text(init, sep);
        if s.last() == sep && k == pieces.len() - 1 {
            assert(pieces[k] =~= s.subrange(s.len() as int, s.len() as int));
            s.len() as int
        } else {
            let at = lemma_piece_within(init, sep, k);
            if k < before.len() - 1 || s.last() == sep {
                assert(pieces[k] == before[k]);
                assert(init.subrange(at, at + before[k].len()) =~= s.subrange(
                    at,
                    at + before[k].len(),
                ));
            } else {
                assert(pieces[k] == before[k].push(s.last()));
                assert(pieces[k] =~= s.subrange(at, at + pieces[k].len()));
            }
            at
        }
    }
}

/// Which heads must be refused, or close their connection: whatever line
/// behind the first is a `Transfer-Encoding` header with `chunked` as its value
/// is an error; a `Connection` header with `close` keeps the connection from
/// being used again; a declared length that is no number is an error.
pub proof fn what_a_header_says_counts(raw: Seq<u8>, k: int)
    requires
        valid_utf8(raw),
        1 <= k < split(lower(decode_utf8(raw)), '\n').len(),
    ensures
        ({
            let low = lower(decode_utf8(raw));
            let line = nth_line(low, k);
            &&& line.len() >= 18 && line.take(18) == "transfer-encoding:"@ && !line.skip(
                18,
            ).contains(',') && trim(line.skip(18)) == "chunked"@ ==> read_head(raw) is Err
            &&& line.len() >= 11 && line.take(11) == "connection:"@ && !line.skip(11).contains(
                ',',
            ) && trim(line.skip(11)) == "close"@ ==> (read_head(raw) matches Ok(head)
                ==> !head.keep_alive)
            &&& declares(low, k) && declared(low, k) is None ==> read_head(raw) is Err
        }),
{
    let low = lower(decode_utf8(raw));
    let line = nth_line(low, k);
    let pieces = split(low, '\n');
    lemma_line(low, k);
    reveal_strlit("transfer-encoding:");
    reveal_strlit("connection:");
    if line.len() >= 18 && line.take(18) == "transfer-encoding:"@ && !line.skip(18).contains(',')
        && trim(line.skip(18)) == "chunked"@ {
        lemma_single_value(line, "transfer-encoding:"@, "chunked"@);
        assert(line_says(head_line(pieces, k), "transfer-encoding:"@, "chunked"@));
        assert(header_says(low, "transfer-encoding:"@, "chunked"@));
    }
    if line.len() >= 11 && line.take(11) == "connection:"@ && !line.skip(11).contains(',') && trim(
        line.skip(11),
    ) == "close"@ {
        lemma_single_value(line, "connection:"@, "close"@);
        assert(line_says(head_line(pieces, k), "connection:"@, "close"@));
        assert(header_says(low, "connection:"@, "close"@));
    }
    if declares(low, k) && declared(low, k) is None {
        lemma_bad_length(low, k, pieces.len() as int);
    }
}

proof fn lemma_single_value(line: Seq<char>, name: Seq<char>, word: Seq<char>)
    requires
        line.len() >= name.len(),
        line.take(name.len() as int) == name,
        !line.skip(name.len() as int).contains(','),
        trim(line.skip(name.len() as int)) == word,
    ensures
        line_says(line, name, word),
{
    let value = line.skip(name.len() as int);
    crate::text::a_text_without_the_separator_is_one_piece(value, ',');
    assert(split(value, ',')[0] == value);
    assert(trim(split(value, ',')[0]) == word);
    assert(line.subrange(0, name.len() as int) =~= line.take(name.len() as int));
}

proof fn lemma_bad_length(low: Seq<char>, k: int, upto: int)
    requires
        1 <= k < upto <= split(low, '\n').len(),
        declares(low, k),
        declared(low, k) is None,
    ensures
        declared_length(split(low, '\n'), upto) is Err,
    decreases upto,
{
    lemma_line(low, upto - 1);
    if k < upto - 1 {
        lemma_bad_length(low, k, upto - 1);
    }
}

// ---- frames ----

/// A head, the empty line behind it, and what follows.
pub open spec fn framed(head: Seq<u8>, rest: Seq<u8>) -> Seq<u8> {
    head + seq![13u8, 10u8, 13u8, 10u8] + rest
}

/// A response of which nothing has come in.
pub open spec fn unread() -> ReadingModel {
    ReadingModel::Head { buf: Seq::empty() }
}

/// A response with a declared length is over when that many bytes have come
/// behind the empty line, and its body is those bytes: not more, not fewer. The
/// connection can be used again only if nothing came behind them.
pub proof fn a_sized_response_is_its_head_and_its_body(
    head: Seq<u8>,
    body: Seq<u8>,
    extra: Seq<u8>,
    said: ResponseHead,
)
    requires
        forall|j: int| 0 <= j < head.len() ==> !#[trigger] ends_head(
            framed(head, body + extra),
            j,
        ),
        read_head(head) == Ok::<ResponseHead, Seq<char>>(said),
        said.content_length == Some(body.len() as usize),
        body.len() <= usize::MAX,
    ensures
        unread().after_bytes(
            framed(head, body + extra),
        ) == (ProgressModel::Done { body, reusable: said.keep_alive && extra.len() == 0 }),
{
    let all = framed(head, body + extra);
    assert(Seq::<u8>::empty() + all =~= all);
    let at = head.len() as int;
    assert(ends_head(all, at));
    lemma_head_end(all, at);
    assert(all.take(at) =~= head);
    assert(all.skip(at + 4) =~= body + extra);
    assert((body + extra).take(body.len() as int) =~= body);
}

/// A response without a declared length is over when the connection closes, and
/// its body is everything that came; such a connection is not used again. A
/// sized one that ends too early has failed.
pub proof fn an_unsized_response_ends_with_its_connection(
    head: Seq<u8>,
    body: Seq<u8>,
    said: ResponseHead,
)
    requires
        forall|j: int| 0 <= j < head.len() ==> !#[trigger] ends_head(
            framed(head, body),
            j,
        ),
        read_head(head) == Ok::<ResponseHead, Seq<char>>(said),
    ensures
        ({
            let met = unread().after_bytes(
                framed(head, body),
            );
            &&& said.content_length is None ==> met is More && met->More_0.after_close() == (
            ProgressModel::Done { body, reusable: false })
            &&& said.content_length is Some && body.len() < said.content_length->0 ==> met is More
                && met->More_0.after_close() is Failed
        }),
{
    let all = framed(head, body);
    assert(Seq::<u8>::empty() + all =~= all);
    let at = head.len() as int;
    assert(ends_head(all, at));
    lemma_head_end(all, at);
    assert(all.take(at) =~= head);
    assert(all.skip(at + 4) =~= body);
}

proof fn lemma_head_end(buf: Seq<u8>, at: int)
    requires
        ends_head(buf, at),
        forall|j: int| 0 <= j < at ==> !#[trigger] ends_head(buf, j),
    ensures
        head_end(buf) == at,
{
    let end = head_end(buf);
    assert(ends_head(buf, end) && forall|j: int| 0 <= j < end ==> !#[trigger] ends_head(buf, j));
    if end < at {
        assert(!ends_head(buf, end));
    } else if at < end {
        assert(!ends_head(buf, at));
    }
}

/// It does not matter how a response is cut on its way: what is left to do
/// after one part and then another is what is left after both at once, as long
/// as no more is read of a sized body than it lacks.
#[verifier::rlimit(80)]
pub proof fn the_cut_does_not_matter(reading: ReadingModel, first: Seq<u8>, second: Seq<u8>)
    requires
        reading.after_bytes(first) is More,
        second.len() <= reading.after_bytes(first)->More_0.wanted(),
        reading is Head ==> (reading->Head_buf + first + second).len() <= MAX_RESPONSE_HEAD
            || exists|i: int| #[trigger] ends_head(reading->Head_buf + first, i),
    ensures
        reading.after_bytes(first)->More_0.after_bytes(second) == reading.after_bytes(
            first + second,
        ),
{
    match reading {
        ReadingModel::Head { buf } => {
            assert(buf + first + second =~= buf + (first + second));
            if exists|i: int| #[trigger] ends_head(buf + first, i) {
                reveal(once_read);
                lemma_cut_behind_the_head(buf, first, second);
            } else {
                assert(reading.after_bytes(first)->More_0 == (ReadingModel::Head {
                    buf: buf + first,
                }));
            }
        },
        ReadingModel::Sized { body, length, keep_alive } => {
            assert(body + first + second =~= body + (first + second));
        },
        ReadingModel::ToClose { body } => {
            assert(body + first + second =~= body + (first + second));
        },
    }
}

/// What a head that has come in whole makes of a response.
spec fn once_headed(said: Result<ResponseHead, Seq<char>>, rest: Seq<u8>) -> ProgressModel {
    match said {
        Err(e) => ProgressModel::Failed(e),
        Ok(head) => begin_body(head, rest),
    }
}

/// What a response comes to whose head is still coming in.
#[verifier::opaque]
spec fn once_read(buf: Seq<u8>, chunk: Seq<u8>) -> ProgressModel {
    (ReadingModel::Head { buf }).after_bytes(chunk)
}

/// What a whole head says.
#[verifier::opaque]
spec fn head_said(raw: Seq<u8>) -> Result<ResponseHead, Seq<char>> {
    read_head(raw)
}

proof fn lemma_once_headed(buf: Seq<u8>, chunk: Seq<u8>, e: int)
    requires
        ends_head(buf + chunk, e),
        forall|j: int| 0 <= j < e ==> !#[trigger] ends_head(buf + chunk, j),
    ensures
        once_read(buf, chunk) == once_headed(
            head_said((buf + chunk).take(e)),
            (buf + chunk).skip(e + 4),
        ),
{
    reveal(once_read);
    reveal(head_said);
    lemma_head_end(buf + chunk, e);
}

proof fn lemma_cut_settled(
    said: Result<ResponseHead, Seq<char>>,
    body: Seq<u8>,
    second: Seq<u8>,
    one: ProgressModel,
    both: ProgressModel,
)
    requires
        one == once_headed(said, body),
        both == once_headed(said, body + second),
        one is More,
        second.len() <= one->More_0.wanted(),
    ensures
        one->More_0.after_bytes(second) == both,
{
    if let Ok(head) = said {
        lemma_body_cut(head, body, second);
    }
}

proof fn lemma_cut_behind_the_head(buf: Seq<u8>, first: Seq<u8>, second: Seq<u8>)
    requires
        exists|i: int| #[trigger] ends_head(buf + first, i),
        once_read(buf, first) is More,
        second.len() <= once_read(buf, first)->More_0.wanted(),
    ensures
        once_read(buf, first)->More_0.after_bytes(second) == once_read(buf, first + second),
{
    let some = buf + first;
    let all = buf + (first + second);
    assert(some + second =~= all);
    let e = lemma_first_end(some);
    assert(ends_head(all, e));
    assert forall|j: int| 0 <= j < e implies !#[trigger] ends_head(all, j) by {
        assert(!ends_head(some, j));
    }
    assert(all.take(e) =~= some.take(e));
    assert(all.skip(e + 4) =~= some.skip(e + 4) + second);
    lemma_once_headed(buf, first, e);
    lemma_once_headed(buf, first + second, e);
    lemma_cut_settled(
        head_said(some.take(e)),
        some.skip(e + 4),
        second,
        once_read(buf, first),
        once_read(buf, first + second),
    );
}

proof fn lemma_body_cut(head: ResponseHead, body: Seq<u8>, second: Seq<u8>)
    requires
        begin_body(head, body) is More,
        second.len() <= begin_body(head, body)->More_0.wanted(),
    ensures
        begin_body(head, body)->More_0.after_bytes(second) == begin_body(head, body + second),
{
    let all = body + second;
    assert(all.take(all.len() as int) =~= all);
}

proof fn lemma_first_end(buf: Seq<u8>) -> (at: int)
    requires
        exists|i: int| #[trigger] ends_head(buf, i),
    ensures
        ends_head(buf, at),
        forall|j: int| 0 <= j < at ==> !#[trigger] ends_head(buf, j),
{
    let some = choose|i: int| #[trigger] ends_head(buf, i);
    lemma_least_end(buf, some)
}

proof fn lemma_least_end(buf: Seq<u8>, i: int) -> (at: int)
    requires
        ends_head(buf, i),
    ensures
        ends_head(buf, at),
        forall|j: int| 0 <= j < at ==> !#[trigger] ends_head(buf, j),
    decreases i,
{
    if forall|j: int| 0 <= j < i ==> !#[trigger] ends_head(buf, j) {
        i
    } else {
        let j = choose|j: int| 0 <= j < i && #[trigger] ends_head(buf, j);
        lemma_least_end(buf, j)
    }
}

// ---- requests ----

/// A request names its path, its host and the length of its body, keeps the
/// connection open, and its head ends in an empty line.
pub proof fn a_request_says_what_it_is(path: Seq<char>, addr: Seq<char>, length: nat)
    ensures
        ({
            let text = request_text(path, addr, length);
            let host = 5 + path.len() + 17;
            let size = host + addr.len() + 50;
            let digits = decimal(length);
            &&& text.len() == size + digits.len() + 4
            &&& text.take(5) == "POST "@
            &&& text.subrange(5, 5 + path.len() as int) == path
            &&& text.subrange(5 + path.len() as int, host as int) == " HTTP/1.1\r\nHost: "@
            &&& text.subrange(host as int, (host + addr.len()) as int) == addr
            &&& text.subrange((host + addr.len()) as int, size as int)
                == "\r\nContent-Type: application/json\r\nContent-Length: "@
            &&& text.subrange(size as int, (size + digits.len()) as int) == digits
            &&& text.skip((size + digits.len()) as int) == "\r\n\r\n"@
        }),
{
    reveal_strlit("POST ");
    reveal_strlit(" HTTP/1.1\r\nHost: ");
    reveal_strlit("\r\nContent-Type: application/json\r\nContent-Length: ");
    reveal_strlit("\r\n\r\n");
    let text = request_text(path, addr, length);
    let host = 5 + path.len() + 17;
    let size = host + addr.len() + 50;
    let digits = decimal(length);
    assert("POST "@.len() == 5);
    assert(" HTTP/1.1\r\nHost: "@.len() == 17);
    assert("\r\nContent-Type: application/json\r\nContent-Length: "@.len() == 50);
    assert("\r\n\r\n"@.len() == 4);
    assert(text.take(5) =~= "POST "@);
    assert(text.subrange(5, 5 + path.len() as int) =~= path);
    assert(text.subrange(5 + path.len() as int, host as int) =~= " HTTP/1.1\r\nHost: "@);
    assert(text.subrange(host as int, (host + addr.len()) as int) =~= addr);
    assert(text.subrange((host + addr.len()) as int, size as int)
        =~= "\r\nContent-Type: application/json\r\nContent-Length: "@);
    assert(text.subrange(size as int, (size + digits.len()) as int) =~= digits);
    assert(text.skip((size + digits.len()) as int) =~= "\r\n\r\n"@);
}

// ---- time ----

/// What an exchange may take: the flat timeout for bodies of up to 64 KiB and
/// where no bandwidth is assumed; beyond that, as much longer as the body takes
/// at the assumed bandwidth, to the microsecond below; never less for more.
pub proof fn big_bodies_get_the_time_they_take(
    timeout_ms: u64,
    bandwidth: u64,
    length: u64,
    longer: u64,
)
    requires
        bandwidth > 0,
        length <= longer,
    ensures
        budget(timeout_ms, None, length) == timeout_ms * 1000,
        length <= 65536 ==> budget(timeout_ms, Some(bandwidth), length) == timeout_ms * 1000,
        length > 65536 ==> {
            let extra = budget(timeout_ms, Some(bandwidth), length) - timeout_ms * 1000;
            extra >= 0 && extra * bandwidth <= length * 1_000_000 < (extra + 1) * bandwidth
        },
        budget(timeout_ms, Some(bandwidth), length) <= budget(timeout_ms, Some(bandwidth), longer),
{
    let b = bandwidth as int;
    let n = length * 1_000_000;
    let m = longer * 1_000_000;
    assert(n / b >= 0 && (n / b) * b <= n < (n / b + 1) * b) by (nonlinear_arith)
        requires
            b > 0,
            n >= 0,
    ;
    assert(n / b <= m / b) by (nonlinear_arith)
        requires
            b > 0,
            0 <= n <= m,
    ;
    assert(m / b >= 0) by (nonlinear_arith)
        requires
            b > 0,
            m >= 0,
    ;
}

/// A head that has not ended yet is waited for as long as it is within 16 KiB,
/// and given up beyond that.
pub proof fn an_endless_head_is_given_up(buf: Seq<u8>, chunk: Seq<u8>)
    requires
        forall|i: int| !#[trigger] ends_head(buf + chunk, i),
    ensures
        (ReadingModel::Head { buf }).after_bytes(chunk) is Failed <==> (buf + chunk).len()
            > 16 * 1024,
        (buf + chunk).len() <= 16 * 1024 ==> (ReadingModel::Head { buf }).after_bytes(chunk) is More
            && (ReadingModel::Head { buf }).after_bytes(chunk)->More_0 is Head
            && (ReadingModel::Head { buf }).after_bytes(chunk)->More_0->Head_buf == buf + chunk,
{
}

} // verus!
