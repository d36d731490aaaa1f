//! Text building and reading on characters: decimal numbers, whitespace and
//! the concatenations that messages are made of.

use vstd::prelude::*;
use vstd::string::*;

verus! {

/// `String::push` of std: one character appended at the end.
pub assume_specification[ String::push ](s: &mut String, c: char)
    ensures
        final(s)@ == old(s)@.push(c),
;

/// The decimal digit of `d` (below ten).
pub open spec fn digit_char(d: nat) -> char {
    (d + 48) as u8 as char
}

/// `n` in decimal, without leading zeros.
pub open spec fn decimal(n: nat) -> Seq<char>
    decreases n,
{
    if n < 10 {
        seq![digit_char(n)]
    } else {
        decimal(n / 10).push(digit_char(n % 10))
    }
}

/// Writes `n` in decimal at the end of `out`.
pub fn push_decimal(out: &mut String, n: u128)
    ensures
        final(out)@ == old(out)@ + decimal(n as nat),
    decreases n,
{
    if n < 10 {
        let d: u8 = n as u8;
        out.push((d + 48) as char);
        assert(out@ =~= old(out)@ + decimal(n as nat));
    } else {
        push_decimal(out, n / 10);
        let d: u8 = (n % 10) as u8;
        out.push((d + 48) as char);
        assert(out@ =~= old(out)@ + decimal(n as nat));
    }
}

/// `n` in decimal.
pub fn decimal_string(n: u64) -> (text: String)
    ensures
        text@ == decimal(n as nat),
{
    let mut text = String::new();
    push_decimal(&mut text, n as u128);
    assert(text@ =~= decimal(n as nat));
    text
}

/// The characters of a text.
pub fn chars_of(text: &str) -> (chars: Vec<char>)
    ensures
        chars@ == text@,
{
    let mut chars: Vec<char> = Vec::new();
    for c in iter: text.chars()
        invariant
            iter.seq() == text@,
            chars@ == text@.take(iter.index()),
    {
        chars.push(c);
        assert(chars@ =~= text@.take(iter.index() + 1));
    }
    assert(text@.take(text@.len() as int) =~= text@);
    chars
}

/// The text that characters `from..to` make.
pub fn text_of(chars: &Vec<char>, from: usize, to: usize) -> (text: String)
    requires
        from <= to <= chars.len(),
    ensures
        text@ == chars@.subrange(from as int, to as int),
{
    let mut text = String::new();
    let mut i: usize = from;
    while i < to
        invariant
            from <= i <= to <= chars.len(),
            text@ == chars@.subrange(from as int, i as int),
        decreases to - i,
    {
        text.push(chars[i]);
        i += 1;
        assert(text@ =~= chars@.subrange(from as int, i as int));
    }
    text
}

/// Whether two texts are the same.
pub fn same_text(a: &str, b: &str) -> (same: bool)
    ensures
        same == (a@ == b@),
{
    let left = chars_of(a);
    let right = chars_of(b);
    if left.len() != right.len() {
        return false;
    }
    let mut i: usize = 0;
    while i < left.len()
        invariant
            i <= left.len() == right.len(),
            left@ == a@,
            right@ == b@,
            forall|j: int| 0 <= j < i ==> left[j] == right[j],
        decreases left.len() - i,
    {
        if left[i] != right[i] {
            return false;
        }
        i += 1;
    }
    assert(left@ =~= right@);
    true
}

/// Whether a character is white space (Unicode `White_Space`).
pub open spec fn is_space(c: char) -> bool {
    let u = c as u32;
    ||| 0x09 <= u <= 0x0D
    ||| u == 0x20
    ||| u == 0x85
    ||| u == 0xA0
    ||| u == 0x1680
    ||| 0x2000 <= u <= 0x200A
    ||| u == 0x2028
    ||| u == 0x2029
    ||| u == 0x202F
    ||| u == 0x205F
    ||| u == 0x3000
}

/// Whether a character is white space.
pub fn white_space(c: char) -> (space: bool)
    ensures
        space == is_space(c),
{
    let u: u32 = c as u32;
    (0x09 <= u && u <= 0x0D) || u == 0x20 || u == 0x85 || u == 0xA0 || u == 0x1680 || (0x2000 <= u
        && u <= 0x200A) || u == 0x2028 || u == 0x2029 || u == 0x202F || u == 0x205F || u == 0x3000
}

/// A text without the white space at its start.
pub open spec fn trim_start(s: Seq<char>) -> Seq<char>
    decreases s.len(),
{
    if s.len() > 0 && is_space(s[0]) {
        trim_start(s.skip(1))
    } else {
        s
    }
}

/// A text without the white space at its end.
pub open spec fn trim_end(s: Seq<char>) -> Seq<char>
    decreases s.len(),
{
    if s.len() > 0 && is_space(s.last()) {
        trim_end(s.drop_last())
    } else {
        s
    }
}

/// A text without the white space around it.
pub open spec fn trim(s: Seq<char>) -> Seq<char> {
    trim_end(trim_start(s))
}

/// The bounds of what trimming leaves of characters `from..to`.
pub fn trim_bounds(chars: &Vec<char>, from: usize, to: usize) -> (bounds: (usize, usize))
    requires
        from <= to <= chars.len(),
    ensures
        from <= bounds.0 <= bounds.1 <= to,
        chars@.subrange(bounds.0 as int, bounds.1 as int) == trim(
            chars@.subrange(from as int, to as int),
        ),
{
    let mut start: usize = from;
    while start < to && white_space(chars[start])
        invariant
            from <= start <= to <= chars.len(),
            trim_start(chars@.subrange(start as int, to as int)) == trim_start(
                chars@.subrange(from as int, to as int),
            ),
        decreases to - start,
    {
        assert(chars@.subrange(start as int, to as int).skip(1) =~= chars@.subrange(
            start + 1,
            to as int,
        ));
        start += 1;
    }
    let mut end: usize = to;
    while end > start && white_space(chars[end - 1])
        invariant
            from <= start <= end <= to <= chars.len(),
            trim_end(chars@.subrange(start as int, end as int)) == trim(
                chars@.subrange(from as int, to as int),
            ),
        decreases end - start,
    {
        assert(chars@.subrange(start as int, end as int).drop_last() =~= chars@.subrange(
            start as int,
            end - 1,
        ));
        end -= 1;
    }
    (start, end)
}

/// The pieces of a text between occurrences of `sep`; always at least one.
pub open spec fn split(s: Seq<char>, sep: char) -> Seq<Seq<char>>
    decreases s.len(),
{
    if s.len() == 0 {
        seq![Seq::empty()]
    } else {
        let before = split(s.drop_last(), sep);
        if s.last() == sep {
            before.push(Seq::empty())
        } else {
            before.drop_last().push(before.last().push(s.last()))
        }
    }
}

/// The bounds of the pieces between occurrences of `sep`.
pub fn split_bounds(chars: &Vec<char>, sep: char) -> (pieces: Vec<(usize, usize)>)
    ensures
        pieces.len() == split(chars@, sep).len(),
        forall|k: int|
            #![trigger pieces[k]]
            0 <= k < pieces.len() ==> {
                &&& pieces[k].0 <= pieces[k].1 <= chars.len()
                &&& chars@.subrange(pieces[k].0 as int, pieces[k].1 as int) == split(
                    chars@,
                    sep,
                )[k]
            },
{
    let mut pieces: Vec<(usize, usize)> = Vec::new();
    let mut start: usize = 0;
    let mut i: usize = 0;
    assert(chars@.subrange(0, 0) =~= Seq::empty());
    assert(split(chars@.take(0), sep).len() == 1);
    while i < chars.len()
        invariant
            start <= i <= chars.len(),
            pieces.len() + 1 == split(chars@.take(i as int), sep).len(),
            forall|k: int|
                #![trigger pieces[k]]
                0 <= k < pieces.len() ==> {
                    &&& pieces[k].0 <= pieces[k].1 <= chars.len()
                    &&& chars@.subrange(pieces[k].0 as int, pieces[k].1 as int) == split(
                        chars@.take(i as int),
                        sep,
                    )[k]
                },
            chars@.subrange(start as int, i as int) == split(chars@.take(i as int), sep).last(),
        decreases chars.len() - i,
    {
        proof {
            assert(chars@.take(i + 1).drop_last() =~= chars@.take(i as int));
            assert(chars@.subrange(start as int, i as int).push(chars[i as int])
                =~= chars@.subrange(start as int, i + 1));
            assert(chars@.subrange(i + 1, i + 1) =~= Seq::empty());
        }
        if chars[i] == sep {
            pieces.push((start, i));
            start = i + 1;
        }
        i += 1;
    }
    pieces.push((start, chars.len()));
    assert(chars@.take(chars.len() as int) =~= chars@);
    pieces
}

/// Where `wanted` first occurs in `s`, if it does.
pub open spec fn first_index(s: Seq<char>, wanted: char) -> Option<int>
    decreases s.len(),
{
    if s.len() == 0 {
        None
    } else {
        match first_index(s.drop_last(), wanted) {
            Some(i) => Some(i),
            None => if s.last() == wanted {
                Some(s.len() - 1)
            } else {
                None
            },
        }
    }
}

/// Where `wanted` first occurs among characters `from..to`, counted from
/// `from`.
pub fn find_char(chars: &Vec<char>, from: usize, to: usize, wanted: char) -> (found: Option<usize>)
    requires
        from <= to <= chars.len(),
    ensures
        first_index(chars@.subrange(from as int, to as int), wanted) == match found {
            Some(i) => Some(i as int),
            None => None,
        },
        found is Some ==> from + found->0 < to,
{
    let ghost all = chars@.subrange(from as int, to as int);
    let mut i: usize = from;
    while i < to
        invariant
            from <= i <= to <= chars.len(),
            all == chars@.subrange(from as int, to as int),
            first_index(all.take(i - from), wanted) is None,
        decreases to - i,
    {
        assert(all.take(i + 1 - from).drop_last() =~= all.take(i - from));
        if chars[i] == wanted {
            proof {
                lemma_first_index_stays(all, i + 1 - from, wanted);
            }
            return Some(i - from);
        }
        i += 1;
    }
    assert(all.take(to - from) =~= all);
    None
}

proof fn lemma_first_index_stays(s: Seq<char>, upto: int, wanted: char)
    requires
        0 <= upto <= s.len(),
        first_index(s.take(upto), wanted) is Some,
    ensures
        first_index(s, wanted) == first_index(s.take(upto), wanted),
    decreases s.len(),
{
    if upto == s.len() {
        assert(s.take(upto) =~= s);
    } else {
        assert(s.drop_last().take(upto) =~= s.take(upto));
        lemma_first_index_stays(s.drop_last(), upto, wanted);
    }
}

/// The value of a run of decimal digits, or `None` if it is not one.
pub open spec fn digits_value(s: Seq<char>) -> Option<nat>
    decreases s.len(),
{
    if s.len() == 0 {
        Some(0)
    } else {
        match digits_value(s.drop_last()) {
            Some(n) => if '0' <= s.last() <= '9' {
                Some((n * 10 + (s.last() as u32 - 48)) as nat)
            } else {
                None
            },
            None => None,
        }
    }
}

/// The number that a text spells: an optional plus sign, then at least one
/// decimal digit and nothing else, within 64 bits.
pub open spec fn number(s: Seq<char>) -> Option<u64> {
    let digits = if s.len() > 0 && s[0] == '+' {
        s.skip(1)
    } else {
        s
    };
    match digits_value(digits) {
        Some(n) => if digits.len() > 0 && n <= u64::MAX {
            Some(n as u64)
        } else {
            None
        },
        None => None,
    }
}

proof fn lemma_digits_grow(s: Seq<char>, upto: int)
    requires
        0 <= upto <= s.len(),
    ensures
        digits_value(s) is Some ==> digits_value(s.take(upto)) is Some && digits_value(
            s.take(upto),
        )->0 <= digits_value(s)->0,
    decreases s.len(),
{
    if upto == s.len() {
        assert(s.take(upto) =~= s);
    } else {
        lemma_digits_grow(s.drop_last(), upto);
        assert(s.drop_last().take(upto) =~= s.take(upto));
    }
}

/// Reads the number that characters `from..to` spell.
pub fn parse_number(chars: &Vec<char>, from: usize, to: usize) -> (n: Option<u64>)
    requires
        from <= to <= chars.len(),
    ensures
        n == number(chars@.subrange(from as int, to as int)),
{
    let ghost all = chars@.subrange(from as int, to as int);
    let start: usize = if from < to && chars[from] == '+' {
        from + 1
    } else {
        from
    };
    let ghost digits = chars@.subrange(start as int, to as int);
    assert(digits =~= if all.len() > 0 && all[0] == '+' {
        all.skip(1)
    } else {
        all
    });
    if start == to {
        return None;
    }
    let mut value: u64 = 0;
    let mut i: usize = start;
    while i < to
        invariant
            start <= i <= to <= chars.len(),
            start < to,
            digits == chars@.subrange(start as int, to as int),
            digits == (if all.len() > 0 && all[0] == '+' {
                all.skip(1)
            } else {
                all
            }),
            all == chars@.subrange(from as int, to as int),
            digits_value(digits.take(i - start)) == Some(value as nat),
        decreases to - i,
    {
        let c: char = chars[i];
        proof {
            assert(digits.take(i + 1 - start).drop_last() =~= digits.take(i - start));
            lemma_digits_grow(digits, i + 1 - start);
        }
        if c < '0' || c > '9' {
            return None;
        }
        let digit: u64 = (c as u32 - 48) as u64;
        if value > (u64::MAX - digit) / 10 {
            return None;
        }
        value = value * 10 + digit;
        i += 1;
    }
    assert(digits.take(to - start) =~= digits);
    Some(value)
}

/// Reads the number that a whole text spells.
pub fn parse_text(text: &str) -> (n: Option<u64>)
    ensures
        n == number(text@),
{
    let chars = chars_of(text);
    assert(chars@.subrange(0, chars.len() as int) =~= chars@);
    parse_number(&chars, 0, chars.len())
}

/// A text in double quotes with its special characters escaped: what
/// formatting it with `{:?}` writes.
pub uninterp spec fn quoted(text: Seq<char>) -> Seq<char>;

/// `format!` of std with `{:?}` on a string: the text in double quotes, with
/// quotes, backslashes and unprintable characters escaped.
#[verifier::external_body]
pub(crate) fn quote(text: &str) -> (out: String)
    ensures
        out@ == quoted(text@),
{
    format!("{:?}", text)
}

// ---- what the readings come to ----

/// A number in decimal is read back as itself, with a plus sign in front too;
/// anything above 64 bits is not read.
pub proof fn decimals_are_read_back(n: nat)
    ensures
        decimal(n).len() > 0,
        digits_value(decimal(n)) == Some(n),
        n <= u64::MAX ==> number(decimal(n)) == Some(n as u64),
        n <= u64::MAX ==> number(seq!['+'] + decimal(n)) == Some(n as u64),
        n > u64::MAX ==> number(decimal(n)) is None,
        forall|i: int|
            #![trigger decimal(n)[i]]
            0 <= i < decimal(n).len() ==> '0' <= decimal(n)[i] <= '9',
        n > 0 ==> decimal(n)[0] != '0',
    decreases n,
{
    if n < 10 {
        assert(decimal(n).drop_last() =~= Seq::<char>::empty());
        reveal_with_fuel(digits_value, 2);
    } else {
        decimals_are_read_back(n / 10);
        assert(decimal(n).drop_last() =~= decimal(n / 10));
        assert(decimal(n).last() == digit_char(n % 10));
        assert(decimal(n)[0] == decimal(n / 10)[0]);
        assert(n == n / 10 * 10 + n % 10);
    }
    assert((seq!['+'] + decimal(n)).skip(1) =~= decimal(n));
}

/// Different numbers have different decimals.
pub proof fn decimals_differ(a: nat, b: nat)
    requires
        decimal(a) == decimal(b),
    ensures
        a == b,
{
    decimals_are_read_back(a);
    decimals_are_read_back(b);
}

/// What is read as a number: at least one digit behind an optional plus sign,
/// and nothing but digits. A digit more is ten times as much and the digit.
pub proof fn only_digits_are_numbers(s: Seq<char>, c: char)
    ensures
        number(Seq::empty()) is None,
        number(seq!['+']) is None,
        number(s) is Some ==> s.len() > 0 && forall|i: int|
            #![trigger s[i]]
            0 <= i < s.len() && !(i == 0 && s[0] == '+') ==> '0' <= s[i] <= '9',
        number(s) is Some && '0' <= c <= '9' ==> {
            let more = number(s)->0 * 10 + (c as u32 - 48);
            number(s.push(c)) == if more <= u64::MAX {
                Some(more as u64)
            } else {
                None
            }
        },
        '0' <= c <= '9' ==> number(seq![c]) == Some((c as u32 - 48) as u64),
{
    assert(seq!['+'].skip(1) =~= Seq::<char>::empty());
    let digits = if s.len() > 0 && s[0] == '+' {
        s.skip(1)
    } else {
        s
    };
    lemma_all_digits(digits);
    if number(s) is Some {
        assert forall|i: int|
            #![trigger s[i]]
            0 <= i < s.len() && !(i == 0 && s[0] == '+') implies '0' <= s[i] <= '9' by {
            if s[0] == '+' {
                assert(digits[i - 1] == s[i]);
            }
        }
        let longer = s.push(c);
        if s[0] == '+' {
            assert(longer.skip(1) =~= digits.push(c));
        }
        assert(digits.push(c).drop_last() =~= digits);
        assert(digits.push(c).last() == c);
    }
    assert(seq![c].drop_last() =~= Seq::<char>::empty());
    reveal_with_fuel(digits_value, 2);
}

proof fn lemma_all_digits(s: Seq<char>)
    ensures
        digits_value(s) is Some <==> forall|i: int|
            #![trigger s[i]]
            0 <= i < s.len() ==> '0' <= s[i] <= '9',
    decreases s.len(),
{
    if s.len() > 0 {
        let init = s.drop_last();
        lemma_all_digits(init);
        if digits_value(s) is Some {
            assert forall|i: int| #![trigger s[i]] 0 <= i < s.len() implies '0' <= s[i] <= '9' by {
                if i < init.len() {
                    assert(init[i] == s[i]);
                } else {
                    assert(s[i] == s.last());
                }
            }
        }
        if forall|i: int| #![trigger s[i]] 0 <= i < s.len() ==> '0' <= s[i] <= '9' {
            assert forall|i: int| #![trigger init[i]] 0 <= i < init.len() implies '0' <= init[i]
                <= '9' by {
                assert(init[i] == s[i]);
            }
            assert(s.last() == s[s.len() - 1]);
        }
    }
}

/// Trimming takes white space from both ends and nothing else: what is left is
/// a piece of the text, with white space alone on either side of it and at
/// neither of its ends.
pub proof fn trimming_takes_the_white_space_around(s: Seq<char>) -> (at: int)
    ensures
        0 <= at,
        at + trim(s).len() <= s.len(),
        trim(s) == s.subrange(at, at + trim(s).len()),
        forall|i: int| #![trigger s[i]] 0 <= i < at ==> is_space(s[i]),
        forall|i: int| #![trigger s[i]] at + trim(s).len() <= i < s.len() ==> is_space(s[i]),
        trim(s).len() > 0 ==> !is_space(trim(s)[0]) && !is_space(trim(s)[trim(s).len() - 1]),
{
    let at = lemma_trim_start(s);
    let rest = trim_start(s);
    lemma_trim_end(rest);
    let kept = trim_end(rest);
    assert(kept =~= s.subrange(at, at + kept.len()));
    assert forall|i: int| #![trigger s[i]] at + kept.len() <= i < s.len() implies is_space(s[i]) by {
        assert(rest[i - at] == s[i]);
    }
    at
}

proof fn lemma_trim_start(s: Seq<char>) -> (at: int)
    ensures
        0 <= at <= s.len(),
        trim_start(s) == s.skip(at),
        forall|i: int| #![trigger s[i]] 0 <= i < at ==> is_space(s[i]),
        at < s.len() ==> !is_space(s[at]),
    decreases s.len(),
{
    if s.len() > 0 && is_space(s[0]) {
        let next = lemma_trim_start(s.skip(1));
        assert(s.skip(1).skip(next) =~= s.skip(next + 1));
        assert forall|i: int| #![trigger s[i]] 0 <= i < next + 1 implies is_space(s[i]) by {
            if i > 0 {
                assert(s.skip(1)[i - 1] == s[i]);
            }
        }
        next + 1
    } else {
        assert(s.skip(0) =~= s);
        0
    }
}

proof fn lemma_trim_end(s: Seq<char>)
    ensures
        trim_end(s).len() <= s.len(),
        trim_end(s) == s.take(trim_end(s).len() as int),
        forall|i: int| #![trigger s[i]] trim_end(s).len() <= i < s.len() ==> is_space(s[i]),
        trim_end(s).len() > 0 ==> !is_space(s[trim_end(s).len() - 1]),
    decreases s.len(),
{
    if s.len() > 0 && is_space(s.last()) {
        let init = s.drop_last();
        lemma_trim_end(init);
        assert(init.take(trim_end(s).len() as int) =~= s.take(trim_end(s).len() as int));
        assert forall|i: int| #![trigger s[i]] trim_end(s).len() <= i < s.len() implies is_space(
            s[i],
        ) by {
            if i < init.len() {
                assert(init[i] == s[i]);
            }
        }
    } else {
        assert(s.take(s.len() as int) =~= s);
    }
}

/// White space around a text does not matter, and a trimmed text stays as it
/// is.
pub proof fn a_text_without_white_space_around_stays(s: Seq<char>)
    requires
        s.len() > 0 ==> !is_space(s[0]) && !is_space(s[s.len() - 1]),
    ensures
        trim(s) == s,
{
    let at = trimming_takes_the_white_space_around(s);
    if s.len() > 0 {
        if at > 0 {
            assert(is_space(s[0]));
        }
        if at + trim(s).len() < s.len() {
            assert(is_space(s[s.len() - 1]));
        }
    }
    assert(trim(s) =~= s);
}

/// The pieces of a text, one after another with `sep` between them.
pub open spec fn joined(pieces: Seq<Seq<char>>, sep: char) -> Seq<char>
    decreases pieces.len(),
{
    if pieces.len() == 0 {
        Seq::empty()
    } else if pieces.len() == 1 {
        pieces[0]
    } else {
        joined(pieces.drop_last(), sep).push(sep) + pieces.last()
    }
}

/// Splitting loses nothing: the pieces hold no separator, and joined by it they
/// are the text again.
pub proof fn pieces_join_to_the_text(s: Seq<char>, sep: char)
    ensures
        split(s, sep).len() > 0,
        joined(split(s, sep), sep) == s,
        forall|k: int|
            #![trigger split(s, sep)[k]]
            0 <= k < split(s, sep).len() ==> !split(s, sep)[k].contains(sep),
    decreases s.len(),
{
    if s.len() == 0 {
        assert(joined(split(s, sep), sep) =~= s);
    } else {
        let before = split(s.drop_last(), sep);
        pieces_join_to_the_text(s.drop_last(), sep);
        let pieces = split(s, sep);
        if s.last() == sep {
            assert(pieces.drop_last() =~= before);
            assert(joined(pieces, sep) =~= s);
            assert forall|k: int| #![trigger pieces[k]] 0 <= k < pieces.len() implies !pieces[k].contains(
                sep,
            ) by {
                if k < before.len() {
                    assert(pieces[k] == before[k]);
                }
            }
        } else {
            let piece = before.last().push(s.last());
            assert(pieces.last() == piece);
            assert(pieces.drop_last() =~= before.drop_last());
            if before.len() == 1 {
                assert(joined(pieces, sep) =~= s);
            } else {
                assert(joined(pieces, sep) =~= joined(before, sep).push(s.last()));
                assert(joined(pieces, sep) =~= s);
            }
            assert forall|k: int| #![trigger pieces[k]] 0 <= k < pieces.len() implies !pieces[k].contains(
                sep,
            ) by {
                if k < pieces.len() - 1 {
                    assert(pieces[k] == before[k]);
                } else {
                    assert(!before[before.len() - 1].contains(sep));
                    if piece.contains(sep) {
                        let i = choose|i: int| 0 <= i < piece.len() && piece[i] == sep;
                        assert(before.last()[i] == sep);
                    }
                }
            }
        }
    }
}

/// A text without the separator is its only piece.
pub proof fn a_text_without_the_separator_is_one_piece(s: Seq<char>, sep: char)
    requires
        !s.contains(sep),
    ensures
        split(s, sep) == seq![s],
    decreases s.len(),
{
    if s.len() > 0 {
        let init = s.drop_last();
        assert forall|i: int| 0 <= i < init.len() implies init[i] != sep by {
            assert(s[i] != sep);
        }
        a_text_without_the_separator_is_one_piece(init, sep);
        assert(s[s.len() - 1] != sep);
        assert(init.push(s.last()) =~= s);
        assert(split(s, sep) =~= seq![s]);
    } else {
        assert(s =~= Seq::empty());
        assert(split(s, sep) =~= seq![s]);
    }
}

/// The first occurrence is one, and there is none before it.
pub proof fn the_first_occurrence_is_first(s: Seq<char>, wanted: char)
    ensures
        match first_index(s, wanted) {
            Some(i) => 0 <= i < s.len() && s[i] == wanted && forall|j: int|
                #![trigger s[j]]
                0 <= j < i ==> s[j] != wanted,
            None => !s.contains(wanted),
        },
    decreases s.len(),
{
    if s.len() > 0 {
        let init = s.drop_last();
        the_first_occurrence_is_first(init, wanted);
        if first_index(init, wanted) is None {
            assert forall|j: int| #![trigger s[j]] 0 <= j < init.len() implies s[j] != wanted by {
                assert(init[j] == s[j]);
            }
        } else {
            assert forall|j: int| #![trigger s[j]] 0 <= j < first_index(init, wanted)->0 implies s[j]
                != wanted by {
                assert(init[j] == s[j]);
            }
        }
    }
}

/// Among the ASCII characters, white space is the blank, the tab and the
/// characters that end or feed lines and pages; nothing that prints is.
pub proof fn ascii_white_space(c: char)
    requires
        (c as u32) < 0x80,
    ensures
        is_space(c) <==> c == ' ' || c == '\t' || c == '\n' || c == '\r' || c as u32 == 0x0B || c
            as u32 == 0x0C,
{
}

/// Whether a text is white space alone.
pub open spec fn blank(s: Seq<char>) -> bool {
    forall|i: int| #![trigger s[i]] 0 <= i < s.len() ==> is_space(s[i])
}

/// Trimming undoes padding: a text that neither starts nor ends in white space
/// comes back out of any white space around it.
pub proof fn padding_is_trimmed(before: Seq<char>, s: Seq<char>, behind: Seq<char>)
    requires
        blank(before),
        blank(behind),
        s.len() > 0 ==> !is_space(s[0]) && !is_space(s[s.len() - 1]),
    ensures
        trim(before + s + behind) == s,
{
    let all = before + s + behind;
    let at = trimming_takes_the_white_space_around(all);
    let kept = trim(all);
    if s.len() == 0 {
        if kept.len() > 0 {
            assert(kept[0] == all[at]);
            if at < before.len() {
                assert(all[at] == before[at]);
            } else {
                assert(all[at] == behind[at - before.len()]);
            }
        }
    } else {
        assert(all[before.len() as int] == s[0]);
        let last = before.len() + s.len() - 1;
        assert(all[last] == s[s.len() - 1]);
        assert(at <= before.len());
        assert(at + kept.len() > last);
        assert(kept[0] == all[at]);
        if at < before.len() {
            assert(all[at] == before[at]);
        }
        assert(kept[kept.len() - 1] == all[at + kept.len() - 1]);
        if at + kept.len() - 1 > last {
            assert(all[at + kept.len() - 1] == behind[at + kept.len() - 2 - last]);
        }
    }
    assert(kept =~= s);
}

} // verus!
