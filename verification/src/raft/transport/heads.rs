//! Response heads are read without regard to case.

use vstd::prelude::*;
use vstd::utf8::{
    decode_first_scalar, decode_utf8, decode_utf8_first_scalar, encode_scalar, is_leading_byte_width_1, length_of_first_scalar,
    pop_first_scalar, valid_first_scalar, valid_utf8,
};

use super::http::{lower, lower_char, read_head, status_of, words, words_and_rest};
use crate::text::{digits_value, is_space, number};

verus! {

/// An ASCII letter's byte in lower case; any other byte as it is.
pub open spec fn lower_byte(b: u8) -> u8 {
    if 65 <= b <= 90 {
        (b + 32) as u8
    } else {
        b
    }
}

/// Bytes with their ASCII letters in lower case.
pub open spec fn lower_bytes(raw: Seq<u8>) -> Seq<u8> {
    raw.map_values(|b: u8| lower_byte(b))
}

/// The first character of lower-cased bytes.
proof fn first_scalar_lowered(raw: Seq<u8>)
    requires
        raw.len() > 0,
    ensures
        valid_first_scalar(lower_bytes(raw)) == valid_first_scalar(raw),
        valid_first_scalar(raw) ==> {
            &&& length_of_first_scalar(lower_bytes(raw)) == length_of_first_scalar(raw)
            &&& pop_first_scalar(lower_bytes(raw)) == lower_bytes(pop_first_scalar(raw))
        },
        valid_utf8(raw) ==> decode_first_scalar(lower_bytes(raw)) as char == lower_char(
            decode_first_scalar(raw) as char,
        ),
{
    let low = lower_bytes(raw);
    let b = raw[0];
    assert(low[0] == lower_byte(b));
    if is_leading_byte_width_1(b) {
        assert((b & 0x7f) as u32 == b as u32) by (bit_vector)
            requires
                b <= 0x7f,
        ;
        let l = lower_byte(b);
        assert((l & 0x7f) as u32 == l as u32) by (bit_vector)
            requires
                l <= 0x7f,
        ;
    } else {
        assert(low[0] == b);
        if raw.len() > 1 {
            assert(low[1] == lower_byte(raw[1]));
        }
        if raw.len() > 2 {
            assert(low[2] == lower_byte(raw[2]));
        }
        if raw.len() > 3 {
            assert(low[3] == lower_byte(raw[3]));
        }
        if valid_utf8(raw) {
            high_scalar(raw);
        }
    }
    if valid_first_scalar(raw) {
        assert(pop_first_scalar(low) =~= lower_bytes(pop_first_scalar(raw)));
    }
}

/// A character of more than one byte is no ASCII letter.
proof fn high_scalar(raw: Seq<u8>)
    requires
        raw.len() > 0,
        valid_utf8(raw),
        !is_leading_byte_width_1(raw[0]),
    ensures
        lower_char(decode_first_scalar(raw) as char) == decode_first_scalar(raw) as char,
{
    decode_utf8_first_scalar(raw);
    assert(encode_scalar((decode_first_scalar(raw) as char) as u32).len() > 1);
}

/// Lower-casing bytes is lower-casing the text they encode.
proof fn text_lowered(raw: Seq<u8>)
    ensures
        valid_utf8(lower_bytes(raw)) == valid_utf8(raw),
        valid_utf8(raw) ==> decode_utf8(lower_bytes(raw)) == lower(decode_utf8(raw)),
    decreases raw.len(),
{
    let low = lower_bytes(raw);
    if raw.len() == 0 {
        assert(low =~= raw);
        assert(lower(decode_utf8(raw)) =~= Seq::empty());
    } else {
        first_scalar_lowered(raw);
        if valid_first_scalar(raw) {
            text_lowered(pop_first_scalar(raw));
            if valid_utf8(raw) {
                assert(lower(decode_utf8(raw)) =~= seq![lower_char(
                    decode_first_scalar(raw) as char,
                )] + lower(decode_utf8(pop_first_scalar(raw))));
            }
        }
    }
}

/// The words of a lower-cased text.
proof fn words_lowered(s: Seq<char>)
    ensures
        words_and_rest(lower(s)).0.len() == words_and_rest(s).0.len(),
        forall|i: int|
            #![trigger words_and_rest(s).0[i]]
            0 <= i < words_and_rest(s).0.len() ==> words_and_rest(lower(s)).0[i] == lower(
                words_and_rest(s).0[i],
            ),
        words_and_rest(lower(s)).1 == lower(words_and_rest(s).1),
    decreases s.len(),
{
    if s.len() == 0 {
        assert(lower(s) =~= s);
        assert(lower(words_and_rest(s).1) =~= Seq::empty());
    } else {
        words_lowered(s.drop_last());
        assert(lower(s).drop_last() =~= lower(s.drop_last()));
        assert(lower(s).last() == lower_char(s.last()));
        assert(is_space(lower_char(s.last())) == is_space(s.last()));
        let rest = words_and_rest(s.drop_last()).1;
        assert(lower(rest.push(s.last())) =~= lower(rest).push(lower_char(s.last())));
        assert(lower(Seq::<char>::empty()) =~= Seq::empty());
    }
}

/// Lower-casing changes no number.
proof fn digits_lowered(s: Seq<char>)
    ensures
        digits_value(lower(s)) == digits_value(s),
    decreases s.len(),
{
    if s.len() > 0 {
        digits_lowered(s.drop_last());
        assert(lower(s).drop_last() =~= lower(s.drop_last()));
        assert(lower(s).last() == lower_char(s.last()));
    }
}

proof fn number_lowered(s: Seq<char>)
    ensures
        number(lower(s)) == number(s),
{
    digits_lowered(s);
    if s.len() > 0 {
        assert(lower(s)[0] == lower_char(s[0]));
        digits_lowered(s.skip(1));
        assert(lower(s).skip(1) =~= lower(s.skip(1)));
    }
}

/// Lower-casing changes no status.
proof fn status_lowered(s: Seq<char>)
    ensures
        status_of(lower(s)) == status_of(s),
{
    words_lowered(s);
    if words(s).len() >= 2 {
        assert(words(lower(s))[1] == lower(words(s)[1]));
        number_lowered(words(s)[1]);
    }
}

/// Headers are matched without regard to case: lower-casing the bytes of a
/// head leaves its outcome as it is.
pub proof fn case_does_not_matter(raw: Seq<u8>)
    ensures
        match (read_head(raw), read_head(lower_bytes(raw))) {
            (Ok(a), Ok(b)) => a == b,
            (Err(_), Err(_)) => true,
            _ => false,
        },
{
    text_lowered(raw);
    if valid_utf8(raw) {
        let head = decode_utf8(raw);
        status_lowered(head);
        assert(lower(lower(head)) =~= lower(head));
    }
}

} // verus!
