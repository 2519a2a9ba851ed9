//! Text for display: the first line of an entry, numbers, timestamps.

use chrono::{TimeZone, Utc};
use vstd::prelude::*;
use vstd::string::StringExecFns;
use vstd::utf8::{decode_utf8, encode_utf8, is_char_boundary, valid_utf8};

verus! {

/// The text that `chrono` shows for the UTC time `at` seconds after the
/// epoch; `None` where `chrono` has no date for `at`.
pub uninterp spec fn utc_text(at: i64) -> Option<Seq<char>>;

/// Calls `std::str::from_utf8`: the bytes as text where they are valid UTF-8,
/// `None` where they are not.
#[verifier::external_body]
fn utf8_text(bytes: &[u8]) -> (text: Option<&str>)
    ensures
        match text {
            Some(s) => valid_utf8(bytes@) && encode_utf8(s@) == bytes@,
            None => !valid_utf8(bytes@),
        },
{
    std::str::from_utf8(bytes).ok()
}

/// Calls `str::trim`, which takes the white space off both ends.
#[verifier::external_body]
fn trim(text: &str) -> (inner: &str)
    ensures
        inner@ == trimmed(text@),
{
    text.trim()
}

/// Calls `TimeZone::timestamp_opt` of `chrono` on `Utc`, with no nanoseconds,
/// and shows the one date that it gives, if any, with `to_string`.
#[verifier::external_body]
fn utc_string(at: i64) -> (text: Option<String>)
    ensures
        match text {
            Some(s) => utc_text(at) == Some(s@),
            None => utc_text(at) is None,
        },
{
    Utc.timestamp_opt(at, 0).single().map(|time| time.to_string())
}

/// White space as `char::is_whitespace` has it: the code points with the
/// Unicode property `White_Space`.
pub open spec fn is_white(c: char) -> bool {
    let u = c as u32;
    ||| 0x09 <= u <= 0x0D
    ||| u == 0x20
    ||| u == 0x85
    ||| u == 0xA0
    ||| u == 0x1680
    ||| 0x2000 <= u <= 0x200A
    ||| u == 0x2028
    ||| u == 0x2029
    ||| u == 0x202F
    ||| u == 0x205F
    ||| u == 0x3000
}

/// `text` without the white space at its start.
pub open spec fn trimmed_start(text: Seq<char>) -> Seq<char>
    decreases text.len(),
{
    if text.len() > 0 && is_white(text.first()) {
        trimmed_start(text.drop_first())
    } else {
        text
    }
}

/// `text` without the white space at its end.
pub open spec fn trimmed_end(text: Seq<char>) -> Seq<char>
    decreases text.len(),
{
    if text.len() > 0 && is_white(text.last()) {
        trimmed_end(text.drop_last())
    } else {
        text
    }
}

/// `text` without the white space at its start and at its end.
pub open spec fn trimmed(text: Seq<char>) -> Seq<char> {
    trimmed_end(trimmed_start(text))
}

/// The place of the first line feed at or behind `from`, or the length of
/// `bytes` where there is none.
pub open spec fn line_break(bytes: Seq<u8>, from: int) -> int
    decreases bytes.len() - from,
{
    if from < 0 || from >= bytes.len() {
        bytes.len() as int
    } else if bytes[from] == 0x0A {
        from
    } else {
        line_break(bytes, from + 1)
    }
}

/// Where the first line ends: at the first line feed, or in front of the
/// carriage return that stands directly before it; at the end of `bytes`
/// where there is no line feed.
pub open spec fn first_line_len(bytes: Seq<u8>) -> int {
    let end = line_break(bytes, 0);
    if 0 < end < bytes.len() && bytes[end - 1] == 0x0D {
        end - 1
    } else {
        end
    }
}

/// The first line of `bytes`, without its line ending.
pub open spec fn first_line(bytes: Seq<u8>) -> Seq<u8> {
    bytes.take(first_line_len(bytes))
}

/// The decimal digit for `d`.
pub open spec fn digit(d: int) -> char {
    if d == 0 {
        '0'
    } else if d == 1 {
        '1'
    } else if d == 2 {
        '2'
    } else if d == 3 {
        '3'
    } else if d == 4 {
        '4'
    } else if d == 5 {
        '5'
    } else if d == 6 {
        '6'
    } else if d == 7 {
        '7'
    } else if d == 8 {
        '8'
    } else {
        '9'
    }
}

/// The decimal digits of `n`, without leading zeros.
pub open spec fn digits(n: nat) -> Seq<char>
    decreases n,
{
    if n < 10 {
        seq![digit(n as int)]
    } else {
        digits(n / 10).push(digit((n % 10) as int))
    }
}

/// `n` in decimal, with a minus sign where it is negative.
pub open spec fn decimal(n: int) -> Seq<char> {
    if n < 0 {
        seq!['-'] + digits((-n) as nat)
    } else {
        digits(n as nat)
    }
}

/// The line break is within the bytes, and no line feed stands before it.
proof fn lemma_line_break(bytes: Seq<u8>, from: int)
    requires
        0 <= from <= bytes.len(),
    ensures
        from <= line_break(bytes, from) <= bytes.len(),
        line_break(bytes, from) < bytes.len() ==> bytes[line_break(bytes, from)] == 0x0A,
    decreases bytes.len() - from,
{
    if from < bytes.len() && bytes[from] != 0x0A {
        lemma_line_break(bytes, from + 1);
    }
}

/// The first line of `text`, as `str::lines` gives it; the empty text where
/// `text` is empty.
pub fn first_line_of(text: &str) -> (line: &str)
    ensures
        encode_utf8(line@) == first_line(encode_utf8(text@)),
        line@ == decode_utf8(first_line(encode_utf8(text@))),
{
    let bytes = text.as_bytes();
    let ghost all = bytes@;
    proof {
        vstd::utf8::encode_utf8_valid_utf8(text@);
        lemma_line_break(all, 0);
    }
    let mut i: usize = 0;
    while i < bytes.len() && bytes[i] != 0x0A
        invariant
            i <= bytes.len(),
            all == bytes@,
            line_break(all, 0) == line_break(all, i as int),
        decreases bytes.len() - i,
    {
        i += 1;
    }
    let end: usize = if 0 < i && i < bytes.len() && bytes[i - 1] == 0x0D {
        i - 1
    } else {
        i
    };
    proof {
        assert(end == first_line_len(all));
        if end < all.len() {
            assert(!vstd::utf8::is_continuation_byte(all[end as int]));
            vstd::utf8::is_char_boundary_iff_not_is_continuation_byte(all, end as int);
        } else {
            vstd::utf8::is_char_boundary_start_end_of_seq(all);
        }
        assert(is_char_boundary(all, end as int));
    }
    let (line, _) = text.split_at(end);
    proof {
        assert(encode_utf8(line@) == all.take(end as int));
        vstd::utf8::encode_utf8_decode_utf8(line@);
    }
    line
}

/// One decimal digit as text.
fn digit_str(d: u64) -> (s: &'static str)
    requires
        d < 10,
    ensures
        s@ == seq![digit(d as int)],
{
    proof {
        reveal_strlit("0");
        reveal_strlit("1");
        reveal_strlit("2");
        reveal_strlit("3");
        reveal_strlit("4");
        reveal_strlit("5");
        reveal_strlit("6");
        reveal_strlit("7");
        reveal_strlit("8");
        reveal_strlit("9");
    }
    let s = if d == 0 {
        "0"
    } else if d == 1 {
        "1"
    } else if d == 2 {
        "2"
    } else if d == 3 {
        "3"
    } else if d == 4 {
        "4"
    } else if d == 5 {
        "5"
    } else if d == 6 {
        "6"
    } else if d == 7 {
        "7"
    } else if d == 8 {
        "8"
    } else {
        "9"
    };
    assert(s@ =~= seq![digit(d as int)]);
    s
}

/// Appends the decimal digits of `n` to `out`.
pub fn push_digits(out: &mut String, n: u64)
    ensures
        final(out)@ == old(out)@ + digits(n as nat),
    decreases n,
{
    if n >= 10 {
        push_digits(out, n / 10);
    }
    out.append(digit_str(n % 10));
    assert(out@ =~= old(out)@ + digits(n as nat));
}

/// Appends `n` in decimal to `out`.
pub fn push_decimal(out: &mut String, n: i64)
    ensures
        final(out)@ == old(out)@ + decimal(n as int),
{
    if n < 0 {
        proof {
            reveal_strlit("-");
        }
        out.append("-");
        let magnitude: u64 = ((-(n + 1)) as u64) + 1;
        push_digits(out, magnitude);
        assert(out@ =~= old(out)@ + decimal(n as int));
    } else {
        push_digits(out, n as u64);
    }
}

/// `n` in decimal.
pub fn decimal_string(n: i64) -> (text: String)
    ensures
        text@ == decimal(n as int),
{
    let mut text = String::new();
    push_decimal(&mut text, n);
    assert(text@ =~= decimal(n as int));
    text
}

/// The bytes as text, where they are valid UTF-8.
pub fn as_text(bytes: &Vec<u8>) -> (text: Option<&str>)
    ensures
        match text {
            Some(s) => valid_utf8(bytes@) && s@ == decode_utf8(bytes@) && encode_utf8(s@) == bytes@,
            None => !valid_utf8(bytes@),
        },
{
    match utf8_text(bytes.as_slice()) {
        Some(s) => {
            proof {
                vstd::utf8::encode_utf8_decode_utf8(s@);
            }
            Some(s)
        },
        None => None,
    }
}

/// `text` without the white space at its start and at its end.
pub fn trimmed_text(text: &str) -> (inner: &str)
    ensures
        inner@ == trimmed(text@),
{
    trim(text)
}

/// The UTC date and time `at` seconds after the epoch, as text; `None` where
/// `at` is beyond the dates that can be shown.
pub fn utc_time_text(at: i64) -> (text: Option<String>)
    ensures
        match text {
            Some(s) => utc_text(at) == Some(s@),
            None => utc_text(at) is None,
        },
{
    utc_string(at)
}

} // verus!
