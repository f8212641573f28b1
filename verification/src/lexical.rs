//! The lexical layer: white space, literal words and quoted strings.

use crate::error::{Context, ErrorKind, ParseError};
use crate::grammar;
use crate::grammar::{BACKSLASH, CARRIAGE_RETURN, LETTER_U, LINE_FEED, QUOTE, SPACE, TAB};
use vstd::prelude::*;
use vstd::string::StringSliceAdditionalSpecFns;
use vstd::utf8::*;

verus! {

/// Skips white space: the first offset at or behind `pos` that holds none.
pub fn skip_whitespace(bytes: &[u8], pos: usize) -> (end: usize)
    ensures
        end == grammar::skip_spaces(bytes@, pos as int),
{
    let mut p = pos;
    while p < bytes.len() && (bytes[p] == SPACE || bytes[p] == TAB || bytes[p] == LINE_FEED
        || bytes[p] == CARRIAGE_RETURN)
        invariant
            grammar::skip_spaces(bytes@, pos as int) == grammar::skip_spaces(bytes@, p as int),
        decreases bytes.len() - p,
    {
        p += 1;
    }
    p
}

/// Tells whether `word` stands at offset `pos`.
pub fn starts_with(bytes: &[u8], pos: usize, word: &[u8]) -> (found: bool)
    ensures
        found == grammar::has_word(bytes@, pos as int, word@),
{
    if pos > bytes.len() || word.len() > bytes.len() - pos {
        return false;
    }
    let mut i: usize = 0;
    while i < word.len()
        invariant
            i <= word.len(),
            pos + word.len() <= bytes.len(),
            bytes@.subrange(pos as int, pos + i) == word@.subrange(0, i as int),
        decreases word.len() - i,
    {
        if bytes[pos + i] != word[i] {
            proof {
                let whole = bytes@.subrange(pos as int, pos + word.len());
                assert(whole[i as int] != word@[i as int]);
            }
            return false;
        }
        proof {
            assert(bytes@.subrange(pos as int, pos + i + 1) == bytes@.subrange(
                pos as int,
                pos + i,
            ).push(bytes@[pos + i]));
            assert(word@.subrange(0, i + 1) == word@.subrange(0, i as int).push(word@[i as int]));
        }
        i += 1;
    }
    proof {
        assert(word@.subrange(0, word.len() as int) == word@);
    }
    true
}

/// The end of the run of normal bytes that starts at `pos`.
pub fn normal(bytes: &[u8], pos: usize) -> (end: usize)
    ensures
        end == grammar::normal_end(bytes@, pos as int),
{
    let mut p = pos;
    while p < bytes.len() && bytes[p] >= 0x20 && bytes[p] != 0x7f && bytes[p] != QUOTE && bytes[p]
        != BACKSLASH
        invariant
            grammar::normal_end(bytes@, pos as int) == grammar::normal_end(bytes@, p as int),
        decreases bytes.len() - p,
    {
        p += 1;
    }
    p
}

/// Tells whether `b` is a hexadecimal digit.
pub fn hex_digit(b: u8) -> (r: bool)
    ensures
        r == grammar::is_hex_digit(b),
{
    (0x30 <= b && b <= 0x39) || (0x41 <= b && b <= 0x46) || (0x61 <= b && b <= 0x66)
}

/// Tells whether `u` and four hexadecimal digits stand at `pos`.
pub fn parse_hex(bytes: &[u8], pos: usize) -> (found: bool)
    ensures
        found == grammar::hex_escape_at(bytes@, pos as int),
{
    if pos > bytes.len() || bytes.len() - pos < 5 {
        return false;
    }
    bytes[pos] == LETTER_U && hex_digit(bytes[pos + 1]) && hex_digit(bytes[pos + 2]) && hex_digit(
        bytes[pos + 3],
    ) && hex_digit(bytes[pos + 4])
}

/// The length of the escape indicator at `pos`, the offset behind a
/// backslash; `None` where none of the recognized ones stands there.
pub fn escapable(bytes: &[u8], pos: usize) -> (len: Option<usize>)
    ensures
        match (len, grammar::escape_len(bytes@, pos as int)) {
            (Some(n), Some(m)) => n == m,
            (None, None) => true,
            _ => false,
        },
{
    if pos < bytes.len() {
        let b = bytes[pos];
        if b == QUOTE || b == BACKSLASH || b == 0x2f || b == 0x62 || b == 0x66 || b == 0x6e || b
            == 0x72 || b == 0x74 {
            return Some(1);
        }
    }
    if parse_hex(bytes, pos) {
        Some(5)
    } else {
        None
    }
}

/// A run of normal bytes belongs to the body of a string, and stops in
/// front of a byte that is not normal or at the end of the text.
pub proof fn lemma_body_end_skips_normal(s: Seq<u8>, p: int)
    ensures
        grammar::body_end(s, p) == grammar::body_end(s, grammar::normal_end(s, p)),
        p <= grammar::normal_end(s, p),
        p <= s.len() ==> grammar::normal_end(s, p) <= s.len(),
        !(0 <= grammar::normal_end(s, p) < s.len() && grammar::is_normal(
            s[grammar::normal_end(s, p)],
        )),
    decreases s.len() - p,
{
    if 0 <= p < s.len() && grammar::is_normal(s[p]) {
        lemma_body_end_skips_normal(s, p + 1);
    }
}

/// Where the body of the string that starts at `pos` stops.
pub fn parse_str(bytes: &[u8], pos: usize) -> (end: usize)
    ensures
        end == grammar::body_end(bytes@, pos as int),
{
    let mut p = pos;
    loop
        invariant
            grammar::body_end(bytes@, pos as int) == grammar::body_end(bytes@, p as int),
        decreases bytes.len() - p,
    {
        proof {
            lemma_body_end_skips_normal(bytes@, p as int);
        }
        p = normal(bytes, p);
        if p < bytes.len() && bytes[p] == BACKSLASH {
            match escapable(bytes, p + 1) {
                Some(n) => {
                    p = p + 1 + n;
                },
                None => {
                    return p;
                },
            }
        } else {
            return p;
        }
    }
}

/// In well-formed UTF-8 a character starts behind every ASCII byte.
pub proof fn lemma_boundary_behind_ascii(bytes: Seq<u8>, i: int)
    requires
        valid_utf8(bytes),
        0 <= i < bytes.len(),
        bytes[i] < 0x80,
    ensures
        is_char_boundary(bytes, i + 1),
    decreases bytes.len(),
{
    reveal_with_fuel(is_char_boundary, 2);
    if i > 0 {
        is_char_boundary_iff_not_is_continuation_byte(bytes, i);
        lemma_boundary_behind_ascii(pop_first_scalar(bytes), i - length_of_first_scalar(bytes));
    }
}

/// The text between the offsets `from` and `to`, where `from` lies behind
/// an ASCII byte and `to` on one.
fn slice_between<'a>(text: &'a str, from: usize, to: usize) -> (part: &'a str)
    requires
        0 < from <= to < text.spec_bytes().len(),
        text.spec_bytes()[from - 1] < 0x80,
        text.spec_bytes()[to as int] < 0x80,
    ensures
        part@ == decode_utf8(text.spec_bytes().subrange(from as int, to as int)),
{
    broadcast use group_utf8_lib;

    let ghost s = text.spec_bytes();
    proof {
        lemma_boundary_behind_ascii(s, from - 1);
    }
    let (_, tail) = text.split_at(from);
    proof {
        assert(tail.spec_bytes()[to - from] == s[to as int]);
        is_char_boundary_iff_not_is_continuation_byte(tail.spec_bytes(), to - from);
    }
    let (part, _) = tail.split_at(to - from);
    proof {
        assert(part.spec_bytes() == s.subrange(from as int, to as int));
        encode_utf8_decode_utf8(part@);
    }
    part
}

/// Reads the quoted string that starts at offset `pos`: its body as it
/// stands in the text, and the offset behind the closing quote. A failure
/// is reported under `context`.
pub fn quoted(text: &str, pos: usize, context: Context) -> (r: Result<(String, usize), ParseError>)
    ensures
        match (r, grammar::quoted(text.spec_bytes(), pos as int, context)) {
            (Ok((body, end)), Ok((b, e))) => body@ == b && end == e,
            (Err(e), Err(f)) => e@ == f,
            _ => false,
        },
{
    let bytes = text.as_bytes();
    if pos >= bytes.len() || bytes[pos] != QUOTE {
        return Err(ParseError::new(ErrorKind::NoMatchingAlternative, pos, context));
    }
    let end = parse_str(bytes, pos + 1);
    proof {
        grammar::lemma_body_end_bounds(bytes@, pos + 1);
    }
    if end < bytes.len() && bytes[end] == QUOTE {
        let body = slice_between(text, pos + 1, end);
        Ok((body.to_owned(), end + 1))
    } else if end < bytes.len() && bytes[end] == BACKSLASH {
        Err(ParseError::new(ErrorKind::InvalidEscape, end + 1, context))
    } else {
        Err(ParseError::new(ErrorKind::UnterminatedString, end, context))
    }
}

} // verus!
