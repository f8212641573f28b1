//! The grammar, as specification functions over the bytes of the text.
//!
//! Every function here takes the whole text `s` and a byte offset `p` into
//! it, and says what stands at that offset: either a result together with
//! the offset just behind it, or the failure that is reported.

use crate::error::{Context, ErrorKind, Failure};
use crate::number::number_at;
use crate::value::JsonModel;
use vstd::prelude::*;
use vstd::utf8::decode_utf8;

verus! {

pub const SPACE: u8 = 0x20;

pub const TAB: u8 = 0x09;

pub const LINE_FEED: u8 = 0x0a;

pub const CARRIAGE_RETURN: u8 = 0x0d;

pub const QUOTE: u8 = 0x22;

pub const BACKSLASH: u8 = 0x5c;

pub const COMMA: u8 = 0x2c;

pub const COLON: u8 = 0x3a;

pub const OPEN_BRACKET: u8 = 0x5b;

pub const CLOSE_BRACKET: u8 = 0x5d;

pub const OPEN_BRACE: u8 = 0x7b;

pub const CLOSE_BRACE: u8 = 0x7d;

/// The letter `u`, which introduces a four-digit hexadecimal escape.
pub const LETTER_U: u8 = 0x75;

/// Space, tab, line feed or carriage return.
pub open spec fn is_space(b: u8) -> bool {
    b == SPACE || b == TAB || b == LINE_FEED || b == CARRIAGE_RETURN
}

/// The first offset at or behind `p` that holds no white space.
pub open spec fn skip_spaces(s: Seq<u8>, p: int) -> int
    decreases s.len() - p,
{
    if 0 <= p < s.len() && is_space(s[p]) {
        skip_spaces(s, p + 1)
    } else {
        p
    }
}

/// A byte that may stand for itself inside a string: anything but the
/// quote, the backslash and the ASCII control characters.
pub open spec fn is_normal(b: u8) -> bool {
    b >= 0x20 && b != 0x7f && b != QUOTE && b != BACKSLASH
}

/// The end of the longest run of normal bytes that starts at `p`.
pub open spec fn normal_end(s: Seq<u8>, p: int) -> int
    decreases s.len() - p,
{
    if 0 <= p < s.len() && is_normal(s[p]) {
        normal_end(s, p + 1)
    } else {
        p
    }
}

/// `0` to `9`, `A` to `F` or `a` to `f`.
pub open spec fn is_hex_digit(b: u8) -> bool {
    (0x30 <= b <= 0x39) || (0x41 <= b <= 0x46) || (0x61 <= b <= 0x66)
}

/// One of the eight escape indicators that consist of a single byte:
/// `"`, `\`, `/`, `b`, `f`, `n`, `r`, `t`.
pub open spec fn is_simple_escape(b: u8) -> bool {
    b == QUOTE || b == BACKSLASH || b == 0x2f || b == 0x62 || b == 0x66 || b == 0x6e || b == 0x72
        || b == 0x74
}

/// `u` followed by exactly four hexadecimal digits stands at `p`.
pub open spec fn hex_escape_at(s: Seq<u8>, p: int) -> bool {
    &&& 0 <= p
    &&& p + 5 <= s.len()
    &&& s[p] == LETTER_U
    &&& is_hex_digit(s[p + 1])
    &&& is_hex_digit(s[p + 2])
    &&& is_hex_digit(s[p + 3])
    &&& is_hex_digit(s[p + 4])
}

/// The length of the escape indicator that stands at `p`, the offset just
/// behind a backslash; `None` where no recognized indicator stands there.
pub open spec fn escape_len(s: Seq<u8>, p: int) -> Option<int> {
    if 0 <= p < s.len() && is_simple_escape(s[p]) {
        Some(1)
    } else if hex_escape_at(s, p) {
        Some(5)
    } else {
        None
    }
}

/// Where the body of a string that starts at `p` stops: the first offset
/// behind any number of normal bytes and escape sequences.
pub open spec fn body_end(s: Seq<u8>, p: int) -> int
    decreases s.len() - p,
{
    if 0 <= p < s.len() && is_normal(s[p]) {
        body_end(s, p + 1)
    } else if 0 <= p < s.len() && s[p] == BACKSLASH {
        match escape_len(s, p + 1) {
            Some(n) => body_end(s, p + 1 + n),
            None => p,
        }
    } else {
        p
    }
}

/// A quoted string at `p`: its body, undecoded, and the offset behind the
/// closing quote. Failures are reported under `context`.
pub open spec fn quoted(s: Seq<u8>, p: int, context: Context) -> Result<(Seq<char>, int), Failure> {
    if !(0 <= p < s.len() && s[p] == QUOTE) {
        Err(Failure::at(ErrorKind::NoMatchingAlternative, p, context))
    } else {
        let e = body_end(s, p + 1);
        if e < s.len() && s[e] == QUOTE {
            Ok((decode_utf8(s.subrange(p + 1, e)), e + 1))
        } else if e < s.len() && s[e] == BACKSLASH {
            Err(Failure::at(ErrorKind::InvalidEscape, e + 1, context))
        } else {
            Err(Failure::at(ErrorKind::UnterminatedString, e, context))
        }
    }
}

/// `word` stands at `p`.
pub open spec fn has_word(s: Seq<u8>, p: int, word: Seq<u8>) -> bool {
    0 <= p && p + word.len() <= s.len() && s.subrange(p, p + word.len()) == word
}

/// The bytes of `true`.
pub open spec fn word_true() -> Seq<u8> {
    seq![0x74u8, 0x72u8, 0x75u8, 0x65u8]
}

/// The bytes of `false`.
pub open spec fn word_false() -> Seq<u8> {
    seq![0x66u8, 0x61u8, 0x6cu8, 0x73u8, 0x65u8]
}

/// The bytes of `null`.
pub open spec fn word_null() -> Seq<u8> {
    seq![0x6eu8, 0x75u8, 0x6cu8, 0x6cu8]
}

/// `true` or `false` at `p`.
pub open spec fn boolean(s: Seq<u8>, p: int) -> Result<(bool, int), Failure> {
    if has_word(s, p, word_true()) {
        Ok((true, p + 4))
    } else if has_word(s, p, word_false()) {
        Ok((false, p + 5))
    } else {
        Err(Failure::at(ErrorKind::NoMatchingAlternative, p, Context::Boolean))
    }
}

/// `null` at `p`: the offset behind it.
pub open spec fn null(s: Seq<u8>, p: int) -> Result<int, Failure> {
    if has_word(s, p, word_null()) {
        Ok(p + 4)
    } else {
        Err(Failure::at(ErrorKind::NoMatchingAlternative, p, Context::Null))
    }
}

/// A number at `p`: the bit pattern of its binary64 value.
pub open spec fn number(s: Seq<u8>, p: int) -> Result<(u64, int), Failure> {
    match number_at(s, p) {
        Some(found) => Ok(found),
        None => Err(Failure::at(ErrorKind::InvalidNumber, p, Context::Num)),
    }
}

/// White space never moves an offset backwards, nor out of the text.
pub proof fn lemma_skip_spaces_bounds(s: Seq<u8>, p: int)
    ensures
        p <= skip_spaces(s, p),
        p <= s.len() ==> skip_spaces(s, p) <= s.len(),
        !(0 <= skip_spaces(s, p) < s.len() && is_space(s[skip_spaces(s, p)])),
        p < skip_spaces(s, p) ==> is_space(s[skip_spaces(s, p) - 1]),
    decreases s.len() - p,
{
    if 0 <= p < s.len() && is_space(s[p]) {
        lemma_skip_spaces_bounds(s, p + 1);
    }
}

/// The body of a string never ends before it starts, nor outside the text.
pub proof fn lemma_body_end_bounds(s: Seq<u8>, p: int)
    ensures
        p <= body_end(s, p),
        p <= s.len() ==> body_end(s, p) <= s.len(),
    decreases s.len() - p,
{
    if 0 <= p < s.len() && is_normal(s[p]) {
        lemma_body_end_bounds(s, p + 1);
    } else if 0 <= p < s.len() && s[p] == BACKSLASH {
        match escape_len(s, p + 1) {
            Some(n) => lemma_body_end_bounds(s, p + 1 + n),
            None => {},
        }
    }
}

/// The scalar that starts at `q`: a string, else a number, else a boolean,
/// else null; `None` where none of them stands there.
pub open spec fn scalar(s: Seq<u8>, q: int) -> Option<(JsonModel, int)> {
    if let Ok((text, r)) = quoted(s, q, Context::String) {
        Some((JsonModel::Str(text), r))
    } else if let Ok((bits, r)) = number(s, q) {
        Some((JsonModel::Num(bits), r))
    } else if let Ok((b, r)) = boolean(s, q) {
        Some((JsonModel::Boolean(b), r))
    } else if let Ok(r) = null(s, q) {
        Some((JsonModel::Null, r))
    } else {
        None
    }
}

/// The value that starts at `q`. The alternatives are tried in a fixed
/// order: string, number, boolean, null, array, object. The first that
/// matches is taken; `None` where none does.
pub open spec fn alternatives(s: Seq<u8>, q: int) -> Option<(JsonModel, int)>
    decreases s.len() - q, 1int,
{
    if let Some(found) = scalar(s, q) {
        Some(found)
    } else if let Ok(found) = array(s, q) {
        Some(found)
    } else if let Ok(found) = object(s, q) {
        Some(found)
    } else {
        None
    }
}

/// One value at `p`, with white space on either side of it. Where no
/// alternative matches, the failure names the offset at which they were
/// tried.
pub open spec fn value(s: Seq<u8>, p: int) -> Result<(JsonModel, int), Failure>
    decreases s.len() - p, 2int,
{
    let q = skip_spaces(s, p);
    proof {
        lemma_skip_spaces_bounds(s, p);
    }
    match alternatives(s, q) {
        Some((v, r)) => Ok((v, skip_spaces(s, r))),
        None => Err(Failure::at(ErrorKind::NoMatchingAlternative, q, Context::Value)),
    }
}

/// The elements of an array from `p` on, where a value is due, up to the
/// closing bracket; `acc` holds the elements read so far.
///
/// A value always ends behind the offset at which it is due
/// ([`lemma_value_end`]); that `p < r` is asked of it here lets the
/// definition be seen to end.
pub open spec fn items(s: Seq<u8>, p: int, acc: Seq<JsonModel>) -> Result<
    (Seq<JsonModel>, int),
    Failure,
>
    decreases s.len() - p, 3int,
{
    match value(s, p) {
        Err(e) => Err(e.within(Context::Array)),
        Ok((v, r)) => {
            if p < r < s.len() && s[r] == COMMA {
                items(s, r + 1, acc.push(v))
            } else if 0 <= r < s.len() && s[r] == CLOSE_BRACKET {
                Ok((acc.push(v), r + 1))
            } else {
                Err(Failure::at(ErrorKind::UnterminatedArray, r, Context::Array))
            }
        },
    }
}

/// An array at `p`: `[`, then either white space and `]`, or values
/// separated by `,` and closed by `]`.
pub open spec fn array(s: Seq<u8>, p: int) -> Result<(JsonModel, int), Failure>
    decreases s.len() - p, 0int,
{
    if !(0 <= p < s.len() && s[p] == OPEN_BRACKET) {
        Err(Failure::at(ErrorKind::NoMatchingAlternative, p, Context::Array))
    } else {
        let q = skip_spaces(s, p + 1);
        if 0 <= q < s.len() && s[q] == CLOSE_BRACKET {
            Ok((JsonModel::Array(Seq::empty()), q + 1))
        } else {
            match items(s, p + 1, Seq::empty()) {
                Ok((elements, r)) => Ok((JsonModel::Array(elements), r)),
                Err(e) => Err(e),
            }
        }
    }
}

/// The offset of the colon behind the key that starts at or behind `p`, and
/// the key; or the failure of the key or of the colon.
pub open spec fn member_key(s: Seq<u8>, p: int) -> Result<(Seq<char>, int), Failure> {
    match quoted(s, skip_spaces(s, p), Context::Key) {
        Err(e) => Err(e.within(Context::Object)),
        Ok((name, r)) => {
            let c = skip_spaces(s, r);
            if 0 <= c < s.len() && s[c] == COLON {
                Ok((name, c))
            } else {
                Err(Failure::at(ErrorKind::MissingColon, c, Context::Object))
            }
        },
    }
}

/// The colon behind a key stands behind `p`, inside the text.
pub proof fn lemma_member_key_bounds(s: Seq<u8>, p: int)
    ensures
        match member_key(s, p) {
            Ok((_, c)) => p < c < s.len(),
            Err(_) => true,
        },
{
    let k = skip_spaces(s, p);
    lemma_skip_spaces_bounds(s, p);
    lemma_body_end_bounds(s, k + 1);
    if let Ok((_, r)) = quoted(s, k, Context::Key) {
        lemma_skip_spaces_bounds(s, r);
    }
}

/// The members of an object from `p` on, where a key is due, up to the
/// closing brace; `acc` holds the members read so far. A key that comes
/// again replaces the value it had.
pub open spec fn members(s: Seq<u8>, p: int, acc: Map<Seq<char>, JsonModel>) -> Result<
    (Map<Seq<char>, JsonModel>, int),
    Failure,
>
    decreases s.len() - p, 4int,
{
    match member_key(s, p) {
        Err(e) => Err(e),
        Ok((name, c)) => {
            proof {
                lemma_member_key_bounds(s, p);
            }
            member_value(s, c + 1, acc, name)
        },
    }
}

/// The rest of an object from `p` on, the offset behind the colon of the
/// member with the key `name`: the value of that member and what follows
/// it.
pub open spec fn member_value(
    s: Seq<u8>,
    p: int,
    acc: Map<Seq<char>, JsonModel>,
    name: Seq<char>,
) -> Result<(Map<Seq<char>, JsonModel>, int), Failure>
    decreases s.len() - p, 3int,
{
    match value(s, p) {
        Err(e) => Err(e.within(Context::Object)),
        Ok((v, r)) => {
            if p < r < s.len() && s[r] == COMMA {
                members(s, r + 1, acc.insert(name, v))
            } else if 0 <= r < s.len() && s[r] == CLOSE_BRACE {
                Ok((acc.insert(name, v), r + 1))
            } else {
                Err(Failure::at(ErrorKind::UnterminatedObject, r, Context::Object))
            }
        },
    }
}

/// An object at `p`: `{`, then either white space and `}`, or members
/// `key : value` separated by `,` and closed by `}`.
pub open spec fn object(s: Seq<u8>, p: int) -> Result<(JsonModel, int), Failure>
    decreases s.len() - p, 0int,
{
    if !(0 <= p < s.len() && s[p] == OPEN_BRACE) {
        Err(Failure::at(ErrorKind::NoMatchingAlternative, p, Context::Object))
    } else {
        let q = skip_spaces(s, p + 1);
        if 0 <= q < s.len() && s[q] == CLOSE_BRACE {
            Ok((JsonModel::Object(Map::empty()), q + 1))
        } else {
            match members(s, p + 1, Map::empty()) {
                Ok((entries, r)) => Ok((JsonModel::Object(entries), r)),
                Err(e) => Err(e),
            }
        }
    }
}

/// A document: white space, one object or array, white space. The result
/// is the tree and the offset at which the text that is left begins.
pub open spec fn document(s: Seq<u8>) -> Result<(JsonModel, int), Failure> {
    let q = skip_spaces(s, 0);
    if 0 <= q < s.len() && (s[q] == OPEN_BRACE || s[q] == OPEN_BRACKET) {
        match (if s[q] == OPEN_BRACE { object(s, q) } else { array(s, q) }) {
            Ok((v, r)) => Ok((v, skip_spaces(s, r))),
            Err(e) => Err(e.within(Context::Json)),
        }
    } else {
        Err(Failure::at(ErrorKind::NoMatchingAlternative, q, Context::Json))
    }
}

/// A value takes up at least one byte of the text.
pub proof fn lemma_alternatives_end(s: Seq<u8>, q: int)
    ensures
        match alternatives(s, q) {
            Some((_, r)) => 0 <= q < r <= s.len(),
            None => true,
        },
    decreases s.len() - q, 1int,
{
    if quoted(s, q, Context::String) is Ok {
        lemma_body_end_bounds(s, q + 1);
    } else if number(s, q) is Ok {
    } else if boolean(s, q) is Ok {
    } else if null(s, q) is Ok {
    } else if array(s, q) is Ok {
        lemma_array_end(s, q);
    } else if object(s, q) is Ok {
        lemma_object_end(s, q);
    }
}

/// A value with the white space around it takes up at least one byte.
pub proof fn lemma_value_end(s: Seq<u8>, p: int)
    ensures
        match value(s, p) {
            Ok((_, r)) => p < r <= s.len(),
            Err(_) => true,
        },
    decreases s.len() - p, 2int,
{
    let q = skip_spaces(s, p);
    lemma_skip_spaces_bounds(s, p);
    lemma_alternatives_end(s, q);
    if let Some((_, r)) = alternatives(s, q) {
        lemma_skip_spaces_bounds(s, r);
    }
}

/// A list of elements ends behind a closing bracket.
pub proof fn lemma_items_end(s: Seq<u8>, p: int, acc: Seq<JsonModel>)
    ensures
        match items(s, p, acc) {
            Ok((_, r)) => p < r <= s.len() && s[r - 1] == CLOSE_BRACKET,
            Err(_) => true,
        },
    decreases s.len() - p, 3int,
{
    lemma_value_end(s, p);
    if let Ok((v, r)) = value(s, p) {
        if p < r < s.len() && s[r] == COMMA {
            lemma_items_end(s, r + 1, acc.push(v));
        }
    }
}

/// An array lies between a pair of brackets.
pub proof fn lemma_array_end(s: Seq<u8>, p: int)
    ensures
        match array(s, p) {
            Ok((_, r)) => p < r <= s.len() && s[p] == OPEN_BRACKET && s[r - 1] == CLOSE_BRACKET,
            Err(_) => true,
        },
    decreases s.len() - p, 0int,
{
    if 0 <= p < s.len() && s[p] == OPEN_BRACKET {
        lemma_skip_spaces_bounds(s, p + 1);
        lemma_items_end(s, p + 1, Seq::empty());
    }
}

/// A list of members ends behind a closing brace.
pub proof fn lemma_members_end(s: Seq<u8>, p: int, acc: Map<Seq<char>, JsonModel>)
    ensures
        match members(s, p, acc) {
            Ok((_, r)) => p < r <= s.len() && s[r - 1] == CLOSE_BRACE,
            Err(_) => true,
        },
    decreases s.len() - p, 4int,
{
    lemma_member_key_bounds(s, p);
    if let Ok((name, c)) = member_key(s, p) {
        lemma_member_value_end(s, c + 1, acc, name);
    }
}

/// A value in an object, with what follows it, ends behind a closing
/// brace.
pub proof fn lemma_member_value_end(
    s: Seq<u8>,
    p: int,
    acc: Map<Seq<char>, JsonModel>,
    name: Seq<char>,
)
    ensures
        match member_value(s, p, acc, name) {
            Ok((_, r)) => p < r <= s.len() && s[r - 1] == CLOSE_BRACE,
            Err(_) => true,
        },
    decreases s.len() - p, 3int,
{
    lemma_value_end(s, p);
    if let Ok((v, r)) = value(s, p) {
        if p < r < s.len() && s[r] == COMMA {
            lemma_members_end(s, r + 1, acc.insert(name, v));
        }
    }
}

/// An object lies between a pair of braces.
pub proof fn lemma_object_end(s: Seq<u8>, p: int)
    ensures
        match object(s, p) {
            Ok((_, r)) => p < r <= s.len() && s[p] == OPEN_BRACE && s[r - 1] == CLOSE_BRACE,
            Err(_) => true,
        },
    decreases s.len() - p, 0int,
{
    if 0 <= p < s.len() && s[p] == OPEN_BRACE {
        lemma_skip_spaces_bounds(s, p + 1);
        lemma_members_end(s, p + 1, Map::empty());
    }
}

} // verus!
