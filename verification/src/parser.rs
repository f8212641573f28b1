//! The parsers: one function for each stage of the grammar.
//!
//! Each takes the whole text and the byte offset at which it is to read,
//! and returns what it read with the offset behind it. None of them panics,
//! whatever the text and the offset.

use crate::error::{Context, ErrorKind, Failure, ParseError};
use crate::grammar;
use crate::grammar::{
    CLOSE_BRACE, CLOSE_BRACKET, COLON, COMMA, OPEN_BRACE, OPEN_BRACKET, QUOTE,
};
use crate::lexical::{lemma_boundary_behind_ascii, quoted, skip_whitespace, starts_with};
use crate::number::read_number;
pub use crate::stack::value;
use crate::value::{discard, upsert, JsonModel, JsonValue};
use vstd::prelude::*;
use vstd::string::StringSliceAdditionalSpecFns;
use vstd::utf8::encode_utf8_valid_utf8;

verus! {

/// The outcome `r` of a parser is the one that the grammar gives: the same
/// tree, well formed, and the same offset; or the same failure.
pub open spec fn yields(
    r: Result<(JsonValue, usize), ParseError>,
    expected: Result<(JsonModel, int), Failure>,
) -> bool {
    match (r, expected) {
        (Ok((v, end)), Ok((m, e))) => v@ == m && end == e && v.wf(),
        (Err(e), Err(f)) => e@ == f,
        _ => false,
    }
}

/// Reads a number.
pub fn num(text: &str, pos: usize) -> (r: Result<(JsonValue, usize), ParseError>)
    ensures
        yields(
            r,
            match grammar::number(text.spec_bytes(), pos as int) {
                Ok((bits, e)) => Ok((JsonModel::Num(bits), e)),
                Err(f) => Err(f),
            },
        ),
{
    match read_number(text.as_bytes(), pos) {
        Some((bits, end)) => Ok((JsonValue::Num(bits), end)),
        None => Err(ParseError::new(ErrorKind::InvalidNumber, pos, Context::Num)),
    }
}

/// Reads a quoted string as a value.
pub fn string(text: &str, pos: usize) -> (r: Result<(JsonValue, usize), ParseError>)
    ensures
        yields(
            r,
            match grammar::quoted(text.spec_bytes(), pos as int, Context::String) {
                Ok((body, e)) => Ok((JsonModel::Str(body), e)),
                Err(f) => Err(f),
            },
        ),
{
    match quoted(text, pos, Context::String) {
        Ok((body, end)) => Ok((JsonValue::Str(body), end)),
        Err(e) => Err(e),
    }
}

/// Reads a quoted string as the key of an object member.
pub fn key(text: &str, pos: usize) -> (r: Result<(String, usize), ParseError>)
    ensures
        match (r, grammar::quoted(text.spec_bytes(), pos as int, Context::Key)) {
            (Ok((name, end)), Ok((n, e))) => name@ == n && end == e,
            (Err(e), Err(f)) => e@ == f,
            _ => false,
        },
{
    quoted(text, pos, Context::Key)
}

/// Reads `true` or `false`.
pub fn boolean(text: &str, pos: usize) -> (r: Result<(JsonValue, usize), ParseError>)
    ensures
        yields(
            r,
            match grammar::boolean(text.spec_bytes(), pos as int) {
                Ok((b, e)) => Ok((JsonModel::Boolean(b), e)),
                Err(f) => Err(f),
            },
        ),
{
    let bytes = text.as_bytes();
    let len = bytes.len();
    let word_true: [u8; 4] = [0x74, 0x72, 0x75, 0x65];
    let word_false: [u8; 5] = [0x66, 0x61, 0x6c, 0x73, 0x65];
    let word_true = word_true.as_slice();
    let word_false = word_false.as_slice();
    proof {
        assert(word_true@ =~= grammar::word_true());
        assert(word_false@ =~= grammar::word_false());
    }
    if starts_with(bytes, pos, word_true) {
        Ok((JsonValue::Boolean(true), pos + 4))
    } else if starts_with(bytes, pos, word_false) {
        Ok((JsonValue::Boolean(false), pos + 5))
    } else {
        Err(ParseError::new(ErrorKind::NoMatchingAlternative, pos, Context::Boolean))
    }
}

/// Reads `null`.
pub fn null(text: &str, pos: usize) -> (r: Result<(JsonValue, usize), ParseError>)
    ensures
        yields(
            r,
            match grammar::null(text.spec_bytes(), pos as int) {
                Ok(e) => Ok((JsonModel::Null, e)),
                Err(f) => Err(f),
            },
        ),
{
    let bytes = text.as_bytes();
    let len = bytes.len();
    let word_null: [u8; 4] = [0x6e, 0x75, 0x6c, 0x6c];
    let word_null = word_null.as_slice();
    proof {
        assert(word_null@ =~= grammar::word_null());
    }
    if starts_with(bytes, pos, word_null) {
        Ok((JsonValue::Null, pos + 4))
    } else {
        Err(ParseError::new(ErrorKind::NoMatchingAlternative, pos, Context::Null))
    }
}

/// Reads the scalar that stands at `pos`: a string, else a number, else a
/// boolean, else null. An alternative whose first byte does not stand at
/// the offset is known to fail and is not called.
pub fn scalar(text: &str, pos: usize) -> (r: Option<(JsonValue, usize)>)
    ensures
        match (r, grammar::scalar(text.spec_bytes(), pos as int)) {
            (Some((v, end)), Some((m, e))) => v@ == m && end == e && v.wf(),
            (None, None) => true,
            _ => false,
        },
{
    let bytes = text.as_bytes();
    if pos >= bytes.len() {
        proof {
            assert(grammar::number(bytes@, pos as int) is Err);
        }
        return None;
    }
    let first = bytes[pos];
    if first == QUOTE {
        match string(text, pos) {
            Ok(read) => {
                return Some(read);
            },
            Err(_) => {},
        }
    }
    match read_number(bytes, pos) {
        Some((bits, end)) => {
            return Some((JsonValue::Num(bits), end));
        },
        None => {},
    }
    proof {
        if grammar::has_word(bytes@, pos as int, grammar::word_true()) {
            assert(bytes@.subrange(pos as int, pos + 4)[0] == 0x74);
        }
        if grammar::has_word(bytes@, pos as int, grammar::word_false()) {
            assert(bytes@.subrange(pos as int, pos + 5)[0] == 0x66);
        }
        if grammar::has_word(bytes@, pos as int, grammar::word_null()) {
            assert(bytes@.subrange(pos as int, pos + 4)[0] == 0x6e);
        }
    }
    if first == 0x74 || first == 0x66 {
        match boolean(text, pos) {
            Ok(read) => {
                return Some(read);
            },
            Err(_) => {},
        }
    } else if first == 0x6e {
        match null(text, pos) {
            Ok(read) => {
                return Some(read);
            },
            Err(_) => {},
        }
    }
    None
}

/// Reads the key of an object member and the colon behind it, with the
/// white space in front of either: the key and the offset of the colon.
pub fn member_key(text: &str, pos: usize) -> (r: Result<(String, usize), ParseError>)
    ensures
        match (r, grammar::member_key(text.spec_bytes(), pos as int)) {
            (Ok((name, colon)), Ok((n, c))) => name@ == n && colon == c,
            (Err(e), Err(f)) => e@ == f,
            _ => false,
        },
{
    let bytes = text.as_bytes();
    let k = skip_whitespace(bytes, pos);
    match key(text, k) {
        Err(e) => Err(e.within(Context::Object)),
        Ok((name, after)) => {
            let c = skip_whitespace(bytes, after);
            if c < bytes.len() && bytes[c] == COLON {
                Ok((name, c))
            } else {
                Err(ParseError::new(ErrorKind::MissingColon, c, Context::Object))
            }
        },
    }
}

/// Reads an array: `[`, then either white space and `]`, or values
/// separated by `,` and closed by `]`. The failure of an element is handed
/// on as the failure of the array.
#[verifier::loop_isolation(false)]
pub fn array(text: &str, pos: usize) -> (r: Result<(JsonValue, usize), ParseError>)
    ensures
        yields(r, grammar::array(text.spec_bytes(), pos as int)),
{
    let bytes = text.as_bytes();
    if pos >= bytes.len() || bytes[pos] != OPEN_BRACKET {
        return Err(ParseError::new(ErrorKind::NoMatchingAlternative, pos, Context::Array));
    }
    let q = skip_whitespace(bytes, pos + 1);
    if q < bytes.len() && bytes[q] == CLOSE_BRACKET {
        return Ok((JsonValue::Array(Vec::new()), q + 1));
    }
    let ghost s = text.spec_bytes();
    let mut elements: Vec<JsonValue> = Vec::new();
    let mut p = pos + 1;
    loop
        invariant
            s == text.spec_bytes(),
            s == bytes@,
            pos < p <= s.len(),
            forall|i: int| 0 <= i < elements@.len() ==> (#[trigger] elements@[i]).wf(),
            grammar::items(s, pos + 1, Seq::empty()) == grammar::items(
                s,
                p as int,
                JsonValue::items_view(elements@, elements@.len() as int),
            ),
        decreases s.len() - p,
    {
        match value(text, p) {
            Err(e) => {
                discard(JsonValue::Array(elements));
                return Err(e.within(Context::Array));
            },
            Ok((v, r)) => {
                proof {
                    grammar::lemma_value_end(s, p as int);
                    let n = elements@.len() as int;
                    JsonValue::lemma_items_view_prefix(elements@, elements@.push(v), n);
                }
                elements.push(v);
                if r < bytes.len() && bytes[r] == COMMA {
                    p = r + 1;
                } else if r < bytes.len() && bytes[r] == CLOSE_BRACKET {
                    return Ok((JsonValue::Array(elements), r + 1));
                } else {
                    discard(JsonValue::Array(elements));
                    return Err(
                        ParseError::new(ErrorKind::UnterminatedArray, r, Context::Array),
                    );
                }
            },
        }
    }
}

/// Reads an object: `{`, then either white space and `}`, or members
/// `key : value` separated by `,` and closed by `}`. Of two members with
/// the same key the later one stays. The failure of a key or of a value is
/// handed on as the failure of the object.
#[verifier::loop_isolation(false)]
pub fn object(text: &str, pos: usize) -> (r: Result<(JsonValue, usize), ParseError>)
    ensures
        yields(r, grammar::object(text.spec_bytes(), pos as int)),
{
    let bytes = text.as_bytes();
    if pos >= bytes.len() || bytes[pos] != OPEN_BRACE {
        return Err(ParseError::new(ErrorKind::NoMatchingAlternative, pos, Context::Object));
    }
    let q = skip_whitespace(bytes, pos + 1);
    if q < bytes.len() && bytes[q] == CLOSE_BRACE {
        return Ok((JsonValue::Object(Vec::new()), q + 1));
    }
    let ghost s = text.spec_bytes();
    let mut entries: Vec<(String, JsonValue)> = Vec::new();
    let mut p = pos + 1;
    loop
        invariant
            s == text.spec_bytes(),
            s == bytes@,
            pos < p <= s.len(),
            JsonValue::members_wf(entries@),
            grammar::members(s, pos + 1, Map::empty()) == grammar::members(
                s,
                p as int,
                JsonValue::entries_view(entries@, entries@.len() as int),
            ),
        decreases s.len() - p,
    {
        let (name, c) = match member_key(text, p) {
            Ok(found) => found,
            Err(e) => {
                discard(JsonValue::Object(entries));
                return Err(e);
            },
        };
        proof {
            grammar::lemma_member_key_bounds(s, p as int);
        }
        match value(text, c + 1) {
            Err(e) => {
                discard(JsonValue::Object(entries));
                return Err(e.within(Context::Object));
            },
            Ok((v, r)) => {
                proof {
                    grammar::lemma_value_end(s, c + 1);
                }
                upsert(&mut entries, name, v);
                if r < bytes.len() && bytes[r] == COMMA {
                    p = r + 1;
                } else if r < bytes.len() && bytes[r] == CLOSE_BRACE {
                    return Ok((JsonValue::Object(entries), r + 1));
                } else {
                    discard(JsonValue::Object(entries));
                    return Err(
                        ParseError::new(ErrorKind::UnterminatedObject, r, Context::Object),
                    );
                }
            },
        }
    }
}

/// The outcome `r` of reading the document `i` is the one that the grammar
/// gives: the same tree, well formed, and the text of `i` from the offset
/// that the grammar gives; or the same failure.
pub open spec fn decodes(i: &str, r: Result<(&str, JsonValue), ParseError>) -> bool {
    match (r, grammar::document(i.spec_bytes())) {
        (Ok((rest, v)), Ok((m, e))) => {
            &&& v@ == m
            &&& v.wf()
            &&& 0 <= e <= i.spec_bytes().len()
            &&& rest.spec_bytes() == i.spec_bytes().subrange(e, i.spec_bytes().len() as int)
        },
        (Err(e), Err(f)) => e@ == f,
        _ => false,
    }
}

/// Reads a document: one object or array, with the white space on either
/// side of it, from the front of `i`. Returns the text that is left and
/// the tree. A text that holds a scalar where the document is due is
/// refused.
pub fn json(i: &str) -> (r: Result<(&str, JsonValue), ParseError>)
    ensures
        decodes(i, r),
{
    let bytes = i.as_bytes();
    let ghost s = i.spec_bytes();
    let q = skip_whitespace(bytes, 0);
    if q < bytes.len() && (bytes[q] == OPEN_BRACE || bytes[q] == OPEN_BRACKET) {
        let found = if bytes[q] == OPEN_BRACE {
            object(i, q)
        } else {
            array(i, q)
        };
        match found {
            Ok((v, r)) => {
                let e = skip_whitespace(bytes, r);
                proof {
                    grammar::lemma_object_end(s, q as int);
                    grammar::lemma_array_end(s, q as int);
                    grammar::lemma_skip_spaces_bounds(s, r as int);
                    encode_utf8_valid_utf8(i@);
                    lemma_boundary_behind_ascii(s, e - 1);
                }
                let (_, rest) = i.split_at(e);
                Ok((rest, v))
            },
            Err(e) => Err(e.within(Context::Json)),
        }
    } else {
        Err(ParseError::new(ErrorKind::NoMatchingAlternative, q, Context::Json))
    }
}

} // verus!
