//! Numbers. Reading a decimal number into a binary64 value is left to
//! `nom`; this module names what it returns and checks what comes back.

use vstd::prelude::*;
use vstd::slice::slice_subrange;

verus! {

/// What `nom::number::complete::double` makes of `text`: `None` where it
/// fails, else the part of `text` that it leaves and the bit pattern of the
/// binary64 value that it read from the front.
pub uninterp spec fn float_prefix(text: Seq<u8>) -> Option<(Seq<u8>, u64)>;

/// Calls `nom::number::complete::double` on `input`.
///
/// Trusted: the result is the one named by [`float_prefix`], that is, a
/// function of the bytes of `input` alone. Any error of `nom` is reported
/// as `None`; on success the part of `input` that `nom` leaves is handed
/// on as it is, and the value as its bit pattern.
#[verifier::external_body]
fn double_prefix<'a>(input: &'a [u8]) -> (r: Option<(&'a [u8], u64)>)
    ensures
        match r {
            Some((rest, bits)) => float_prefix(input@) == Some((rest@, bits)),
            None => float_prefix(input@) is None,
        },
{
    match nom::number::complete::double::<&[u8], nom::error::Error<&[u8]>>(input) {
        Ok((rest, x)) => Some((rest, x.to_bits())),
        Err(_) => None,
    }
}

/// `0` to `9`.
pub open spec fn is_digit(b: u8) -> bool {
    0x30 <= b <= 0x39
}

/// What the text of every number begins with: a digit, a sign, a point,
/// or, in any mix of upper and lower case, `na` (of `nan`) or `in` (of
/// `inf`).
pub open spec fn may_start_number(text: Seq<u8>) -> bool {
    &&& text.len() > 0
    &&& {
        ||| is_digit(text[0])
        ||| text[0] == 0x2b
        ||| text[0] == 0x2d
        ||| text[0] == 0x2e
        ||| {
            &&& text.len() > 1
            &&& (text[0] == 0x6e || text[0] == 0x4e)
            &&& (text[1] == 0x61 || text[1] == 0x41)
        }
        ||| {
            &&& text.len() > 1
            &&& (text[0] == 0x69 || text[0] == 0x49)
            &&& (text[1] == 0x6e || text[1] == 0x4e)
        }
    }
}

/// What is made of a number that was read at offset `p` of `s` as the
/// value `bits`, leaving `left` bytes of the text: the value and the offset
/// behind the number. It is taken only where it begins as a number does
/// and takes up at least one byte.
pub open spec fn accepted(s: Seq<u8>, p: int, left: int, bits: u64) -> Option<(u64, int)> {
    if 0 <= p <= s.len() && 0 <= left < s.len() - p && may_start_number(
        s.subrange(p, s.len() as int),
    ) {
        Some((bits, s.len() - left))
    } else {
        None
    }
}

/// The number at offset `p` of `s`: its bit pattern and the offset behind
/// it, or `None` where no number stands there.
pub open spec fn number_at(s: Seq<u8>, p: int) -> Option<(u64, int)> {
    if 0 <= p <= s.len() {
        match float_prefix(s.subrange(p, s.len() as int)) {
            Some((rest, bits)) => accepted(s, p, rest.len() as int, bits),
            None => None,
        }
    } else {
        None
    }
}

/// Tells whether the text from offset `pos` on begins as a number does.
pub fn starts_number(bytes: &[u8], pos: usize) -> (r: bool)
    ensures
        r == (pos <= bytes@.len() && may_start_number(
            bytes@.subrange(pos as int, bytes@.len() as int),
        )),
{
    if pos >= bytes.len() {
        return false;
    }
    let ghost tail = bytes@.subrange(pos as int, bytes@.len() as int);
    let first = bytes[pos];
    assert(tail[0] == first);
    if (0x30 <= first && first <= 0x39) || first == 0x2b || first == 0x2d || first == 0x2e {
        return true;
    }
    if bytes.len() - pos < 2 {
        return false;
    }
    let second = bytes[pos + 1];
    assert(tail[1] == second);
    ((first == 0x6e || first == 0x4e) && (second == 0x61 || second == 0x41)) || ((first == 0x69
        || first == 0x49) && (second == 0x6e || second == 0x4e))
}

/// Decides on a number that was read at offset `pos` as the value `bits`,
/// leaving `left` bytes of the text.
pub fn checked_number(bytes: &[u8], pos: usize, left: usize, bits: u64) -> (r: Option<
    (u64, usize),
>)
    ensures
        match (r, accepted(bytes@, pos as int, left as int, bits)) {
            (Some((b, end)), Some((b2, e))) => b == b2 && end == e,
            (None, None) => true,
            _ => false,
        },
{
    if pos <= bytes.len() && left < bytes.len() - pos && starts_number(bytes, pos) {
        Some((bits, bytes.len() - left))
    } else {
        None
    }
}

/// Reads the number that stands at offset `pos` of `bytes`.
pub fn read_number(bytes: &[u8], pos: usize) -> (r: Option<(u64, usize)>)
    ensures
        match (r, number_at(bytes@, pos as int)) {
            (Some((bits, end)), Some((b, e))) => bits == b && end == e,
            (None, None) => true,
            _ => false,
        },
{
    if pos > bytes.len() {
        return None;
    }
    let tail = slice_subrange(bytes, pos, bytes.len());
    match double_prefix(tail) {
        Some((rest, bits)) => checked_number(bytes, pos, rest.len(), bits),
        None => None,
    }
}

} // verus!
