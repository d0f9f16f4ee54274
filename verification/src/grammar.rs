//! The bencode grammar as a specification.
//!
//! `parse_elem` is a recursive-descent definition of what one bencoded
//! element starting at byte offset `pos` of a buffer decodes to, together
//! with the error reported when the buffer is malformed there:
//!
//! - integer: `'i' ['-'] digit+ 'e'`, value read as decimal;
//! - byte string: `digit+ ':'` followed by exactly that many raw bytes;
//! - list: `'l' element* 'e'`;
//! - dictionary: `'d' (bytestring element)* 'e'`, pairs collected in
//!   ascending key order with last write winning on a repeated key.
//!
//! Every element records `start` (offset of its first byte) and `end`
//! (offset one past its terminating byte, or past the payload for a byte
//! string). The executable decoder is proved to return exactly what these
//! functions describe.

use vstd::prelude::*;
use crate::model::{DecodeError, Node, dict_insert};

verus! {

/// The ASCII bytes that structure the encoding.
pub const DIGIT_ZERO: u8 = 48;

pub const DIGIT_NINE: u8 = 57;

pub const COLON: u8 = 58;

pub const MINUS: u8 = 45;

pub const INT_TAG: u8 = 105;

pub const LIST_TAG: u8 = 108;

pub const DICT_TAG: u8 = 100;

pub const END_TAG: u8 = 101;


/// ASCII decimal digit.
pub open spec fn is_digit(b: u8) -> bool {
    DIGIT_ZERO <= b <= DIGIT_NINE
}

/// Every byte of `s` is an ASCII decimal digit.
pub open spec fn all_digits(s: Seq<u8>) -> bool {
    forall|i: int| 0 <= i < s.len() ==> is_digit(#[trigger] s[i])
}

/// Numeric value of one digit byte.
pub open spec fn digit_val(b: u8) -> int {
    b - DIGIT_ZERO
}

/// Value of a digit sequence read as a decimal numeral.
pub open spec fn dec_value(s: Seq<u8>) -> int
    decreases s.len(),
{
    if s.len() == 0 {
        0
    } else {
        10 * dec_value(s.drop_last()) + digit_val(s.last())
    }
}

/// The body of an integer literal: an optional minus sign followed by at
/// least one digit.
pub open spec fn int_body_ok(s: Seq<u8>) -> bool {
    if s.len() == 0 {
        false
    } else if s[0] == MINUS {
        s.len() > 1 && all_digits(s.drop_first())
    } else {
        all_digits(s)
    }
}

/// Signed value of an integer literal body.
pub open spec fn int_value(s: Seq<u8>) -> int {
    if s.len() > 0 && s[0] == MINUS {
        -dec_value(s.drop_first())
    } else {
        dec_value(s)
    }
}

/// Offset of the first occurrence of `target` at or after `pos`, if any.
pub open spec fn find_from(s: Seq<u8>, pos: int, target: u8) -> Option<int>
    decreases s.len() - pos,
{
    if pos < 0 || pos >= s.len() {
        None
    } else if s[pos] == target {
        Some(pos)
    } else {
        find_from(s, pos + 1, target)
    }
}

/// One byte string at `pos`: `digit+ ':'` then exactly that many raw bytes.
/// `end` is the offset just past the payload.
pub open spec fn parse_str(s: Seq<u8>, pos: int) -> Result<Node, DecodeError> {
    match find_from(s, pos, COLON) {
        None => Err(DecodeError::Truncated),
        Some(j) => {
            let body = s.subrange(pos, j);
            if body.len() == 0 || !all_digits(body) {
                Err(DecodeError::MalformedNumber)
            } else {
                let len = dec_value(body);
                if j + 1 + len > s.len() {
                    Err(DecodeError::Truncated)
                } else {
                    Ok(Node::Str { value: s.subrange(j + 1, j + 1 + len), start: pos, end: j + 1 + len })
                }
            }
        },
    }
}

/// One integer at `pos`: `'i' ['-'] digit+ 'e'`, the value read as decimal.
/// A value outside the signed 64-bit range is malformed. `end` is the offset
/// just past the closing `e`.
pub open spec fn parse_int(s: Seq<u8>, pos: int) -> Result<Node, DecodeError> {
    match find_from(s, pos + 1, END_TAG) {
        None => Err(DecodeError::Truncated),
        Some(j) => {
            let body = s.subrange(pos + 1, j);
            if !int_body_ok(body) {
                Err(DecodeError::MalformedNumber)
            } else {
                let v = int_value(body);
                if v < i64::MIN || v > i64::MAX {
                    Err(DecodeError::MalformedNumber)
                } else {
                    Ok(Node::Int { value: v, start: pos, end: j + 1 })
                }
            }
        },
    }
}

/// One element at `pos`, dispatched on its leading byte: a digit opens a
/// byte string, `i` an integer, `l` a list, `d` a dictionary; any other
/// byte is an invalid tag, and running out of input is a truncation.
pub open spec fn parse_elem(s: Seq<u8>, pos: int) -> Result<Node, DecodeError>
    decreases s.len() - pos, 0int,
{
    if pos < 0 || pos >= s.len() {
        Err(DecodeError::Truncated)
    } else if is_digit(s[pos]) {
        parse_str(s, pos)
    } else if s[pos] == INT_TAG {
        parse_int(s, pos)
    } else if s[pos] == LIST_TAG {
        match parse_items(s, pos + 1, Seq::empty()) {
            Ok((items, e)) => Ok(Node::List { items, start: pos, end: e }),
            Err(err) => Err(err),
        }
    } else if s[pos] == DICT_TAG {
        match parse_pairs(s, pos + 1, Seq::empty()) {
            Ok((pairs, e)) => Ok(Node::Dict { pairs, start: pos, end: e }),
            Err(err) => Err(err),
        }
    } else {
        Err(DecodeError::InvalidTag)
    }
}

/// The items of a list body from `pos` up to and past the closing `e`,
/// appended to `acc`; the returned offset is just past the `e`.
pub open spec fn parse_items(s: Seq<u8>, pos: int, acc: Seq<Node>) -> Result<(Seq<Node>, int), DecodeError>
    decreases s.len() - pos, 1int,
{
    if pos < 0 || pos >= s.len() {
        Err(DecodeError::Truncated)
    } else if s[pos] == END_TAG {
        Ok((acc, pos + 1))
    } else {
        match parse_elem(s, pos) {
            Err(err) => Err(err),
            Ok(node) => {
                if node.end() <= pos || node.end() > s.len() {
                    Err(DecodeError::Truncated)
                } else {
                    parse_items(s, node.end(), acc.push(node))
                }
            },
        }
    }
}

/// The key/value pairs of a dictionary body from `pos` up to and past the
/// closing `e`, inserted into `acc` in ascending key order with last write
/// winning; the returned offset is just past the `e`.
pub open spec fn parse_pairs(
    s: Seq<u8>,
    pos: int,
    acc: Seq<(Seq<u8>, Node)>,
) -> Result<(Seq<(Seq<u8>, Node)>, int), DecodeError>
    decreases s.len() - pos, 1int,
{
    if pos < 0 || pos >= s.len() {
        Err(DecodeError::Truncated)
    } else if s[pos] == END_TAG {
        Ok((acc, pos + 1))
    } else {
        match parse_str(s, pos) {
            Err(err) => Err(err),
            Ok(key_node) => match key_node {
                Node::Str { value: key, start: _, end: kend } => {
                    if kend <= pos || kend > s.len() {
                        Err(DecodeError::Truncated)
                    } else {
                        match parse_elem(s, kend) {
                            Err(err) => Err(err),
                            Ok(val) => {
                                if val.end() <= kend || val.end() > s.len() {
                                    Err(DecodeError::Truncated)
                                } else {
                                    parse_pairs(s, val.end(), dict_insert(acc, key, val))
                                }
                            },
                        }
                    }
                },
                _ => Err(DecodeError::MalformedNumber),
            },
        }
    }
}

/// A found byte really is the first occurrence: it lies in range, holds the
/// target, and nothing before it (from `pos` on) does; a miss means the
/// target does not occur at or after `pos`.
pub proof fn lemma_find_from_spec(s: Seq<u8>, pos: int, target: u8)
    requires
        0 <= pos <= s.len(),
    ensures
        match find_from(s, pos, target) {
            Some(j) => pos <= j < s.len() && s[j] == target
                && forall|k: int| pos <= k < j ==> s[k] != target,
            None => forall|k: int| pos <= k < s.len() ==> s[k] != target,
        },
    decreases s.len() - pos,
{
    if pos < s.len() && s[pos] != target {
        lemma_find_from_spec(s, pos + 1, target);
    }
}

/// A position holding the target with no earlier occurrence (from `pos` on)
/// is what the search finds.
pub proof fn lemma_find_from_characterization(s: Seq<u8>, pos: int, target: u8, j: int)
    requires
        0 <= pos <= j < s.len(),
        s[j] == target,
        forall|k: int| pos <= k < j ==> s[k] != target,
    ensures
        find_from(s, pos, target) == Some(j),
    decreases j - pos,
{
    if pos < j {
        lemma_find_from_characterization(s, pos + 1, target, j);
    }
}

/// Where the target occurs nowhere at or after `pos`, the search misses.
pub proof fn lemma_find_from_missing(s: Seq<u8>, pos: int, target: u8)
    requires
        0 <= pos,
        forall|k: int| pos <= k < s.len() ==> s[k] != target,
    ensures
        find_from(s, pos, target) is None,
    decreases s.len() - pos,
{
    if pos < s.len() {
        lemma_find_from_missing(s, pos + 1, target);
    }
}

/// A decimal numeral denotes a value at least 0.
pub proof fn lemma_dec_value_nonneg(s: Seq<u8>)
    requires
        all_digits(s),
    ensures
        dec_value(s) >= 0,
    decreases s.len(),
{
    if s.len() > 0 {
        assert(all_digits(s.drop_last()));
        lemma_dec_value_nonneg(s.drop_last());
    }
}

/// Reading one more digit multiplies the value so far by ten and adds the
/// digit: the numeral's value grows with its length.
pub proof fn lemma_dec_value_take_step(s: Seq<u8>, m: int)
    requires
        0 <= m < s.len(),
    ensures
        dec_value(s.take(m + 1)) == 10 * dec_value(s.take(m)) + digit_val(s[m]),
{
    assert(s.take(m + 1).drop_last() =~= s.take(m));
    assert(s.take(m + 1).last() == s[m]);
}

/// The value of a digit numeral is at least the value of any of its
/// prefixes.
pub proof fn lemma_dec_value_prefix_le(s: Seq<u8>, m: int)
    requires
        all_digits(s),
        0 <= m <= s.len(),
    ensures
        dec_value(s.take(m)) <= dec_value(s),
    decreases s.len() - m,
{
    if m == s.len() {
        assert(s.take(m) =~= s);
    } else {
        assert forall|i: int| 0 <= i < m implies is_digit(#[trigger] s.take(m)[i]) by {
            assert(s.take(m)[i] == s[i]);
        }
        lemma_dec_value_nonneg(s.take(m));
        lemma_dec_value_take_step(s, m);
        lemma_dec_value_prefix_le(s, m + 1);
    }
}

/// A successfully parsed byte string starts at `pos`, ends within the
/// buffer after consuming at least one byte, and is a `Str` node.
pub proof fn lemma_parse_str_bounds(s: Seq<u8>, pos: int)
    requires
        0 <= pos <= s.len(),
    ensures
        match parse_str(s, pos) {
            Ok(n) => n.start() == pos && pos < n.end() <= s.len() && (n is Str),
            Err(_) => true,
        },
{
    lemma_find_from_spec(s, pos, COLON);
    if let Some(j) = find_from(s, pos, COLON) {
        let body = s.subrange(pos, j);
        if body.len() > 0 && all_digits(body) {
            lemma_dec_value_nonneg(body);
        }
    }
}

/// A successfully parsed element starts at `pos` and ends within the
/// buffer after consuming at least one byte.
pub proof fn lemma_parse_elem_bounds(s: Seq<u8>, pos: int)
    ensures
        match parse_elem(s, pos) {
            Ok(n) => n.start() == pos && pos < n.end() <= s.len(),
            Err(_) => true,
        },
    decreases s.len() - pos, 0int,
{
    if 0 <= pos < s.len() {
        if is_digit(s[pos]) {
            lemma_parse_str_bounds(s, pos);
        } else if s[pos] == INT_TAG {
            lemma_find_from_spec(s, pos + 1, END_TAG);
        } else if s[pos] == LIST_TAG {
            lemma_parse_items_bounds(s, pos + 1, Seq::empty());
        } else if s[pos] == DICT_TAG {
            lemma_parse_pairs_bounds(s, pos + 1, Seq::empty());
        }
    }
}

/// A successfully parsed run of list items ends within the buffer after
/// consuming at least the closing `e`.
pub proof fn lemma_parse_items_bounds(s: Seq<u8>, pos: int, acc: Seq<Node>)
    ensures
        match parse_items(s, pos, acc) {
            Ok((_, e)) => pos < e <= s.len(),
            Err(_) => true,
        },
    decreases s.len() - pos, 1int,
{
    if 0 <= pos < s.len() && s[pos] != END_TAG {
        lemma_parse_elem_bounds(s, pos);
        if let Ok(node) = parse_elem(s, pos) {
            if pos < node.end() <= s.len() {
                lemma_parse_items_bounds(s, node.end(), acc.push(node));
            }
        }
    }
}

/// A successfully parsed run of dictionary pairs ends within the buffer
/// after consuming at least the closing `e`.
pub proof fn lemma_parse_pairs_bounds(s: Seq<u8>, pos: int, acc: Seq<(Seq<u8>, Node)>)
    ensures
        match parse_pairs(s, pos, acc) {
            Ok((_, e)) => pos < e <= s.len(),
            Err(_) => true,
        },
    decreases s.len() - pos, 1int,
{
    if 0 <= pos < s.len() && s[pos] != END_TAG {
        lemma_parse_str_bounds(s, pos);
        if let Ok(key_node) = parse_str(s, pos) {
            if let Node::Str { value: key, start: _, end: kend } = key_node {
                if pos < kend <= s.len() {
                    lemma_parse_elem_bounds(s, kend);
                    if let Ok(val) = parse_elem(s, kend) {
                        if kend < val.end() <= s.len() {
                            lemma_parse_pairs_bounds(s, val.end(), dict_insert(acc, key, val));
                        }
                    }
                }
            }
        }
    }
}

} // verus!
