//! The decoded element tree and the executable decoder.
//!
//! `BencodeElement` is the typed tree a decode produces: every element
//! carries the half-open byte range `[start_index, end_index)` it occupies
//! in the source buffer. Byte string payloads are kept as raw bytes —
//! torrent piece-hash fields are arbitrary binary, not text. Dictionaries
//! are held as key/value pairs in strictly ascending byte order of the
//! keys, with the later value winning on a repeated key.
//!
//! The decoder is proved to return exactly what the grammar functions in
//! [`crate::grammar`] describe, error cases included.

use vstd::prelude::*;
use crate::cursor::ByteCursor;
use crate::grammar::{
    COLON, DICT_TAG, DIGIT_NINE, DIGIT_ZERO, END_TAG, INT_TAG, LIST_TAG, MINUS,
};
use crate::grammar::{
    all_digits, dec_value, int_body_ok, int_value, is_digit, parse_elem, parse_int, parse_items,
    parse_pairs, parse_str,
};
use crate::grammar::{lemma_find_from_spec, lemma_parse_elem_bounds, lemma_parse_str_bounds};
use crate::model::{dict_insert, lemma_lex_trichotomy, lex_lt, DecodeError, Node};

verus! {

broadcast use crate::cursor::ByteCursor::lemma_pos_nonneg;

/// One decoded element, with the byte range `[start_index, end_index)` that
/// its encoding occupies in the source buffer.
#[derive(Debug, Eq, PartialEq, Hash)]
#[allow(inconsistent_fields)]
pub enum BencodeElement {
    Int { value: i64, start_index: u64, end_index: u64 },
    Str { value: Vec<u8>, start_index: u64, end_index: u64 },
    List { value: Vec<BencodeElement>, start_index: u64, end_index: u64 },
    Dict { value: Vec<(Vec<u8>, BencodeElement)>, start_index: u64, end_index: u64 },
}

/// The ghost node an element stands for.
pub open spec fn to_node(e: BencodeElement) -> Node
    decreases e,
{
    match e {
        BencodeElement::Int { value, start_index, end_index } => Node::Int {
            value: value as int,
            start: start_index as int,
            end: end_index as int,
        },
        BencodeElement::Str { value, start_index, end_index } => Node::Str {
            value: value@,
            start: start_index as int,
            end: end_index as int,
        },
        BencodeElement::List { value, start_index, end_index } => Node::List {
            items: view_elems(value@),
            start: start_index as int,
            end: end_index as int,
        },
        BencodeElement::Dict { value, start_index, end_index } => Node::Dict {
            pairs: view_pairs(value@),
            start: start_index as int,
            end: end_index as int,
        },
    }
}

/// The ghost nodes of a sequence of elements, in order.
pub open spec fn view_elems(v: Seq<BencodeElement>) -> Seq<Node>
    decreases v,
{
    if v.len() == 0 {
        Seq::empty()
    } else {
        seq![to_node(v[0])] + view_elems(v.drop_first())
    }
}

/// The ghost pairs of a sequence of key/value pairs, in order.
pub open spec fn view_pairs(v: Seq<(Vec<u8>, BencodeElement)>) -> Seq<(Seq<u8>, Node)>
    decreases v,
{
    if v.len() == 0 {
        Seq::empty()
    } else {
        seq![(v[0].0@, to_node(v[0].1))] + view_pairs(v.drop_first())
    }
}

impl View for BencodeElement {
    type V = Node;

    open spec fn view(&self) -> Node {
        to_node(*self)
    }
}

/// `view_elems` maps the sequence pointwise.
pub proof fn lemma_view_elems(v: Seq<BencodeElement>)
    ensures
        view_elems(v).len() == v.len(),
        forall|i: int| 0 <= i < v.len() ==> view_elems(v)[i] == to_node(#[trigger] v[i]),
    decreases v.len(),
{
    if v.len() > 0 {
        lemma_view_elems(v.drop_first());
        assert forall|i: int| 0 <= i < v.len() implies view_elems(v)[i] == to_node(v[i]) by {
            if i > 0 {
                assert(view_elems(v)[i] == view_elems(v.drop_first())[i - 1]);
                assert(v.drop_first()[i - 1] == v[i]);
            }
        }
    }
}

/// `view_pairs` maps the sequence pointwise.
pub proof fn lemma_view_pairs(v: Seq<(Vec<u8>, BencodeElement)>)
    ensures
        view_pairs(v).len() == v.len(),
        forall|i: int|
            0 <= i < v.len() ==> view_pairs(v)[i] == ((#[trigger] v[i]).0@, to_node(v[i].1)),
    decreases v.len(),
{
    if v.len() > 0 {
        lemma_view_pairs(v.drop_first());
        assert forall|i: int|
            0 <= i < v.len() implies view_pairs(v)[i] == ((v[i]).0@, to_node(v[i].1)) by {
            if i > 0 {
                assert(view_pairs(v)[i] == view_pairs(v.drop_first())[i - 1]);
                assert(v.drop_first()[i - 1] == v[i]);
            }
        }
    }
}

/// Whether `a` comes strictly before `b` in ascending byte order.
fn bytes_lt(a: &Vec<u8>, b: &Vec<u8>) -> (r: bool)
    ensures
        r == lex_lt(a@, b@),
{
    let a_len = a.len();
    let b_len = b.len();
    proof {
        assert(a@.skip(0) =~= a@);
        assert(b@.skip(0) =~= b@);
    }
    let mut i: usize = 0;
    while i < a_len && i < b_len
        invariant
            a_len == a@.len(),
            b_len == b@.len(),
            i <= a_len,
            i <= b_len,
            lex_lt(a@, b@) == lex_lt(a@.skip(i as int), b@.skip(i as int)),
        decreases a_len - i,
    {
        let x = a[i];
        let y = b[i];
        if x < y {
            return true;
        }
        if x > y {
            return false;
        }
        proof {
            assert(a@.skip(i as int).drop_first() =~= a@.skip(i + 1));
            assert(b@.skip(i as int).drop_first() =~= b@.skip(i + 1));
        }
        i = i + 1;
    }
    a_len < b_len
}

/// Whether `a` and `b` hold the same bytes.
fn bytes_eq(a: &Vec<u8>, b: &Vec<u8>) -> (r: bool)
    ensures
        r == (a@ == b@),
{
    let a_len = a.len();
    if a_len != b.len() {
        return false;
    }
    let mut i: usize = 0;
    while i < a_len
        invariant
            a_len == a@.len() == b@.len(),
            i <= a_len,
            forall|k: int| 0 <= k < i ==> a@[k] == b@[k],
        decreases a_len - i,
    {
        if a[i] != b[i] {
            return false;
        }
        i = i + 1;
    }
    proof {
        assert(a@ =~= b@);
    }
    true
}

/// Borrow the value stored under `key` in a pair vector, if any.
#[verifier::loop_isolation(false)]
pub(crate) fn dict_get<'a>(
    pairs: &'a Vec<(Vec<u8>, BencodeElement)>,
    key: &Vec<u8>,
) -> (r: Option<&'a BencodeElement>)
    ensures
        match r {
            Some(v) => crate::model::pairs_lookup(view_pairs(pairs@), key@)
                == Some(to_node(*v)),
            None => crate::model::pairs_lookup(view_pairs(pairs@), key@) is None,
        },
{
    let ghost all = view_pairs(pairs@);
    proof {
        lemma_view_pairs(pairs@);
        assert(all.skip(0) =~= all);
    }
    let n = pairs.len();
    let mut i: usize = 0;
    while i < n
        invariant
            i <= n,
            crate::model::pairs_lookup(all, key@)
                == crate::model::pairs_lookup(all.skip(i as int), key@),
        decreases n - i,
    {
        proof {
            assert(all.skip(i as int)[0] == all[i as int]);
        }
        if bytes_eq(&pairs[i].0, key) {
            return Some(&pairs[i].1);
        }
        proof {
            assert(all.skip(i as int).drop_first() =~= all.skip(i + 1));
        }
        i = i + 1;
    }
    None
}

/// The executable result returns exactly what the grammar describes: the
/// same error, or an element whose ghost node is the parsed node.
pub open spec fn result_matches(
    r: Result<BencodeElement, DecodeError>,
    p: Result<Node, DecodeError>,
) -> bool {
    match r {
        Ok(e) => p == Ok::<Node, DecodeError>(to_node(e)),
        Err(a) => p == Err::<Node, DecodeError>(a),
    }
}

/// End offset of a successfully parsed node (immaterial on error).
pub open spec fn parsed_end(p: Result<Node, DecodeError>) -> int {
    match p {
        Ok(n) => n.end(),
        Err(_) => 0,
    }
}

/// Splitting `dict_insert` at a scan position: pairs whose keys lie before
/// the new key are kept as a prefix, and the insertion happens in the rest.
proof fn lemma_dict_insert_split(ps: Seq<(Seq<u8>, Node)>, key: Seq<u8>, val: Node, i: int)
    requires
        0 <= i <= ps.len(),
        forall|j: int| 0 <= j < i ==> lex_lt((#[trigger] ps[j]).0, key),
    ensures
        dict_insert(ps, key, val) =~= ps.take(i) + dict_insert(ps.skip(i), key, val),
    decreases i,
{
    if i == 0 {
        assert(ps.take(0) + dict_insert(ps.skip(0), key, val) =~= dict_insert(ps, key, val)) by {
            assert(ps.skip(0) =~= ps);
        }
    } else {
        lemma_lex_trichotomy(key, ps[0].0);
        lemma_dict_insert_split(ps.drop_first(), key, val, i - 1);
        assert(ps.drop_first().take(i - 1) =~= ps.take(i).drop_first());
        assert(ps.drop_first().skip(i - 1) =~= ps.skip(i));
        assert(dict_insert(ps, key, val) =~= seq![ps[0]] + dict_insert(ps.drop_first(), key, val));
        assert(seq![ps[0]] + (ps.take(i).drop_first() + dict_insert(ps.skip(i), key, val))
            =~= ps.take(i) + dict_insert(ps.skip(i), key, val));
    }
}

/// Insert a key/value pair into a vector of pairs held in ascending key
/// order, overwriting the value of an already-present key.
#[verifier::loop_isolation(false)]
fn dict_insert_exec(pairs: &mut Vec<(Vec<u8>, BencodeElement)>, key: Vec<u8>, val: BencodeElement)
    ensures
        view_pairs(final(pairs)@) == dict_insert(view_pairs(old(pairs)@), key@, to_node(val)),
{
    let ghost opairs = old(pairs)@;
    let ghost orig = view_pairs(opairs);
    let ghost nkey = key@;
    let ghost nval = to_node(val);
    proof {
        lemma_view_pairs(opairs);
    }
    let n = pairs.len();
    let mut i: usize = 0;
    while i < n && bytes_lt(&pairs[i].0, &key)
        invariant
            i <= n,
            pairs@ == opairs,
            forall|j: int| 0 <= j < i ==> lex_lt((#[trigger] orig[j]).0, nkey),
        decreases n - i,
    {
        proof {
            assert(orig[i as int] == (opairs[i as int].0@, to_node(opairs[i as int].1)));
        }
        i = i + 1;
    }
    proof {
        lemma_dict_insert_split(orig, nkey, nval, i as int);
    }
    let ghost tail = orig.skip(i as int);
    let ghost target = dict_insert(orig, nkey, nval);
    if i < n && bytes_eq(&pairs[i].0, &key) {
        proof {
            assert(orig[i as int] == (opairs[i as int].0@, to_node(opairs[i as int].1)));
            assert(tail[0] == orig[i as int]);
            lemma_lex_trichotomy(nkey, orig[i as int].0);
            assert(dict_insert(tail, nkey, nval) =~= seq![(nkey, nval)] + tail.drop_first());
        }
        pairs.remove(i);
        pairs.insert(i, (key, val));
        proof {
            lemma_view_pairs(pairs@);
            assert forall|k: int| 0 <= k < pairs@.len() implies view_pairs(pairs@)[k]
                == target[k] by {
                if k < i {
                    assert(pairs@[k] == opairs[k]);
                    assert(orig[k] == (opairs[k].0@, to_node(opairs[k].1)));
                    assert(target[k] == orig.take(i as int)[k]);
                } else if k == i {
                    assert(pairs@[k].0@ == nkey && to_node(pairs@[k].1) == nval);
                } else {
                    assert(pairs@[k] == opairs[k]);
                    assert(orig[k] == (opairs[k].0@, to_node(opairs[k].1)));
                    assert(target[k] == tail.drop_first()[k - i - 1]);
                    assert(tail.drop_first()[k - i - 1] == orig[k]);
                }
            }
            assert(view_pairs(pairs@) =~= target);
        }
    } else {
        proof {
            if i < n {
                assert(orig[i as int] == (opairs[i as int].0@, to_node(opairs[i as int].1)));
                assert(tail[0] == orig[i as int]);
                lemma_lex_trichotomy(nkey, orig[i as int].0);
                assert(lex_lt(nkey, tail[0].0));
                assert(dict_insert(tail, nkey, nval) =~= seq![(nkey, nval)] + tail);
            } else {
                assert(tail =~= Seq::<(Seq<u8>, Node)>::empty());
                assert(dict_insert(tail, nkey, nval) =~= seq![(nkey, nval)]);
            }
        }
        pairs.insert(i, (key, val));
        proof {
            lemma_view_pairs(pairs@);
            assert forall|k: int| 0 <= k < pairs@.len() implies view_pairs(pairs@)[k]
                == target[k] by {
                if k < i {
                    assert(pairs@[k] == opairs[k]);
                    assert(orig[k] == (opairs[k].0@, to_node(opairs[k].1)));
                    assert(target[k] == orig.take(i as int)[k]);
                } else if k == i {
                    assert(pairs@[k].0@ == nkey && to_node(pairs@[k].1) == nval);
                } else {
                    assert(pairs@[k] == opairs[k - 1]);
                    assert(orig[k - 1] == (opairs[k - 1].0@, to_node(opairs[k - 1].1)));
                    assert(target[k] == tail[k - i - 1]);
                    assert(tail[k - i - 1] == orig[k - 1]);
                }
            }
            assert(view_pairs(pairs@) =~= target);
        }
    }
}

/// Decode one integer, `'i' ['-'] digit+ 'e'`, from the current position.
#[verifier::loop_isolation(false)]
fn decode_int(cursor: &mut ByteCursor) -> (r: Result<BencodeElement, DecodeError>)
    requires
        old(cursor).pos_spec() < old(cursor).bytes().len(),
        old(cursor).bytes()[old(cursor).pos_spec()] == INT_TAG,
    ensures
        final(cursor).bytes() == old(cursor).bytes(),
        result_matches(r, parse_int(old(cursor).bytes(), old(cursor).pos_spec())),
        r is Ok ==> final(cursor).pos_spec()
            == parsed_end(parse_int(old(cursor).bytes(), old(cursor).pos_spec())),
{
    let ghost s = old(cursor).bytes();
    let n = cursor.buffer_len();
    let start = cursor.position();
    let j = match cursor.find_byte_from(start + 1, END_TAG) {
        None => {
            return Err(DecodeError::Truncated);
        },
        Some(j) => j,
    };
    proof {
        lemma_find_from_spec(s, start + 1, END_TAG);
    }
    let ghost body = s.subrange(start + 1, j as int);
    if j == start + 1 {
        return Err(DecodeError::MalformedNumber);
    }
    let neg = cursor.byte_at(start + 1) == MINUS;
    let dstart = if neg {
        start + 2
    } else {
        start + 1
    };
    let ghost digits = s.subrange(dstart as int, j as int);
    proof {
        assert(body[0] == s[start + 1]);
        if neg {
            assert(body.drop_first() =~= digits);
        } else {
            assert(body =~= digits);
        }
    }
    if dstart == j {
        // the body is a bare minus sign
        return Err(DecodeError::MalformedNumber);
    }
    let mut k = dstart;
    while k < j
        invariant
            dstart <= k <= j,
            forall|t: int| dstart <= t < k ==> is_digit(s[t]),
        decreases j - k,
    {
        let b = cursor.byte_at(k);
        if b < DIGIT_ZERO || b > DIGIT_NINE {
            proof {
                assert(digits[k - dstart] == s[k as int]);
                assert(!all_digits(digits));
                assert(!int_body_ok(body));
            }
            return Err(DecodeError::MalformedNumber);
        }
        k = k + 1;
    }
    proof {
        assert forall|t: int| 0 <= t < digits.len() implies is_digit(#[trigger] digits[t]) by {
            assert(digits[t] == s[dstart + t]);
        }
        assert(int_body_ok(body));
    }
    let limit: u64 = if neg {
        9223372036854775808
    } else {
        9223372036854775807
    };
    let mut mag: u64 = 0;
    let mut k = dstart;
    while k < j
        invariant
            dstart <= k <= j,
            mag == dec_value(s.subrange(dstart as int, k as int)),
            mag <= limit,
        decreases j - k,
    {
        let b = cursor.byte_at(k);
        let d = (b - DIGIT_ZERO) as u64;
        proof {
            assert(is_digit(s[k as int]));
            assert(digits.take(k + 1 - dstart) =~= s.subrange(dstart as int, k + 1));
            assert(digits.take(k - dstart) =~= s.subrange(dstart as int, k as int));
            crate::grammar::lemma_dec_value_take_step(digits, k - dstart);
            assert((limit - d) / 10 * 10 + (limit - d) % 10 == limit - d);
        }
        if mag > (limit - d) / 10 {
            proof {
                assert(dec_value(s.subrange(dstart as int, k + 1)) > limit);
                crate::grammar::lemma_dec_value_prefix_le(digits, k + 1 - dstart);
                assert(dec_value(digits) > limit);
            }
            return Err(DecodeError::MalformedNumber);
        }
        mag = mag * 10 + d;
        k = k + 1;
    }
    proof {
        assert(s.subrange(dstart as int, j as int) =~= digits);
        assert(mag == dec_value(digits));
    }
    let value: i64 = if neg {
        if mag == 9223372036854775808 {
            i64::MIN
        } else {
            -(mag as i64)
        }
    } else {
        mag as i64
    };
    proof {
        assert(value as int == int_value(body));
    }
    cursor.seek(j + 1);
    Ok(BencodeElement::Int { value, start_index: start as u64, end_index: (j + 1) as u64 })
}

/// Decode one byte string, `digit+ ':'` then that many raw bytes, from the
/// current position.
#[verifier::loop_isolation(false)]
fn decode_str(cursor: &mut ByteCursor) -> (r: Result<BencodeElement, DecodeError>)
    requires
        old(cursor).pos_spec() <= old(cursor).bytes().len(),
    ensures
        final(cursor).bytes() == old(cursor).bytes(),
        result_matches(r, parse_str(old(cursor).bytes(), old(cursor).pos_spec())),
        r is Ok ==> final(cursor).pos_spec()
            == parsed_end(parse_str(old(cursor).bytes(), old(cursor).pos_spec())),
{
    let ghost s = old(cursor).bytes();
    let n = cursor.buffer_len();
    let start = cursor.position();
    let j = match cursor.find_byte_from(start, COLON) {
        None => {
            return Err(DecodeError::Truncated);
        },
        Some(j) => j,
    };
    proof {
        lemma_find_from_spec(s, start as int, COLON);
    }
    let ghost body = s.subrange(start as int, j as int);
    if j == start {
        return Err(DecodeError::MalformedNumber);
    }
    let mut k = start;
    while k < j
        invariant
            start <= k <= j,
            forall|t: int| start <= t < k ==> is_digit(s[t]),
        decreases j - k,
    {
        let b = cursor.byte_at(k);
        if b < DIGIT_ZERO || b > DIGIT_NINE {
            proof {
                assert(body[k - start] == s[k as int]);
                assert(!all_digits(body));
            }
            return Err(DecodeError::MalformedNumber);
        }
        k = k + 1;
    }
    proof {
        assert forall|t: int| 0 <= t < body.len() implies is_digit(#[trigger] body[t]) by {
            assert(body[t] == s[start + t]);
        }
        assert(all_digits(body));
    }
    let mut mag: usize = 0;
    let mut k = start;
    while k < j
        invariant
            start <= k <= j,
            mag == dec_value(s.subrange(start as int, k as int)),
        decreases j - k,
    {
        let b = cursor.byte_at(k);
        let d = (b - DIGIT_ZERO) as usize;
        proof {
            assert(is_digit(s[k as int]));
            assert(body.take(k + 1 - start) =~= s.subrange(start as int, k + 1));
            assert(body.take(k - start) =~= s.subrange(start as int, k as int));
            crate::grammar::lemma_dec_value_take_step(body, k - start);
            assert((usize::MAX - d) / 10 * 10 + (usize::MAX - d) % 10 == usize::MAX - d);
        }
        if mag > (usize::MAX - d) / 10 {
            proof {
                assert(dec_value(s.subrange(start as int, k + 1)) > usize::MAX);
                crate::grammar::lemma_dec_value_prefix_le(body, k + 1 - start);
                assert(dec_value(body) > usize::MAX >= s.len());
            }
            return Err(DecodeError::Truncated);
        }
        mag = mag * 10 + d;
        k = k + 1;
    }
    proof {
        assert(s.subrange(start as int, j as int) =~= body);
        assert(mag == dec_value(body));
    }
    if mag > n - (j + 1) {
        // the declared length runs past the end of the buffer
        return Err(DecodeError::Truncated);
    }
    let value = cursor.read_exact(j + 1, mag);
    cursor.seek(j + 1 + mag);
    Ok(BencodeElement::Str {
        value,
        start_index: start as u64,
        end_index: (j + 1 + mag) as u64,
    })
}

/// Decode one element from the current position, dispatching on its
/// leading byte.
fn decode_element(reader: &mut ByteCursor) -> (r: Result<BencodeElement, DecodeError>)
    ensures
        final(reader).bytes() == old(reader).bytes(),
        result_matches(r, parse_elem(old(reader).bytes(), old(reader).pos_spec())),
        r is Ok ==> final(reader).pos_spec()
            == parsed_end(parse_elem(old(reader).bytes(), old(reader).pos_spec())),
    decreases old(reader).bytes().len() - old(reader).pos_spec(), 2int,
{
    let ghost s = reader.bytes();
    let ghost p = reader.pos_spec();
    match reader.get_current_byte() {
        None => Err(DecodeError::Truncated),
        Some(b) => {
            proof {
                assert(0 <= p < s.len() && s[p] == b);
            }
            if DIGIT_ZERO <= b && b <= DIGIT_NINE {
                decode_str(reader)
            } else if b == INT_TAG {
                decode_int(reader)
            } else if b == LIST_TAG {
                decode_list(reader)
            } else if b == DICT_TAG {
                decode_dict(reader)
            } else {
                Err(DecodeError::InvalidTag)
            }
        },
    }
}

/// Decode one list, `'l' element* 'e'`, from the current position.
#[verifier::loop_isolation(false)]
fn decode_list(cursor: &mut ByteCursor) -> (r: Result<BencodeElement, DecodeError>)
    requires
        old(cursor).pos_spec() < old(cursor).bytes().len(),
        old(cursor).bytes()[old(cursor).pos_spec()] == LIST_TAG,
    ensures
        final(cursor).bytes() == old(cursor).bytes(),
        result_matches(r, parse_elem(old(cursor).bytes(), old(cursor).pos_spec())),
        r is Ok ==> final(cursor).pos_spec()
            == parsed_end(parse_elem(old(cursor).bytes(), old(cursor).pos_spec())),
    decreases old(cursor).bytes().len() - old(cursor).pos_spec(), 1int,
{
    let ghost s = old(cursor).bytes();
    let start = cursor.position();
    let _ = cursor.read_next_byte();
    let mut list: Vec<BencodeElement> = Vec::new();
    loop
        invariant
            cursor.bytes() == s,
            start + 1 <= cursor.pos_spec() <= s.len(),
            parse_items(s, start + 1, Seq::empty())
                == parse_items(s, cursor.pos_spec(), view_elems(list@)),
        decreases s.len() - cursor.pos_spec(),
    {
        let ghost cur = cursor.pos_spec();
        let ghost acc = view_elems(list@);
        match cursor.get_current_byte() {
            None => {
                return Err(DecodeError::Truncated);
            },
            Some(b) => {
                if b == END_TAG {
                    let _ = cursor.read_next_byte();
                    let endpos = cursor.position();
                    return Ok(BencodeElement::List {
                        value: list,
                        start_index: start as u64,
                        end_index: endpos as u64,
                    });
                }
                match decode_element(cursor) {
                    Err(e) => {
                        return Err(e);
                    },
                    Ok(el) => {
                        proof {
                            lemma_parse_elem_bounds(s, cur);
                            lemma_view_elems(list@);
                            lemma_view_elems(list@.push(el));
                            assert forall|i: int|
                                0 <= i < list@.len() + 1 implies view_elems(list@.push(el))[i]
                                == acc.push(to_node(el))[i] by {
                                assert(view_elems(list@.push(el))[i] == to_node(list@.push(el)[i]));
                                if i < list@.len() {
                                    assert(list@.push(el)[i] == list@[i]);
                                } else {
                                    assert(list@.push(el)[i] == el);
                                }
                            }
                            assert(view_elems(list@.push(el)) =~= acc.push(to_node(el)));
                        }
                        list.push(el);
                    },
                }
            },
        }
    }
}

/// Decode one dictionary, `'d' (bytestring element)* 'e'`, from the
/// current position. Pairs are kept in ascending key order; the later
/// value wins on a repeated key.
#[verifier::loop_isolation(false)]
fn decode_dict(cursor: &mut ByteCursor) -> (r: Result<BencodeElement, DecodeError>)
    requires
        old(cursor).pos_spec() < old(cursor).bytes().len(),
        old(cursor).bytes()[old(cursor).pos_spec()] == DICT_TAG,
    ensures
        final(cursor).bytes() == old(cursor).bytes(),
        result_matches(r, parse_elem(old(cursor).bytes(), old(cursor).pos_spec())),
        r is Ok ==> final(cursor).pos_spec()
            == parsed_end(parse_elem(old(cursor).bytes(), old(cursor).pos_spec())),
    decreases old(cursor).bytes().len() - old(cursor).pos_spec(), 1int,
{
    let ghost s = old(cursor).bytes();
    let start = cursor.position();
    let _ = cursor.read_next_byte();
    let mut pairs: Vec<(Vec<u8>, BencodeElement)> = Vec::new();
    loop
        invariant
            cursor.bytes() == s,
            start + 1 <= cursor.pos_spec() <= s.len(),
            parse_pairs(s, start + 1, Seq::empty())
                == parse_pairs(s, cursor.pos_spec(), view_pairs(pairs@)),
        decreases s.len() - cursor.pos_spec(),
    {
        let ghost cur = cursor.pos_spec();
        let ghost acc = view_pairs(pairs@);
        match cursor.get_current_byte() {
            None => {
                return Err(DecodeError::Truncated);
            },
            Some(b) => {
                if b == END_TAG {
                    let _ = cursor.read_next_byte();
                    let endpos = cursor.position();
                    return Ok(BencodeElement::Dict {
                        value: pairs,
                        start_index: start as u64,
                        end_index: endpos as u64,
                    });
                }
                proof {
                    lemma_parse_str_bounds(s, cur);
                }
                match decode_str(cursor) {
                    Err(e) => {
                        return Err(e);
                    },
                    Ok(key_el) => {
                        let ghost kend = cursor.pos_spec();
                        let key_bytes = match key_el {
                            BencodeElement::Str { value, start_index: _, end_index: _ } => value,
                            _ => vstd::pervasive::unreached(),
                        };
                        let ghost gkey = key_bytes@;
                        match decode_element(cursor) {
                            Err(e) => {
                                return Err(e);
                            },
                            Ok(val) => {
                                proof {
                                    lemma_parse_elem_bounds(s, kend);
                                }
                                dict_insert_exec(&mut pairs, key_bytes, val);
                                proof {
                                    assert(parse_pairs(s, cur, acc) == parse_pairs(
                                        s,
                                        cursor.pos_spec(),
                                        dict_insert(acc, gkey, to_node(val)),
                                    ));
                                }
                            },
                        }
                    },
                }
            },
        }
    }
}

/// Decode the buffer behind the cursor from its beginning.
pub fn decode_from_cursor(content_cursor: &mut ByteCursor) -> (r: Result<
    BencodeElement,
    DecodeError,
>)
    ensures
        final(content_cursor).bytes() == old(content_cursor).bytes(),
        result_matches(r, parse_elem(old(content_cursor).bytes(), 0)),
        r is Ok ==> final(content_cursor).pos_spec() == parsed_end(
            parse_elem(old(content_cursor).bytes(), 0),
        ),
{
    content_cursor.seek(0);
    decode_element(content_cursor)
}

/// Decode a bencoded buffer into its element tree.
pub fn decode(content: Vec<u8>) -> (r: Result<BencodeElement, DecodeError>)
    ensures
        result_matches(r, parse_elem(content@, 0)),
{
    let mut content_cursor = ByteCursor::new(content);
    decode_from_cursor(&mut content_cursor)
}

} // verus!
