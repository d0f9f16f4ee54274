//! Laws of the decoder.
//!
//! The central one is round-trip-by-offset: for every element of a decoded
//! tree, the recorded byte range `[start, end)` slices out of the original
//! buffer exactly the bytes that re-parse to that element (with its offsets
//! rebased to the slice). Alongside it stand determinism of decoding and
//! preservation of the dictionaries' ascending key order.

use vstd::prelude::*;
use crate::grammar::{
    dec_value, find_from, parse_elem, parse_int, parse_items, parse_pairs, parse_str, COLON,
    END_TAG,
};
use crate::grammar::{
    lemma_find_from_characterization, lemma_find_from_spec, lemma_parse_elem_bounds,
    lemma_parse_items_bounds, lemma_parse_str_bounds,
};
use crate::model::{dict_insert, lex_lt, DecodeError, Node};

verus! {

/// The same node with every offset moved by `d`.
pub open spec fn shift_node(n: Node, d: int) -> Node
    decreases n,
{
    match n {
        Node::Int { value, start, end } => Node::Int { value, start: start + d, end: end + d },
        Node::Str { value, start, end } => Node::Str { value, start: start + d, end: end + d },
        Node::List { items, start, end } => Node::List {
            items: shift_items(items, d),
            start: start + d,
            end: end + d,
        },
        Node::Dict { pairs, start, end } => Node::Dict {
            pairs: shift_pairs(pairs, d),
            start: start + d,
            end: end + d,
        },
    }
}

/// Every node of a sequence shifted by `d`.
pub open spec fn shift_items(items: Seq<Node>, d: int) -> Seq<Node>
    decreases items,
{
    if items.len() == 0 {
        Seq::empty()
    } else {
        seq![shift_node(items[0], d)] + shift_items(items.drop_first(), d)
    }
}

/// Every pair of a sequence with its value shifted by `d`; keys are bytes
/// and carry no offsets.
pub open spec fn shift_pairs(pairs: Seq<(Seq<u8>, Node)>, d: int) -> Seq<(Seq<u8>, Node)>
    decreases pairs,
{
    if pairs.len() == 0 {
        Seq::empty()
    } else {
        seq![(pairs[0].0, shift_node(pairs[0].1, d))] + shift_pairs(pairs.drop_first(), d)
    }
}

/// `shift_items` maps the sequence pointwise.
proof fn lemma_shift_items(items: Seq<Node>, d: int)
    ensures
        shift_items(items, d).len() == items.len(),
        forall|i: int|
            0 <= i < items.len() ==> shift_items(items, d)[i] == shift_node(
                #[trigger] items[i],
                d,
            ),
    decreases items.len(),
{
    if items.len() > 0 {
        lemma_shift_items(items.drop_first(), d);
        assert forall|i: int|
            0 <= i < items.len() implies shift_items(items, d)[i] == shift_node(items[i], d) by {
            if i > 0 {
                assert(shift_items(items, d)[i] == shift_items(items.drop_first(), d)[i - 1]);
                assert(items.drop_first()[i - 1] == items[i]);
            }
        }
    }
}

/// `shift_pairs` maps the sequence pointwise.
proof fn lemma_shift_pairs(pairs: Seq<(Seq<u8>, Node)>, d: int)
    ensures
        shift_pairs(pairs, d).len() == pairs.len(),
        forall|i: int|
            0 <= i < pairs.len() ==> shift_pairs(pairs, d)[i] == ((#[trigger] pairs[i]).0,
            shift_node(pairs[i].1, d)),
    decreases pairs.len(),
{
    if pairs.len() > 0 {
        lemma_shift_pairs(pairs.drop_first(), d);
        assert forall|i: int|
            0 <= i < pairs.len() implies shift_pairs(pairs, d)[i] == ((pairs[i]).0, shift_node(
            pairs[i].1,
            d,
        )) by {
            if i > 0 {
                assert(shift_pairs(pairs, d)[i] == shift_pairs(pairs.drop_first(), d)[i - 1]);
                assert(pairs.drop_first()[i - 1] == pairs[i]);
            }
        }
    }
}

/// Shifting the values of a pair sequence leaves its keys alone, so the
/// ordered insertion lands in the same place: insert then shift equals
/// shift then insert.
proof fn lemma_dict_insert_shift(pairs: Seq<(Seq<u8>, Node)>, key: Seq<u8>, val: Node, d: int)
    ensures
        dict_insert(shift_pairs(pairs, d), key, shift_node(val, d)) == shift_pairs(
            dict_insert(pairs, key, val),
            d,
        ),
    decreases pairs.len(),
{
    lemma_shift_pairs(pairs, d);
    let sp = shift_pairs(pairs, d);
    let sv = shift_node(val, d);
    if pairs.len() == 0 {
        assert(dict_insert(sp, key, sv) =~= seq![(key, sv)]);
        assert(shift_pairs(dict_insert(pairs, key, val), d) =~= seq![(key, sv)]) by {
            lemma_shift_pairs(dict_insert(pairs, key, val), d);
        }
    } else if lex_lt(key, pairs[0].0) {
        lemma_shift_pairs(dict_insert(pairs, key, val), d);
        assert(dict_insert(pairs, key, val) == seq![(key, val)] + pairs);
        assert(dict_insert(sp, key, sv) == seq![(key, sv)] + sp);
        assert(dict_insert(sp, key, sv) =~= shift_pairs(seq![(key, val)] + pairs, d)) by {
            lemma_shift_pairs(seq![(key, val)] + pairs, d);
            assert forall|i: int| 0 <= i < pairs.len() + 1 implies (seq![(key, sv)] + sp)[i]
                == shift_pairs(seq![(key, val)] + pairs, d)[i] by {
                if i > 0 {
                    assert((seq![(key, val)] + pairs)[i] == pairs[i - 1]);
                }
            }
        }
    } else if key == pairs[0].0 {
        lemma_shift_pairs(dict_insert(pairs, key, val), d);
        assert(dict_insert(pairs, key, val) == seq![(key, val)] + pairs.drop_first());
        assert(dict_insert(sp, key, sv) == seq![(key, sv)] + sp.drop_first());
        assert(dict_insert(sp, key, sv) =~= shift_pairs(
            seq![(key, val)] + pairs.drop_first(),
            d,
        )) by {
            lemma_shift_pairs(seq![(key, val)] + pairs.drop_first(), d);
            assert forall|i: int| 0 <= i < pairs.len() implies (seq![(key, sv)]
                + sp.drop_first())[i] == shift_pairs(seq![(key, val)] + pairs.drop_first(), d)[i] by {
                if i > 0 {
                    assert((seq![(key, val)] + pairs.drop_first())[i] == pairs[i]);
                }
            }
        }
    } else {
        lemma_dict_insert_shift(pairs.drop_first(), key, val, d);
        assert(sp.drop_first() =~= shift_pairs(pairs.drop_first(), d)) by {
            lemma_shift_pairs(pairs.drop_first(), d);
        }
        assert(dict_insert(sp, key, sv) == seq![sp[0]] + dict_insert(sp.drop_first(), key, sv));
        assert(dict_insert(pairs, key, val) == seq![pairs[0]] + dict_insert(
            pairs.drop_first(),
            key,
            val,
        ));
        lemma_shift_pairs(dict_insert(pairs, key, val), d);
        lemma_shift_pairs(dict_insert(pairs.drop_first(), key, val), d);
        assert(dict_insert(sp, key, sv) =~= shift_pairs(dict_insert(pairs, key, val), d)) by {
            assert forall|i: int|
                0 <= i < dict_insert(pairs, key, val).len() implies shift_pairs(
                dict_insert(pairs, key, val),
                d,
            )[i] == (seq![sp[0]] + dict_insert(shift_pairs(pairs.drop_first(), d), key, sv))[i] by {
                if i > 0 {
                    assert(dict_insert(pairs, key, val)[i] == dict_insert(
                        pairs.drop_first(),
                        key,
                        val,
                    )[i - 1]);
                }
            }
        }
    }
}

/// A byte search shifts along with the window it runs in.
proof fn lemma_find_from_shift(s: Seq<u8>, pos: int, target: u8, j: int, t: Seq<u8>, d: int)
    requires
        0 <= pos <= s.len(),
        find_from(s, pos, target) == Some(j),
        0 <= pos + d,
        j + d < t.len(),
        forall|k: int| pos <= k <= j ==> t[k + d] == s[k],
    ensures
        find_from(t, pos + d, target) == Some(j + d),
{
    lemma_find_from_spec(s, pos, target);
    assert forall|k: int| pos + d <= k < j + d implies t[k] != target by {
        assert(t[k] == s[k - d]);
    }
    lemma_find_from_characterization(t, pos + d, target, j + d);
}

/// A successfully parsed byte string re-parses, shifted, in any window
/// that holds the same bytes over its range.
proof fn lemma_parse_str_shift(s: Seq<u8>, pos: int, t: Seq<u8>, d: int)
    requires
        0 <= pos <= s.len(),
        parse_str(s, pos) is Ok,
        0 <= pos + d,
        parse_str(s, pos)->Ok_0.end() + d <= t.len(),
        forall|k: int| pos <= k < parse_str(s, pos)->Ok_0.end() ==> t[k + d] == s[k],
    ensures
        parse_str(t, pos + d) == Ok::<Node, DecodeError>(shift_node(parse_str(s, pos)->Ok_0, d)),
{
    let n = parse_str(s, pos)->Ok_0;
    let j = find_from(s, pos, COLON)->Some_0;
    lemma_find_from_spec(s, pos, COLON);
    let body = s.subrange(pos, j);
    let len = dec_value(body);
    crate::grammar::lemma_dec_value_nonneg(body);
    assert(n.end() == j + 1 + len);
    lemma_find_from_shift(s, pos, COLON, j, t, d);
    assert(t.subrange(pos + d, j + d) =~= body) by {
        assert forall|i: int| 0 <= i < j - pos implies t.subrange(pos + d, j + d)[i]
            == body[i] by {
            assert(t[pos + d + i] == s[pos + i]);
        }
    }
    assert(t.subrange(j + d + 1, j + d + 1 + len) =~= s.subrange(j + 1, j + 1 + len)) by {
        assert forall|i: int| #![trigger t.subrange(j + d + 1, j + d + 1 + len)[i]]
            0 <= i < len implies t.subrange(j + d + 1, j + d + 1 + len)[i]
            == s.subrange(j + 1, j + 1 + len)[i] by {
            assert(t[j + d + 1 + i] == s[j + 1 + i]);
        }
    }
}

/// A successfully parsed integer re-parses, shifted, in any window that
/// holds the same bytes over its range.
proof fn lemma_parse_int_shift(s: Seq<u8>, pos: int, t: Seq<u8>, d: int)
    requires
        0 <= pos < s.len(),
        parse_int(s, pos) is Ok,
        0 <= pos + d,
        parse_int(s, pos)->Ok_0.end() + d <= t.len(),
        forall|k: int| pos <= k < parse_int(s, pos)->Ok_0.end() ==> t[k + d] == s[k],
    ensures
        parse_int(t, pos + d) == Ok::<Node, DecodeError>(shift_node(parse_int(s, pos)->Ok_0, d)),
{
    let n = parse_int(s, pos)->Ok_0;
    let j = find_from(s, pos + 1, END_TAG)->Some_0;
    lemma_find_from_spec(s, pos + 1, END_TAG);
    let body = s.subrange(pos + 1, j);
    assert(n.end() == j + 1);
    lemma_find_from_shift(s, pos + 1, END_TAG, j, t, d);
    assert(t.subrange(pos + d + 1, j + d) =~= body) by {
        assert forall|i: int| 0 <= i < j - pos - 1 implies t.subrange(pos + d + 1, j + d)[i]
            == body[i] by {
            assert(t[pos + 1 + d + i] == s[pos + 1 + i]);
        }
    }
}

/// A successfully parsed element re-parses, shifted by `d`, in any window
/// `t` that holds the same bytes over the element's range.
proof fn lemma_parse_elem_shift(s: Seq<u8>, pos: int, t: Seq<u8>, d: int)
    requires
        parse_elem(s, pos) is Ok,
        0 <= pos + d,
        parse_elem(s, pos)->Ok_0.end() + d <= t.len(),
        forall|k: int| pos <= k < parse_elem(s, pos)->Ok_0.end() ==> t[k + d] == s[k],
    ensures
        parse_elem(t, pos + d) == Ok::<Node, DecodeError>(shift_node(parse_elem(s, pos)->Ok_0, d)),
    decreases s.len() - pos, 0int,
{
    let n = parse_elem(s, pos)->Ok_0;
    lemma_parse_elem_bounds(s, pos);
    assert(t[pos + d] == s[pos]);
    if crate::grammar::is_digit(s[pos]) {
        lemma_parse_str_shift(s, pos, t, d);
    } else if s[pos] == crate::grammar::INT_TAG {
        lemma_parse_int_shift(s, pos, t, d);
    } else if s[pos] == crate::grammar::LIST_TAG {
        lemma_parse_items_shift(s, pos + 1, Seq::empty(), t, d);
        assert(shift_items(Seq::empty(), d) =~= Seq::<Node>::empty());
    } else {
        lemma_parse_pairs_shift(s, pos + 1, Seq::empty(), t, d);
        assert(shift_pairs(Seq::empty(), d) =~= Seq::<(Seq<u8>, Node)>::empty());
    }
}

/// A successfully parsed run of list items re-parses, shifted by `d`, in
/// any window that holds the same bytes over its range.
proof fn lemma_parse_items_shift(s: Seq<u8>, pos: int, acc: Seq<Node>, t: Seq<u8>, d: int)
    requires
        parse_items(s, pos, acc) is Ok,
        0 <= pos + d,
        parse_items(s, pos, acc)->Ok_0.1 + d <= t.len(),
        forall|k: int| pos <= k < parse_items(s, pos, acc)->Ok_0.1 ==> t[k + d] == s[k],
    ensures
        parse_items(t, pos + d, shift_items(acc, d)) == Ok::<(Seq<Node>, int), DecodeError>((
            shift_items(parse_items(s, pos, acc)->Ok_0.0, d),
            parse_items(s, pos, acc)->Ok_0.1 + d,
        )),
    decreases s.len() - pos, 1int,
{
    let (items, e) = parse_items(s, pos, acc)->Ok_0;
    lemma_parse_items_bounds(s, pos, acc);
    assert(t[pos + d] == s[pos]);
    if s[pos] == END_TAG {
    } else {
        let node = parse_elem(s, pos)->Ok_0;
        lemma_parse_elem_bounds(s, pos);
        lemma_parse_items_bounds(s, node.end(), acc.push(node));
        lemma_parse_elem_shift(s, pos, t, d);
        lemma_parse_items_shift(s, node.end(), acc.push(node), t, d);
        lemma_shift_items(acc, d);
        lemma_shift_items(acc.push(node), d);
        assert forall|i: int| 0 <= i < acc.len() + 1 implies shift_items(acc.push(node), d)[i]
            == shift_items(acc, d).push(shift_node(node, d))[i] by {
            assert(shift_items(acc.push(node), d)[i] == shift_node(acc.push(node)[i], d));
            if i < acc.len() {
                assert(acc.push(node)[i] == acc[i]);
            } else {
                assert(acc.push(node)[i] == node);
            }
        }
        assert(shift_items(acc.push(node), d) =~= shift_items(acc, d).push(shift_node(node, d)));
    }
}

/// A successfully parsed run of dictionary pairs re-parses, shifted by
/// `d`, in any window that holds the same bytes over its range.
proof fn lemma_parse_pairs_shift(
    s: Seq<u8>,
    pos: int,
    acc: Seq<(Seq<u8>, Node)>,
    t: Seq<u8>,
    d: int,
)
    requires
        parse_pairs(s, pos, acc) is Ok,
        0 <= pos + d,
        parse_pairs(s, pos, acc)->Ok_0.1 + d <= t.len(),
        forall|k: int| pos <= k < parse_pairs(s, pos, acc)->Ok_0.1 ==> t[k + d] == s[k],
    ensures
        parse_pairs(t, pos + d, shift_pairs(acc, d)) == Ok::<
            (Seq<(Seq<u8>, Node)>, int),
            DecodeError,
        >((shift_pairs(parse_pairs(s, pos, acc)->Ok_0.0, d), parse_pairs(s, pos, acc)->Ok_0.1 + d)),
    decreases s.len() - pos, 1int,
{
    let (pairs, e) = parse_pairs(s, pos, acc)->Ok_0;
    crate::grammar::lemma_parse_pairs_bounds(s, pos, acc);
    assert(t[pos + d] == s[pos]);
    if s[pos] == END_TAG {
    } else {
        let key_node = parse_str(s, pos)->Ok_0;
        lemma_parse_str_bounds(s, pos);
        let (key, kend) = match key_node {
            Node::Str { value, start: _, end } => (value, end),
            _ => arbitrary(),
        };
        let val = parse_elem(s, kend)->Ok_0;
        lemma_parse_elem_bounds(s, kend);
        crate::grammar::lemma_parse_pairs_bounds(s, val.end(), dict_insert(acc, key, val));
        lemma_parse_str_shift(s, pos, t, d);
        lemma_parse_elem_shift(s, kend, t, d);
        lemma_parse_pairs_shift(s, val.end(), dict_insert(acc, key, val), t, d);
        lemma_dict_insert_shift(acc, key, val, d);
    }
}

/// Every element of the tree parses in `s` at its own recorded start:
/// the root does, and so do all list items and dictionary values below it
/// (dictionary keys are byte strings, not elements).
pub open spec fn subtree_ok(s: Seq<u8>, n: Node) -> bool
    decreases n,
{
    &&& parse_elem(s, n.start()) == Ok::<Node, DecodeError>(n)
    &&& match n {
        Node::List { items, start: _, end: _ } => forall|i: int|
            0 <= i < items.len() ==> subtree_ok(s, #[trigger] items[i]),
        Node::Dict { pairs, start: _, end: _ } => forall|i: int|
            0 <= i < pairs.len() ==> subtree_ok(s, (#[trigger] pairs[i]).1),
        _ => true,
    }
}

/// Every pair of an ordered insertion either carries the inserted value or
/// was already present.
proof fn lemma_dict_insert_values(ps: Seq<(Seq<u8>, Node)>, key: Seq<u8>, val: Node)
    ensures
        forall|i: int|
            0 <= i < dict_insert(ps, key, val).len() ==> (#[trigger] dict_insert(ps, key, val)[i])
                == (key, val) || ps.contains(dict_insert(ps, key, val)[i]),
    decreases ps.len(),
{
    let out = dict_insert(ps, key, val);
    if ps.len() == 0 {
    } else if lex_lt(key, ps[0].0) {
        assert forall|i: int| 0 <= i < out.len() implies #[trigger] out[i] == (key, val)
            || ps.contains(out[i]) by {
            if i > 0 {
                assert(out[i] == ps[i - 1]);
            }
        }
    } else if key == ps[0].0 {
        assert forall|i: int| 0 <= i < out.len() implies #[trigger] out[i] == (key, val)
            || ps.contains(out[i]) by {
            if i > 0 {
                assert(out[i] == ps[i]);
            }
        }
    } else {
        lemma_dict_insert_values(ps.drop_first(), key, val);
        assert forall|i: int| 0 <= i < out.len() implies #[trigger] out[i] == (key, val)
            || ps.contains(out[i]) by {
            if i == 0 {
                assert(out[0] == ps[0]);
            } else {
                assert(out[i] == dict_insert(ps.drop_first(), key, val)[i - 1]);
                if out[i] != (key, val) {
                    let j = choose|j: int|
                        0 <= j < ps.drop_first().len() && ps.drop_first()[j] == out[i];
                    assert(ps[j + 1] == out[i]);
                }
            }
        }
    }
}

/// What one element's parse returns satisfies `subtree_ok`.
proof fn lemma_parse_elem_subtrees(s: Seq<u8>, pos: int)
    requires
        parse_elem(s, pos) is Ok,
    ensures
        subtree_ok(s, parse_elem(s, pos)->Ok_0),
    decreases s.len() - pos, 0int,
{
    let n = parse_elem(s, pos)->Ok_0;
    lemma_parse_elem_bounds(s, pos);
    if s[pos] == crate::grammar::LIST_TAG {
        lemma_parse_items_subtrees(s, pos + 1, Seq::empty());
    } else if s[pos] == crate::grammar::DICT_TAG {
        lemma_parse_pairs_subtrees(s, pos + 1, Seq::empty());
    }
}

/// What a run of list items parses to satisfies `subtree_ok` item by
/// item, given that the already-accumulated items do.
proof fn lemma_parse_items_subtrees(s: Seq<u8>, pos: int, acc: Seq<Node>)
    requires
        parse_items(s, pos, acc) is Ok,
        forall|i: int| 0 <= i < acc.len() ==> subtree_ok(s, #[trigger] acc[i]),
    ensures
        forall|i: int|
            0 <= i < parse_items(s, pos, acc)->Ok_0.0.len() ==> subtree_ok(
                s,
                #[trigger] parse_items(s, pos, acc)->Ok_0.0[i],
            ),
    decreases s.len() - pos, 1int,
{
    if s[pos] == END_TAG {
    } else {
        let node = parse_elem(s, pos)->Ok_0;
        lemma_parse_elem_bounds(s, pos);
        lemma_parse_elem_subtrees(s, pos);
        assert forall|i: int| 0 <= i < acc.push(node).len() implies subtree_ok(
            s,
            #[trigger] acc.push(node)[i],
        ) by {
            if i < acc.len() {
                assert(acc.push(node)[i] == acc[i]);
            } else {
                assert(acc.push(node)[i] == node);
            }
        }
        lemma_parse_items_subtrees(s, node.end(), acc.push(node));
    }
}

/// What a run of dictionary pairs parses to satisfies `subtree_ok` value
/// by value, given that the already-accumulated values do.
proof fn lemma_parse_pairs_subtrees(s: Seq<u8>, pos: int, acc: Seq<(Seq<u8>, Node)>)
    requires
        parse_pairs(s, pos, acc) is Ok,
        forall|i: int| 0 <= i < acc.len() ==> subtree_ok(s, (#[trigger] acc[i]).1),
    ensures
        forall|i: int|
            0 <= i < parse_pairs(s, pos, acc)->Ok_0.0.len() ==> subtree_ok(
                s,
                (#[trigger] parse_pairs(s, pos, acc)->Ok_0.0[i]).1,
            ),
    decreases s.len() - pos, 1int,
{
    if s[pos] == END_TAG {
    } else {
        let key_node = parse_str(s, pos)->Ok_0;
        lemma_parse_str_bounds(s, pos);
        let (key, kend) = match key_node {
            Node::Str { value, start: _, end } => (value, end),
            _ => arbitrary(),
        };
        let val = parse_elem(s, kend)->Ok_0;
        lemma_parse_elem_bounds(s, kend);
        lemma_parse_elem_subtrees(s, kend);
        lemma_dict_insert_values(acc, key, val);
        let inserted = dict_insert(acc, key, val);
        assert forall|i: int| 0 <= i < inserted.len() implies subtree_ok(
            s,
            (#[trigger] inserted[i]).1,
        ) by {
            if inserted[i] != (key, val) {
                let j = choose|j: int| 0 <= j < acc.len() && acc[j] == inserted[i];
                assert(subtree_ok(s, acc[j].1));
            }
        }
        lemma_parse_pairs_subtrees(s, val.end(), inserted);
    }
}

/// Every element of the tree re-parses from its own recorded slice of the
/// buffer: `s[start..end)` parses to the element itself, offsets rebased
/// to the slice; and the same holds below it.
pub open spec fn reparse_ok(s: Seq<u8>, n: Node) -> bool
    decreases n,
{
    &&& parse_elem(s.subrange(n.start(), n.end()), 0) == Ok::<Node, DecodeError>(
        shift_node(n, -n.start()),
    )
    &&& match n {
        Node::List { items, start: _, end: _ } => forall|i: int|
            0 <= i < items.len() ==> reparse_ok(s, #[trigger] items[i]),
        Node::Dict { pairs, start: _, end: _ } => forall|i: int|
            0 <= i < pairs.len() ==> reparse_ok(s, (#[trigger] pairs[i]).1),
        _ => true,
    }
}

/// An element that parses at its own start re-parses from its slice.
proof fn lemma_subtree_reparse(s: Seq<u8>, n: Node)
    requires
        subtree_ok(s, n),
    ensures
        reparse_ok(s, n),
    decreases n,
{
    lemma_parse_elem_bounds(s, n.start());
    let t = s.subrange(n.start(), n.end());
    lemma_parse_elem_shift(s, n.start(), t, -n.start());
    match n {
        Node::List { items, start: _, end: _ } => {
            assert forall|i: int| 0 <= i < items.len() implies reparse_ok(
                s,
                #[trigger] items[i],
            ) by {
                lemma_subtree_reparse(s, items[i]);
            }
        },
        Node::Dict { pairs, start: _, end: _ } => {
            assert forall|i: int| 0 <= i < pairs.len() implies reparse_ok(
                s,
                (#[trigger] pairs[i]).1,
            ) by {
                lemma_subtree_reparse(s, pairs[i].1);
            }
        },
        _ => {},
    }
}

/// Round trip by offset: for every element of a decoded tree, the
/// recorded range `[start, end)` slices out of the original buffer
/// exactly the bytes that re-parse to that element (offsets rebased to
/// the slice).
pub proof fn lemma_round_trip_by_offset(s: Seq<u8>, root: Node)
    requires
        parse_elem(s, 0) == Ok::<Node, DecodeError>(root),
    ensures
        reparse_ok(s, root),
{
    lemma_parse_elem_subtrees(s, 0);
    lemma_subtree_reparse(s, root);
}

/// Decoding is deterministic: two decodes of the same buffer return
/// structurally equal trees, or the same error.
pub proof fn lemma_decode_deterministic(
    s: Seq<u8>,
    r1: Result<crate::bencoding::BencodeElement, DecodeError>,
    r2: Result<crate::bencoding::BencodeElement, DecodeError>,
)
    requires
        crate::bencoding::result_matches(r1, parse_elem(s, 0)),
        crate::bencoding::result_matches(r2, parse_elem(s, 0)),
    ensures
        match (r1, r2) {
            (Ok(a), Ok(b)) => a@ == b@,
            (Err(a), Err(b)) => a == b,
            _ => false,
        },
{
}

/// Strict lexicographic order is transitive.
proof fn lemma_lex_lt_trans(a: Seq<u8>, b: Seq<u8>, c: Seq<u8>)
    requires
        lex_lt(a, b),
        lex_lt(b, c),
    ensures
        lex_lt(a, c),
    decreases a.len(),
{
    if a.len() > 0 && b.len() > 0 && c.len() > 0 {
        if a[0] == b[0] && b[0] == c[0] {
            lemma_lex_lt_trans(a.drop_first(), b.drop_first(), c.drop_first());
        }
    }
}

/// Ordered insertion keeps dictionary keys strictly ascending: the model
/// holds its pairs in ascending byte order of the keys by construction.
pub proof fn lemma_dict_insert_sorted(ps: Seq<(Seq<u8>, Node)>, key: Seq<u8>, val: Node)
    requires
        crate::model::pairs_sorted(ps),
    ensures
        crate::model::pairs_sorted(dict_insert(ps, key, val)),
    decreases ps.len(),
{
    let out = dict_insert(ps, key, val);
    if ps.len() == 0 {
    } else if lex_lt(key, ps[0].0) {
        assert forall|i: int, j: int| 0 <= i < j < out.len() implies lex_lt(
            (#[trigger] out[i]).0,
            (#[trigger] out[j]).0,
        ) by {
            assert(out[j] == ps[j - 1]);
            if i == 0 {
                if j > 1 {
                    lemma_lex_lt_trans(key, ps[0].0, ps[j - 1].0);
                }
            } else {
                assert(out[i] == ps[i - 1]);
            }
        }
    } else if key == ps[0].0 {
        assert forall|i: int, j: int| 0 <= i < j < out.len() implies lex_lt(
            (#[trigger] out[i]).0,
            (#[trigger] out[j]).0,
        ) by {
            assert(out[j] == ps[j]);
            if i > 0 {
                assert(out[i] == ps[i]);
            }
        }
    } else {
        crate::model::lemma_lex_trichotomy(key, ps[0].0);
        assert(crate::model::pairs_sorted(ps.drop_first())) by {
            assert forall|i: int, j: int|
                0 <= i < j < ps.drop_first().len() implies lex_lt(
                (#[trigger] ps.drop_first()[i]).0,
                (#[trigger] ps.drop_first()[j]).0,
            ) by {
                assert(ps.drop_first()[i] == ps[i + 1]);
                assert(ps.drop_first()[j] == ps[j + 1]);
            }
        }
        lemma_dict_insert_sorted(ps.drop_first(), key, val);
        lemma_dict_insert_values(ps.drop_first(), key, val);
        let rest = dict_insert(ps.drop_first(), key, val);
        assert forall|i: int, j: int| 0 <= i < j < out.len() implies lex_lt(
            (#[trigger] out[i]).0,
            (#[trigger] out[j]).0,
        ) by {
            if i == 0 {
                assert(out[0] == ps[0]);
                assert(out[j] == rest[j - 1]);
                if out[j] == (key, val) {
                } else {
                    let m = choose|m: int|
                        0 <= m < ps.drop_first().len() && ps.drop_first()[m] == rest[j - 1];
                    assert(ps[m + 1] == rest[j - 1]);
                }
            } else {
                assert(out[i] == rest[i - 1]);
                assert(out[j] == rest[j - 1]);
            }
        }
    }
}

/// The later value wins: looking up a key right after inserting it finds
/// the inserted value, and every other key is untouched.
pub proof fn lemma_dict_insert_lookup(ps: Seq<(Seq<u8>, Node)>, key: Seq<u8>, val: Node)
    ensures
        crate::model::pairs_lookup(dict_insert(ps, key, val), key) == Some(val),
        forall|other: Seq<u8>|
            other != key ==> #[trigger] crate::model::pairs_lookup(dict_insert(ps, key, val), other)
                == crate::model::pairs_lookup(ps, other),
    decreases ps.len(),
{
    let out = dict_insert(ps, key, val);
    if ps.len() == 0 {
        assert(out[0] == (key, val));
        assert forall|other: Seq<u8>| other != key implies #[trigger] crate::model::pairs_lookup(
            out,
            other,
        ) == crate::model::pairs_lookup(ps, other) by {
            assert(out.drop_first() =~= Seq::<(Seq<u8>, Node)>::empty());
            assert(crate::model::pairs_lookup(Seq::<(Seq<u8>, Node)>::empty(), other) is None);
            assert(crate::model::pairs_lookup(out, other) is None);
        }
    } else if lex_lt(key, ps[0].0) {
        crate::model::lemma_lex_trichotomy(key, ps[0].0);
        assert(out[0] == (key, val));
        assert(out.drop_first() =~= ps);
        assert forall|other: Seq<u8>| other != key implies #[trigger] crate::model::pairs_lookup(
            out,
            other,
        ) == crate::model::pairs_lookup(ps, other) by {}
    } else if key == ps[0].0 {
        assert(out[0] == (key, val));
        assert(out.drop_first() =~= ps.drop_first());
        assert forall|other: Seq<u8>| other != key implies #[trigger] crate::model::pairs_lookup(
            out,
            other,
        ) == crate::model::pairs_lookup(ps, other) by {
            assert(crate::model::pairs_lookup(ps, other) == crate::model::pairs_lookup(
                ps.drop_first(),
                other,
            ));
        }
    } else {
        crate::model::lemma_lex_trichotomy(key, ps[0].0);
        lemma_dict_insert_lookup(ps.drop_first(), key, val);
        assert(out[0] == ps[0]);
        assert(out.drop_first() =~= dict_insert(ps.drop_first(), key, val));
        assert(crate::model::pairs_lookup(out, key) == Some(val));
        assert forall|other: Seq<u8>| other != key implies #[trigger] crate::model::pairs_lookup(
            out,
            other,
        ) == crate::model::pairs_lookup(ps, other) by {
            if other != ps[0].0 {
                assert(crate::model::pairs_lookup(out, other) == crate::model::pairs_lookup(
                    dict_insert(ps.drop_first(), key, val),
                    other,
                ));
                assert(crate::model::pairs_lookup(ps, other) == crate::model::pairs_lookup(
                    ps.drop_first(),
                    other,
                ));
            }
        }
    }
}

/// Every dictionary of the tree holds its pairs in strictly ascending
/// byte order of the keys.
pub open spec fn dicts_sorted(n: Node) -> bool
    decreases n,
{
    match n {
        Node::List { items, start: _, end: _ } => forall|i: int|
            0 <= i < items.len() ==> dicts_sorted(#[trigger] items[i]),
        Node::Dict { pairs, start: _, end: _ } => crate::model::pairs_sorted(pairs) && forall|
            i: int,
        |
            0 <= i < pairs.len() ==> dicts_sorted((#[trigger] pairs[i]).1),
        _ => true,
    }
}

/// What one element's parse returns has all its dictionaries sorted.
proof fn lemma_parse_elem_sorted(s: Seq<u8>, pos: int)
    requires
        parse_elem(s, pos) is Ok,
    ensures
        dicts_sorted(parse_elem(s, pos)->Ok_0),
    decreases s.len() - pos, 0int,
{
    lemma_parse_elem_bounds(s, pos);
    if s[pos] == crate::grammar::LIST_TAG {
        lemma_parse_items_sorted(s, pos + 1, Seq::empty());
    } else if s[pos] == crate::grammar::DICT_TAG {
        lemma_parse_pairs_sorted(s, pos + 1, Seq::empty());
    }
}

/// What a run of list items parses to has all its dictionaries sorted,
/// given that the already-accumulated items do.
proof fn lemma_parse_items_sorted(s: Seq<u8>, pos: int, acc: Seq<Node>)
    requires
        parse_items(s, pos, acc) is Ok,
        forall|i: int| 0 <= i < acc.len() ==> dicts_sorted(#[trigger] acc[i]),
    ensures
        forall|i: int|
            0 <= i < parse_items(s, pos, acc)->Ok_0.0.len() ==> dicts_sorted(
                #[trigger] parse_items(s, pos, acc)->Ok_0.0[i],
            ),
    decreases s.len() - pos, 1int,
{
    if s[pos] == END_TAG {
    } else {
        let node = parse_elem(s, pos)->Ok_0;
        lemma_parse_elem_bounds(s, pos);
        lemma_parse_elem_sorted(s, pos);
        assert forall|i: int| 0 <= i < acc.push(node).len() implies dicts_sorted(
            #[trigger] acc.push(node)[i],
        ) by {
            if i < acc.len() {
                assert(acc.push(node)[i] == acc[i]);
            } else {
                assert(acc.push(node)[i] == node);
            }
        }
        lemma_parse_items_sorted(s, node.end(), acc.push(node));
    }
}

/// What a run of dictionary pairs parses to is sorted and has all its
/// dictionaries sorted, given that the accumulated pairs are and do.
proof fn lemma_parse_pairs_sorted(s: Seq<u8>, pos: int, acc: Seq<(Seq<u8>, Node)>)
    requires
        parse_pairs(s, pos, acc) is Ok,
        crate::model::pairs_sorted(acc),
        forall|i: int| 0 <= i < acc.len() ==> dicts_sorted((#[trigger] acc[i]).1),
    ensures
        crate::model::pairs_sorted(parse_pairs(s, pos, acc)->Ok_0.0),
        forall|i: int|
            0 <= i < parse_pairs(s, pos, acc)->Ok_0.0.len() ==> dicts_sorted(
                (#[trigger] parse_pairs(s, pos, acc)->Ok_0.0[i]).1,
            ),
    decreases s.len() - pos, 1int,
{
    if s[pos] == END_TAG {
    } else {
        let key_node = parse_str(s, pos)->Ok_0;
        lemma_parse_str_bounds(s, pos);
        let (key, kend) = match key_node {
            Node::Str { value, start: _, end } => (value, end),
            _ => arbitrary(),
        };
        let val = parse_elem(s, kend)->Ok_0;
        lemma_parse_elem_bounds(s, kend);
        lemma_parse_elem_sorted(s, kend);
        lemma_dict_insert_sorted(acc, key, val);
        lemma_dict_insert_values(acc, key, val);
        let inserted = dict_insert(acc, key, val);
        assert forall|i: int| 0 <= i < inserted.len() implies dicts_sorted(
            (#[trigger] inserted[i]).1,
        ) by {
            if inserted[i] != (key, val) {
                let j = choose|j: int| 0 <= j < acc.len() && acc[j] == inserted[i];
                assert(dicts_sorted(acc[j].1));
            }
        }
        lemma_parse_pairs_sorted(s, val.end(), inserted);
    }
}

/// Every dictionary of a decoded tree holds its pairs in strictly
/// ascending byte order of the keys, by construction.
pub proof fn lemma_decode_dicts_sorted(s: Seq<u8>, root: Node)
    requires
        parse_elem(s, 0) == Ok::<Node, DecodeError>(root),
    ensures
        dicts_sorted(root),
{
    lemma_parse_elem_sorted(s, 0);
}

/// Offsets are well formed throughout the tree: every element's range is
/// non-empty and ordered, and a child's range lies strictly inside its
/// parent's.
pub open spec fn ranges_wf(n: Node) -> bool
    decreases n,
{
    match n {
        Node::Int { value: _, start, end } => start < end,
        Node::Str { value: _, start, end } => start < end,
        Node::List { items, start, end } => start < end && forall|i: int|
            0 <= i < items.len() ==> start < (#[trigger] items[i]).start() && items[i].end() < end
                && ranges_wf(items[i]),
        Node::Dict { pairs, start, end } => start < end && forall|i: int|
            0 <= i < pairs.len() ==> start < (#[trigger] pairs[i]).1.start() && pairs[i].1.end()
                < end && ranges_wf(pairs[i].1),
    }
}

/// What one element's parse returns has well-formed ranges.
proof fn lemma_parse_elem_ranges(s: Seq<u8>, pos: int)
    requires
        parse_elem(s, pos) is Ok,
    ensures
        ranges_wf(parse_elem(s, pos)->Ok_0),
    decreases s.len() - pos, 0int,
{
    let n = parse_elem(s, pos)->Ok_0;
    lemma_parse_elem_bounds(s, pos);
    if crate::grammar::is_digit(s[pos]) || s[pos] == crate::grammar::INT_TAG {
    } else if s[pos] == crate::grammar::LIST_TAG {
        lemma_parse_items_ranges(s, pos + 1, Seq::empty());
    } else {
        lemma_parse_pairs_ranges(s, pos + 1, Seq::empty(), pos + 1);
    }
}

/// Items already accumulated stay as they are; every item parsed from
/// `pos` on starts at or after `pos`, ends before the closing `e`, and
/// has well-formed ranges.
proof fn lemma_parse_items_ranges(s: Seq<u8>, pos: int, acc: Seq<Node>)
    requires
        parse_items(s, pos, acc) is Ok,
    ensures
        parse_items(s, pos, acc)->Ok_0.0.len() >= acc.len(),
        forall|i: int|
            0 <= i < acc.len() ==> #[trigger] parse_items(s, pos, acc)->Ok_0.0[i] == acc[i],
        forall|i: int|
            acc.len() <= i < parse_items(s, pos, acc)->Ok_0.0.len() ==> {
                let item = #[trigger] parse_items(s, pos, acc)->Ok_0.0[i];
                pos <= item.start() && item.end() < parse_items(s, pos, acc)->Ok_0.1 && ranges_wf(
                    item,
                )
            },
    decreases s.len() - pos, 1int,
{
    if s[pos] == END_TAG {
    } else {
        let node = parse_elem(s, pos)->Ok_0;
        lemma_parse_elem_bounds(s, pos);
        lemma_parse_elem_ranges(s, pos);
        lemma_parse_items_bounds(s, node.end(), acc.push(node));
        lemma_parse_items_ranges(s, node.end(), acc.push(node));
        let out = parse_items(s, pos, acc)->Ok_0.0;
        let e = parse_items(s, pos, acc)->Ok_0.1;
        assert forall|i: int| acc.len() <= i < out.len() implies {
            let item = #[trigger] out[i];
            pos <= item.start() && item.end() < e && ranges_wf(item)
        } by {
            if i < acc.push(node).len() {
                assert(out[i] == acc.push(node)[i]);
                assert(acc.push(node)[i] == node);
            }
        }
    }
}

/// Values already accumulated stay within their bounds; every value
/// parsed from `pos` on starts after `lo - 1`, ends before the closing
/// `e`, and has well-formed ranges.
proof fn lemma_parse_pairs_ranges(s: Seq<u8>, pos: int, acc: Seq<(Seq<u8>, Node)>, lo: int)
    requires
        parse_pairs(s, pos, acc) is Ok,
        lo <= pos,
        forall|i: int|
            0 <= i < acc.len() ==> {
                let v = (#[trigger] acc[i]).1;
                lo <= v.start() && v.end() <= pos && ranges_wf(v)
            },
    ensures
        forall|i: int|
            0 <= i < parse_pairs(s, pos, acc)->Ok_0.0.len() ==> {
                let v = (#[trigger] parse_pairs(s, pos, acc)->Ok_0.0[i]).1;
                lo <= v.start() && v.end() < parse_pairs(s, pos, acc)->Ok_0.1 && ranges_wf(v)
            },
    decreases s.len() - pos, 1int,
{
    if s[pos] == END_TAG {
    } else {
        let key_node = parse_str(s, pos)->Ok_0;
        lemma_parse_str_bounds(s, pos);
        let (key, kend) = match key_node {
            Node::Str { value, start: _, end } => (value, end),
            _ => arbitrary(),
        };
        let val = parse_elem(s, kend)->Ok_0;
        lemma_parse_elem_bounds(s, kend);
        lemma_parse_elem_ranges(s, kend);
        lemma_dict_insert_values(acc, key, val);
        let inserted = dict_insert(acc, key, val);
        assert forall|i: int| 0 <= i < inserted.len() implies {
            let v = (#[trigger] inserted[i]).1;
            lo <= v.start() && v.end() <= val.end() && ranges_wf(v)
        } by {
            if inserted[i] != (key, val) {
                let j = choose|j: int| 0 <= j < acc.len() && acc[j] == inserted[i];
                assert(lo <= acc[j].1.start() && acc[j].1.end() <= pos && ranges_wf(acc[j].1));
            }
        }
        lemma_parse_pairs_ranges(s, val.end(), inserted, lo);
    }
}

/// Everything the decoder guarantees of a tree it returns, in one
/// statement over the executable result: offsets are well formed and
/// nested, every element re-parses from its recorded slice, and every
/// dictionary holds its keys in ascending order.
pub proof fn lemma_decoded_tree_well_formed(
    content: Seq<u8>,
    r: Result<crate::bencoding::BencodeElement, DecodeError>,
)
    requires
        crate::bencoding::result_matches(r, parse_elem(content, 0)),
        r is Ok,
    ensures
        ranges_wf((r->Ok_0)@),
        reparse_ok(content, (r->Ok_0)@),
        dicts_sorted((r->Ok_0)@),
        (r->Ok_0)@.start() == 0,
        0 < (r->Ok_0)@.end() <= content.len(),
{
    lemma_decode_ranges_wf(content, (r->Ok_0)@);
    lemma_round_trip_by_offset(content, (r->Ok_0)@);
    lemma_decode_dicts_sorted(content, (r->Ok_0)@);
}

/// A decoded tree's offsets are well formed: the root's range starts at
/// the first byte and ends within the buffer, and every child's range
/// lies strictly inside its parent's.
pub proof fn lemma_decode_ranges_wf(s: Seq<u8>, root: Node)
    requires
        parse_elem(s, 0) == Ok::<Node, DecodeError>(root),
    ensures
        ranges_wf(root),
        root.start() == 0,
        0 < root.end() <= s.len(),
{
    lemma_parse_elem_bounds(s, 0);
    lemma_parse_elem_ranges(s, 0);
}

} // verus!
