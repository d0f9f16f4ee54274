//! Human-readable rendering of a decoded tree.
//!
//! The format is reproducible: integers as decimal literals; byte strings
//! double-quoted, truncated with a trailing `...` beyond a fixed display
//! threshold; lists bracketed with each item on its own line two columns
//! deeper; dictionaries braced with each `"key": value` pair on its own
//! line and the value's nested content four columns deeper, keys in their
//! stored ascending order. The rendering is returned as bytes (payloads
//! are raw bytes, not text); printing them is the caller's business.

use vstd::prelude::*;
use crate::bencoding::{lemma_view_elems, lemma_view_pairs, view_elems, view_pairs,
    BencodeElement};
use crate::grammar::COLON;
use crate::model::Node;

verus! {

/// The bytes the rendering is built from.
pub const SPACE: u8 = 32;

pub const QUOTE: u8 = 34;

pub const DOT: u8 = 46;

pub const LBRACKET: u8 = 91;

pub const RBRACKET: u8 = 93;

pub const LBRACE: u8 = 123;

pub const RBRACE: u8 = 125;

pub const NEWLINE: u8 = 10;

/// Byte strings longer than this many bytes are truncated for display.
pub const DISPLAY_THRESHOLD: usize = 120;

/// `n` spaces.
pub open spec fn spaces(n: int) -> Seq<u8>
    decreases n,
{
    if n <= 0 {
        Seq::empty()
    } else {
        spaces(n - 1).push(SPACE)
    }
}

/// Decimal digits of a positive value (empty for 0 and below).
pub open spec fn dec_repr_nat(n: int) -> Seq<u8>
    decreases n,
{
    if n <= 0 {
        Seq::empty()
    } else {
        dec_repr_nat(n / 10).push((48 + n % 10) as u8)
    }
}

/// Decimal rendering of an integer, sign included.
pub open spec fn dec_repr(n: int) -> Seq<u8> {
    if n == 0 {
        seq![48u8]
    } else if n < 0 {
        seq![45u8] + dec_repr_nat(-n)
    } else {
        dec_repr_nat(n)
    }
}

/// `s`, unless longer than `max`: then its first `max - 3` bytes with
/// `...` appended.
pub open spec fn ellipsized(s: Seq<u8>, max: int) -> Seq<u8> {
    if s.len() > max {
        s.take(max - 3) + seq![DOT, DOT, DOT]
    } else {
        s
    }
}

/// The rendering of one node at the given indent; an `attached` node
/// continues the line its key started, so it opens without padding.
pub open spec fn render(n: Node, indent: int, attached: bool) -> Seq<u8>
    decreases n,
{
    let pad = if attached {
        Seq::<u8>::empty()
    } else {
        spaces(indent)
    };
    match n {
        Node::Int { value, start: _, end: _ } => pad + dec_repr(value) + seq![NEWLINE],
        Node::Str { value, start: _, end: _ } => pad + seq![QUOTE] + ellipsized(
            value,
            DISPLAY_THRESHOLD as int,
        ) + seq![QUOTE, NEWLINE],
        Node::List { items, start: _, end: _ } => pad + seq![LBRACKET, NEWLINE] + render_items(
            items,
            indent + 2,
        ) + spaces(indent) + seq![RBRACKET, NEWLINE],
        Node::Dict { pairs, start: _, end: _ } => pad + seq![LBRACE, NEWLINE] + render_pairs(
            pairs,
            indent,
        ) + spaces(indent) + seq![RBRACE, NEWLINE],
    }
}

/// The renderings of a run of list items, each on its own line.
pub open spec fn render_items(items: Seq<Node>, indent: int) -> Seq<u8>
    decreases items,
{
    if items.len() == 0 {
        Seq::empty()
    } else {
        render(items[0], indent, false) + render_items(items.drop_first(), indent)
    }
}

/// The renderings of a run of dictionary pairs: the padded, quoted key,
/// then the value attached on the same line.
pub open spec fn render_pairs(pairs: Seq<(Seq<u8>, Node)>, indent: int) -> Seq<u8>
    decreases pairs,
{
    if pairs.len() == 0 {
        Seq::empty()
    } else {
        spaces(indent) + seq![SPACE, SPACE, QUOTE] + pairs[0].0 + seq![QUOTE, COLON, SPACE]
            + render(pairs[0].1, indent + 4, true) + render_pairs(pairs.drop_first(), indent)
    }
}

/// Nesting depth of a node: 0 for leaves.
pub open spec fn node_height(n: Node) -> int
    decreases n,
{
    match n {
        Node::Int { .. } => 0,
        Node::Str { .. } => 0,
        Node::List { items, start: _, end: _ } => 1 + items_height(items),
        Node::Dict { pairs, start: _, end: _ } => 1 + pairs_height(pairs),
    }
}

/// Greatest height among a run of items (0 when empty).
pub open spec fn items_height(items: Seq<Node>) -> int
    decreases items,
{
    if items.len() == 0 {
        0
    } else {
        let h0 = node_height(items[0]);
        let hr = items_height(items.drop_first());
        if h0 >= hr {
            h0
        } else {
            hr
        }
    }
}

/// Greatest height among a run of pair values (0 when empty).
pub open spec fn pairs_height(pairs: Seq<(Seq<u8>, Node)>) -> int
    decreases pairs,
{
    if pairs.len() == 0 {
        0
    } else {
        let h0 = node_height(pairs[0].1);
        let hr = pairs_height(pairs.drop_first());
        if h0 >= hr {
            h0
        } else {
            hr
        }
    }
}

/// Heights are never negative.
proof fn lemma_node_height_nonneg(n: Node)
    ensures
        node_height(n) >= 0,
    decreases n,
{
    match n {
        Node::List { items, start: _, end: _ } => {
            lemma_items_height_nonneg(items);
        },
        Node::Dict { pairs, start: _, end: _ } => {
            lemma_pairs_height_nonneg(pairs);
        },
        _ => {},
    }
}

proof fn lemma_items_height_nonneg(items: Seq<Node>)
    ensures
        items_height(items) >= 0,
    decreases items,
{
    if items.len() > 0 {
        lemma_node_height_nonneg(items[0]);
        lemma_items_height_nonneg(items.drop_first());
    }
}

proof fn lemma_pairs_height_nonneg(pairs: Seq<(Seq<u8>, Node)>)
    ensures
        pairs_height(pairs) >= 0,
    decreases pairs,
{
    if pairs.len() > 0 {
        lemma_node_height_nonneg(pairs[0].1);
        lemma_pairs_height_nonneg(pairs.drop_first());
    }
}

/// No item of a run stands taller than the run.
proof fn lemma_items_height_ge(items: Seq<Node>, i: int)
    requires
        0 <= i < items.len(),
    ensures
        node_height(items[i]) <= items_height(items),
    decreases items.len(),
{
    if i > 0 {
        lemma_items_height_ge(items.drop_first(), i - 1);
        assert(items.drop_first()[i - 1] == items[i]);
    }
}

/// No pair value of a run stands taller than the run.
proof fn lemma_pairs_height_ge(pairs: Seq<(Seq<u8>, Node)>, i: int)
    requires
        0 <= i < pairs.len(),
    ensures
        node_height(pairs[i].1) <= pairs_height(pairs),
    decreases pairs.len(),
{
    if i > 0 {
        lemma_pairs_height_ge(pairs.drop_first(), i - 1);
        assert(pairs.drop_first()[i - 1] == pairs[i]);
    }
}

/// Extending the rendered prefix of a run of items by one item.
proof fn lemma_render_items_take_step(items: Seq<Node>, indent: int, i: int)
    requires
        0 <= i < items.len(),
    ensures
        render_items(items.take(i + 1), indent) == render_items(items.take(i), indent) + render(
            items[i],
            indent,
            false,
        ),
    decreases i,
{
    if i == 0 {
        assert(items.take(1) =~= seq![items[0]]);
        assert(items.take(0) =~= Seq::<Node>::empty());
        assert(seq![items[0]].drop_first() =~= Seq::<Node>::empty());
        assert(render_items(Seq::<Node>::empty(), indent) == Seq::<u8>::empty());
        assert(render_items(seq![items[0]], indent) =~= render(items[0], indent, false)
            + Seq::<u8>::empty());
        assert(render_items(items.take(0), indent) + render(items[0], indent, false) =~= render(
            items[0],
            indent,
            false,
        ) + Seq::<u8>::empty());
    } else {
        lemma_render_items_take_step(items.drop_first(), indent, i - 1);
        assert(items.take(i + 1).drop_first() =~= items.drop_first().take(i));
        assert(items.take(i).drop_first() =~= items.drop_first().take(i - 1));
        assert(items.take(i + 1)[0] == items[0]);
        assert(items.take(i)[0] == items[0]);
        assert(items.drop_first()[i - 1] == items[i]);
        assert(render(items[0], indent, false) + (render_items(items.drop_first().take(i - 1),
            indent) + render(items[i], indent, false)) =~= (render(items[0], indent, false)
            + render_items(items.drop_first().take(i - 1), indent)) + render(
            items[i],
            indent,
            false,
        ));
    }
}

/// Extending the rendered prefix of a run of pairs by one pair.
proof fn lemma_render_pairs_take_step(pairs: Seq<(Seq<u8>, Node)>, indent: int, i: int)
    requires
        0 <= i < pairs.len(),
    ensures
        render_pairs(pairs.take(i + 1), indent) == render_pairs(pairs.take(i), indent) + (spaces(
            indent,
        ) + seq![SPACE, SPACE, QUOTE] + pairs[i].0 + seq![QUOTE, COLON, SPACE] + render(
            pairs[i].1,
            indent + 4,
            true,
        )),
    decreases i,
{
    let one = |p: (Seq<u8>, Node)| spaces(indent) + seq![SPACE, SPACE, QUOTE] + p.0 + seq![QUOTE,
        COLON, SPACE] + render(p.1, indent + 4, true);
    if i == 0 {
        assert(pairs.take(1) =~= seq![pairs[0]]);
        assert(pairs.take(0) =~= Seq::<(Seq<u8>, Node)>::empty());
        assert(seq![pairs[0]].drop_first() =~= Seq::<(Seq<u8>, Node)>::empty());
        assert(render_pairs(Seq::<(Seq<u8>, Node)>::empty(), indent) == Seq::<u8>::empty());
        assert(render_pairs(seq![pairs[0]], indent) =~= render_pairs(pairs.take(0), indent) + (
        spaces(indent) + seq![SPACE, SPACE, QUOTE] + pairs[0].0 + seq![QUOTE, COLON, SPACE]
            + render(pairs[0].1, indent + 4, true)));
    } else {
        lemma_render_pairs_take_step(pairs.drop_first(), indent, i - 1);
        assert(pairs.take(i + 1).drop_first() =~= pairs.drop_first().take(i));
        assert(pairs.take(i).drop_first() =~= pairs.drop_first().take(i - 1));
        assert(pairs.take(i + 1)[0] == pairs[0]);
        assert(pairs.take(i)[0] == pairs[0]);
        assert(pairs.drop_first()[i - 1] == pairs[i]);
        assert(one(pairs[0]) + (render_pairs(pairs.drop_first().take(i - 1), indent) + one(
            pairs[i],
        )) =~= (one(pairs[0]) + render_pairs(pairs.drop_first().take(i - 1), indent)) + one(
            pairs[i],
        ));
    }
}

/// Append `n` spaces.
#[verifier::loop_isolation(false)]
fn push_spaces(out: &mut Vec<u8>, n: usize)
    ensures
        final(out)@ == old(out)@ + spaces(n as int),
{
    let mut i: usize = 0;
    proof {
        assert(old(out)@ + spaces(0) =~= old(out)@);
    }
    while i < n
        invariant
            i <= n,
            out@ == old(out)@ + spaces(i as int),
        decreases n - i,
    {
        out.push(SPACE);
        i = i + 1;
    }
}

/// Append a copy of `add`.
#[verifier::loop_isolation(false)]
fn push_bytes(out: &mut Vec<u8>, add: &Vec<u8>)
    ensures
        final(out)@ == old(out)@ + add@,
{
    let n = add.len();
    let mut i: usize = 0;
    proof {
        assert(out@ =~= old(out)@ + add@.take(0));
    }
    while i < n
        invariant
            i <= n,
            out@ == old(out)@ + add@.take(i as int),
        decreases n - i,
    {
        out.push(add[i]);
        proof {
            assert(add@.take(i + 1) =~= add@.take(i as int).push(add@[i as int]));
        }
        i = i + 1;
    }
    proof {
        assert(add@.take(n as int) =~= add@);
    }
}

/// Decimal digits of a value, most significant first (empty for 0).
fn dec_digits(n: u64) -> (r: Vec<u8>)
    ensures
        r@ == dec_repr_nat(n as int),
    decreases n,
{
    if n == 0 {
        Vec::new()
    } else {
        let mut r = dec_digits(n / 10);
        r.push(48 + (n % 10) as u8);
        r
    }
}

/// The decimal rendering of a signed value, sign included.
fn int_to_decimal(value: i64) -> (r: Vec<u8>)
    ensures
        r@ == dec_repr(value as int),
{
    if value == 0 {
        let mut r: Vec<u8> = Vec::new();
        r.push(48);
        proof {
            assert(r@ =~= seq![48u8]);
        }
        r
    } else if value > 0 {
        dec_digits(value as u64)
    } else {
        let mag: u64 = if value == i64::MIN {
            9223372036854775808
        } else {
            (-value) as u64
        };
        let mut r: Vec<u8> = Vec::new();
        r.push(45);
        let digits = dec_digits(mag);
        push_bytes(&mut r, &digits);
        proof {
            assert(r@ =~= seq![45u8] + dec_repr_nat(mag as int));
        }
        r
    }
}

/// `s`, unless longer than `max_len` bytes: then its first `max_len - 3`
/// bytes with `...` appended.
pub fn ellipsize(s: &Vec<u8>, max_len: usize) -> (r: Vec<u8>)
    requires
        max_len >= 3,
    ensures
        r@ == ellipsized(s@, max_len as int),
{
    if s.len() > max_len {
        let mut r: Vec<u8> = Vec::new();
        let mut i: usize = 0;
        let keep = max_len - 3;
        proof {
            assert(r@ =~= s@.take(0));
        }
        #[verifier::loop_isolation(false)]
        while i < keep
            invariant
                i <= keep,
                r@ == s@.take(i as int),
            decreases keep - i,
        {
            r.push(s[i]);
            proof {
                assert(s@.take(i + 1) =~= s@.take(i as int).push(s@[i as int]));
            }
            i = i + 1;
        }
        r.push(DOT);
        r.push(DOT);
        r.push(DOT);
        proof {
            assert(r@ =~= s@.take(max_len - 3) + seq![DOT, DOT, DOT]);
        }
        r
    } else {
        let mut r: Vec<u8> = Vec::new();
        push_bytes(&mut r, s);
        proof {
            assert(r@ =~= s@);
        }
        r
    }
}

/// Render one element at the given indent; an `attached` element
/// continues the line its key started.
#[verifier::loop_isolation(false)]
#[verifier::rlimit(60)]
pub fn fmt_with_indent(element: &BencodeElement, indent: usize, attached: bool) -> (out: Vec<u8>)
    requires
        indent + 4 * node_height(element@) <= usize::MAX,
    ensures
        out@ == render(element@, indent as int, attached),
    decreases *element,
{
    let mut out: Vec<u8> = Vec::new();
    if !attached {
        push_spaces(&mut out, indent);
    }
    let ghost pad = if attached {
        Seq::<u8>::empty()
    } else {
        spaces(indent as int)
    };
    proof {
        assert(out@ =~= pad);
    }
    match element {
        BencodeElement::Int { value, start_index: _, end_index: _ } => {
            let digits = int_to_decimal(*value);
            push_bytes(&mut out, &digits);
            out.push(NEWLINE);
            proof {
                assert(out@ =~= (pad + dec_repr(*value as int)).push(NEWLINE));
                assert((pad + dec_repr(*value as int)).push(NEWLINE) =~= pad + dec_repr(
                    *value as int,
                ) + seq![NEWLINE]);
            }
        },
        BencodeElement::Str { value, start_index: _, end_index: _ } => {
            out.push(QUOTE);
            let shown = ellipsize(value, DISPLAY_THRESHOLD);
            push_bytes(&mut out, &shown);
            out.push(QUOTE);
            out.push(NEWLINE);
            proof {
                assert(out@ =~= pad + seq![QUOTE] + ellipsized(
                    value@,
                    DISPLAY_THRESHOLD as int,
                ) + seq![QUOTE, NEWLINE]);
            }
        },
        BencodeElement::List { value, start_index: _, end_index: _ } => {
            out.push(LBRACKET);
            out.push(NEWLINE);
            let ghost items = view_elems(value@);
            let ghost base = pad + seq![LBRACKET, NEWLINE];
            proof {
                lemma_view_elems(value@);
                assert(out@ =~= base + render_items(items.take(0), indent + 2));
            }
            let n = value.len();
            let mut i: usize = 0;
            while i < n
                invariant
                    i <= n,
                    out@ == base + render_items(items.take(i as int), indent + 2),
                decreases n - i,
            {
                proof {
                    lemma_items_height_ge(items, i as int);
                    lemma_node_height_nonneg(items[i as int]);
                }
                let child = fmt_with_indent(&value[i], indent + 2, false);
                push_bytes(&mut out, &child);
                proof {
                    lemma_render_items_take_step(items, indent + 2, i as int);
                    assert(out@ =~= base + render_items(items.take(i + 1), indent + 2));
                }
                i = i + 1;
            }
            push_spaces(&mut out, indent);
            out.push(RBRACKET);
            out.push(NEWLINE);
            proof {
                assert(items.take(n as int) =~= items);
                assert(out@ =~= pad + seq![LBRACKET, NEWLINE] + render_items(items, indent + 2)
                    + spaces(indent as int) + seq![RBRACKET, NEWLINE]);
            }
        },
        BencodeElement::Dict { value, start_index: _, end_index: _ } => {
            out.push(LBRACE);
            out.push(NEWLINE);
            let ghost pairs = view_pairs(value@);
            let ghost base = pad + seq![LBRACE, NEWLINE];
            proof {
                lemma_view_pairs(value@);
                assert(out@ =~= base + render_pairs(pairs.take(0), indent as int));
            }
            let n = value.len();
            let mut i: usize = 0;
            while i < n
                invariant
                    i <= n,
                    out@ == base + render_pairs(pairs.take(i as int), indent as int),
                decreases n - i,
            {
                push_spaces(&mut out, indent);
                out.push(SPACE);
                out.push(SPACE);
                out.push(QUOTE);
                push_bytes(&mut out, &value[i].0);
                out.push(QUOTE);
                out.push(COLON);
                out.push(SPACE);
                proof {
                    lemma_pairs_height_ge(pairs, i as int);
                    lemma_node_height_nonneg(pairs[i as int].1);
                }
                let child = fmt_with_indent(&value[i].1, indent + 4, true);
                push_bytes(&mut out, &child);
                proof {
                    lemma_render_pairs_take_step(pairs, indent as int, i as int);
                    assert(out@ =~= base + render_pairs(pairs.take(i + 1), indent as int));
                }
                i = i + 1;
            }
            push_spaces(&mut out, indent);
            out.push(RBRACE);
            out.push(NEWLINE);
            proof {
                assert(pairs.take(n as int) =~= pairs);
                assert(out@ =~= pad + seq![LBRACE, NEWLINE] + render_pairs(pairs, indent as int)
                    + spaces(indent as int) + seq![RBRACE, NEWLINE]);
            }
        },
    }
    out
}

/// The human-readable rendering of an element, as the bytes of a text
/// that starts two columns in.
pub fn pretty_print(element: &BencodeElement) -> (out: Vec<u8>)
    requires
        2 + 4 * node_height(element@) <= usize::MAX,
    ensures
        out@ == render(element@, 2, false),
{
    fmt_with_indent(element, 2, false)
}

} // verus!
