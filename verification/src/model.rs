//! Mathematical model of a decoded bencode tree.
//!
//! `Node` is the ghost counterpart of the executable element type: it carries
//! the decoded value of every element together with the half-open byte range
//! `[start, end)` that the element occupies in the source buffer. Dictionary
//! contents are modelled as a sequence of key/value pairs kept in strictly
//! ascending byte order of the keys.

use vstd::prelude::*;

verus! {

/// A typed failure of the decoder. Decoding never panics: every malformed
/// input is reported as one of these.
#[derive(Debug, Clone, Copy, PartialEq, Eq, Structural)]
pub enum DecodeError {
    /// End of input was reached before a production completed, or a declared
    /// string length exceeds the remaining buffer.
    Truncated,
    /// The leading byte of an element is not a digit, `i`, `l` or `d`.
    InvalidTag,
    /// A length prefix or integer body is not a well-formed decimal number
    /// (or does not fit in a signed 64-bit integer).
    MalformedNumber,
}

/// Ghost model of one decoded element: its value and the byte range
/// `[start, end)` it occupies in the source buffer.
#[verifier::ext_equal]
#[allow(inconsistent_fields)]
pub enum Node {
    Int { value: int, start: int, end: int },
    Str { value: Seq<u8>, start: int, end: int },
    List { items: Seq<Node>, start: int, end: int },
    Dict { pairs: Seq<(Seq<u8>, Node)>, start: int, end: int },
}

impl Node {
    /// Offset of the first byte of this element's encoding.
    pub open spec fn start(self) -> int {
        match self {
            Node::Int { start, .. } => start,
            Node::Str { start, .. } => start,
            Node::List { start, .. } => start,
            Node::Dict { start, .. } => start,
        }
    }

    /// Offset one past the last byte of this element's encoding.
    pub open spec fn end(self) -> int {
        match self {
            Node::Int { end, .. } => end,
            Node::Str { end, .. } => end,
            Node::List { end, .. } => end,
            Node::Dict { end, .. } => end,
        }
    }
}

/// Strict lexicographic order on byte strings: `a` comes before `b` in
/// ascending byte order.
pub open spec fn lex_lt(a: Seq<u8>, b: Seq<u8>) -> bool
    decreases a.len(),
{
    if b.len() == 0 {
        false
    } else if a.len() == 0 {
        true
    } else if a[0] < b[0] {
        true
    } else if a[0] > b[0] {
        false
    } else {
        lex_lt(a.drop_first(), b.drop_first())
    }
}

/// Exactly one of `lex_lt(a, b)`, `a == b`, `lex_lt(b, a)` holds.
pub proof fn lemma_lex_trichotomy(a: Seq<u8>, b: Seq<u8>)
    ensures
        lex_lt(a, b) ==> !(a == b) && !lex_lt(b, a),
        a == b ==> !lex_lt(a, b) && !lex_lt(b, a),
        !lex_lt(a, b) && !lex_lt(b, a) ==> a == b,
    decreases a.len(),
{
    if a.len() == 0 || b.len() == 0 {
        if a.len() == 0 && b.len() == 0 {
            assert(a =~= b);
        }
    } else {
        if a[0] == b[0] {
            lemma_lex_trichotomy(a.drop_first(), b.drop_first());
            if !lex_lt(a, b) && !lex_lt(b, a) {
                assert(a.drop_first() =~= b.drop_first());
                assert forall|i: int| 0 <= i < a.len() implies a[i] == b[i] by {
                    if i >= 1 {
                        assert(a[i] == a.drop_first()[i - 1]);
                        assert(b[i] == b.drop_first()[i - 1]);
                    }
                }
                assert(a =~= b);
            }
            if a == b {
                assert(a.drop_first() =~= b.drop_first());
            }
        }
    }
}

/// Insert a key/value pair into a pair sequence held in ascending key order,
/// overwriting the value of an already-present key (last write wins).
pub open spec fn dict_insert(
    pairs: Seq<(Seq<u8>, Node)>,
    key: Seq<u8>,
    val: Node,
) -> Seq<(Seq<u8>, Node)>
    decreases pairs.len(),
{
    if pairs.len() == 0 {
        seq![(key, val)]
    } else if lex_lt(key, pairs[0].0) {
        seq![(key, val)] + pairs
    } else if key == pairs[0].0 {
        seq![(key, val)] + pairs.drop_first()
    } else {
        seq![pairs[0]] + dict_insert(pairs.drop_first(), key, val)
    }
}

/// The value stored under `key` in a pair sequence, if any.
pub open spec fn pairs_lookup(pairs: Seq<(Seq<u8>, Node)>, key: Seq<u8>) -> Option<Node>
    decreases pairs.len(),
{
    if pairs.len() == 0 {
        None
    } else if pairs[0].0 == key {
        Some(pairs[0].1)
    } else {
        pairs_lookup(pairs.drop_first(), key)
    }
}

/// The value stored under `key` when the node is a dictionary, if any.
pub open spec fn dict_lookup(root: Node, key: Seq<u8>) -> Option<Node> {
    match root {
        Node::Dict { pairs, start: _, end: _ } => pairs_lookup(pairs, key),
        _ => None,
    }
}

/// The keys of a pair sequence are in strictly ascending byte order
/// (in particular, no key repeats).
pub open spec fn pairs_sorted(pairs: Seq<(Seq<u8>, Node)>) -> bool {
    forall|i: int, j: int|
        0 <= i < j < pairs.len() ==> lex_lt(#[trigger] pairs[i].0, #[trigger] pairs[j].0)
}

} // verus!
