//! Reading torrent metainfo out of a decoded tree.
//!
//! A metainfo file decodes to a dictionary. The helpers here pull typed
//! fields out of such a dictionary, and compute the torrent's identifying
//! digest: the SHA-1 hash of the raw bytes `buffer[start..end)` of the
//! `info` sub-dictionary, taken from the original buffer so that the hash
//! matches byte for byte what peers and trackers expect. A missing or
//! mis-typed field is an absence, not an error.

use vstd::prelude::*;
use sha1::{Digest, Sha1};
use crate::bencoding::{dict_get, to_node, BencodeElement};
use crate::cursor::ByteCursor;
use crate::model::{dict_lookup, Node};

verus! {

/// The digest that `sha1::Sha1` computes over a byte sequence. The result
/// depends on the input bytes alone.
pub uninterp spec fn sha1_of(bytes: Seq<u8>) -> Seq<u8>;

/// Relies on `sha1::Sha1` through the `Digest` trait: the digest is 20
/// bytes long and a function of the input bytes alone.
#[verifier::external_body]
fn sha1_digest(bytes: &Vec<u8>) -> (r: Vec<u8>)
    ensures
        r@ == sha1_of(bytes@),
        r@.len() == 20,
{
    let mut hasher = Sha1::new();
    hasher.update(bytes.as_slice());
    hasher.finalize().to_vec()
}

/// One hexadecimal digit, lowercase.
pub open spec fn hex_digit_char(n: int) -> char {
    if n == 0 { '0' }
    else if n == 1 { '1' }
    else if n == 2 { '2' }
    else if n == 3 { '3' }
    else if n == 4 { '4' }
    else if n == 5 { '5' }
    else if n == 6 { '6' }
    else if n == 7 { '7' }
    else if n == 8 { '8' }
    else if n == 9 { '9' }
    else if n == 10 { 'a' }
    else if n == 11 { 'b' }
    else if n == 12 { 'c' }
    else if n == 13 { 'd' }
    else if n == 14 { 'e' }
    else { 'f' }
}

/// Lowercase hexadecimal rendering of a byte sequence: two digits per
/// byte, high nibble first.
pub open spec fn hex_of(bytes: Seq<u8>) -> Seq<char>
    decreases bytes.len(),
{
    if bytes.len() == 0 {
        Seq::empty()
    } else {
        hex_of(bytes.drop_last())
            .push(hex_digit_char(bytes.last() as int / 16))
            .push(hex_digit_char(bytes.last() as int % 16))
    }
}

/// Relies on `hex::encode`: each byte becomes two lowercase hexadecimal
/// digits, high nibble first.
#[verifier::external_body]
fn hex_encode(bytes: &Vec<u8>) -> (r: String)
    ensures
        r@ == hex_of(bytes@),
{
    hex::encode(bytes.as_slice())
}

/// The key under which a metainfo file stores its info dictionary: the
/// bytes of `info`.
pub open spec fn info_key() -> Seq<u8> {
    seq![105u8, 110u8, 102u8, 111u8]
}

/// The raw bytes of the info sub-dictionary: the root must be a
/// dictionary whose `info` entry is itself a dictionary, and that entry's
/// recorded byte range must lie inside the buffer.
pub open spec fn info_slice(root: Node, bytes: Seq<u8>) -> Option<Seq<u8>> {
    match dict_lookup(root, info_key()) {
        Some(Node::Dict { pairs: _, start, end }) => if 0 <= start <= end <= bytes.len() {
            Some(bytes.subrange(start, end))
        } else {
            None
        },
        _ => None,
    }
}

/// The byte-string value stored under `key` when the element is a
/// dictionary holding one there, else nothing.
pub fn extract_string(key: &Vec<u8>, torrent_file_content: &BencodeElement) -> (r: Option<
    Vec<u8>,
>)
    ensures
        match dict_lookup(torrent_file_content@, key@) {
            Some(Node::Str { value, start: _, end: _ }) => r matches Some(v) && v@ == value,
            _ => r is None,
        },
{
    if let BencodeElement::Dict { value: map, start_index: _, end_index: _ } =
        torrent_file_content {
        match dict_get(map, key) {
            Some(entry) => match entry {
                BencodeElement::Str { value: payload, start_index: _, end_index: _ } => {
                    let out = payload.clone();
                    proof {
                        assert(out@ =~= payload@);
                    }
                    Some(out)
                },
                _ => None,
            },
            None => None,
        }
    } else {
        None
    }
}

/// The integer value stored under `key` when the element is a dictionary
/// holding one there, else nothing.
pub fn extract_int(key: &Vec<u8>, torrent_file_content: &BencodeElement) -> (r: Option<i64>)
    ensures
        match dict_lookup(torrent_file_content@, key@) {
            Some(Node::Int { value, start: _, end: _ }) => r matches Some(v) && v == value,
            _ => r is None,
        },
{
    if let BencodeElement::Dict { value: map, start_index: _, end_index: _ } =
        torrent_file_content {
        match dict_get(map, key) {
            Some(entry) => match entry {
                BencodeElement::Int { value, start_index: _, end_index: _ } => Some(*value),
                _ => None,
            },
            None => None,
        }
    } else {
        None
    }
}

/// The SHA-1 digest of the raw bytes of the info sub-dictionary, sliced
/// out of the original buffer behind the cursor; nothing when the tree
/// holds no info dictionary or its range runs outside the buffer.
pub fn calculate_info_hash(
    torrent_file_content: &BencodeElement,
    torrent_file_content_cursor: &ByteCursor,
) -> (r: Option<Vec<u8>>)
    ensures
        match info_slice(torrent_file_content@, torrent_file_content_cursor.bytes()) {
            Some(raw) => r matches Some(h) && h@ == sha1_of(raw) && h@.len() == 20,
            None => r is None,
        },
{
    let key: Vec<u8> = vec![105u8, 110u8, 102u8, 111u8];
    proof {
        assert(key@ =~= info_key());
    }
    if let BencodeElement::Dict { value: map, start_index: _, end_index: _ } =
        torrent_file_content {
        match dict_get(map, &key) {
            Some(entry) => match entry {
                BencodeElement::Dict { value: _, start_index, end_index } => {
                    let start = *start_index;
                    let end = *end_index;
                    let n = torrent_file_content_cursor.buffer_len();
                    if start > end || end > n as u64 {
                        return None;
                    }
                    let raw = torrent_file_content_cursor.read_exact(
                        start as usize,
                        (end - start) as usize,
                    );
                    Some(sha1_digest(&raw))
                },
                _ => None,
            },
            None => None,
        }
    } else {
        None
    }
}

/// The info hash as a lowercase hexadecimal string.
pub fn calculate_info_hash_as_string(
    torrent_file_content: &BencodeElement,
    torrent_file_content_cursor: &ByteCursor,
) -> (r: Option<String>)
    ensures
        match info_slice(torrent_file_content@, torrent_file_content_cursor.bytes()) {
            Some(raw) => r matches Some(text) && text@ == hex_of(sha1_of(raw)),
            None => r is None,
        },
{
    match calculate_info_hash(torrent_file_content, torrent_file_content_cursor) {
        Some(hash) => Some(hex_encode(&hash)),
        None => None,
    }
}

} // verus!
