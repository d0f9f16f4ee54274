//! Bencode decoding with byte-exact offset tracking.
//!
//! The decoder turns a bencoded byte buffer into a typed tree in which every
//! element carries the half-open byte range `[start, end)` it occupies in the
//! source buffer, so that the raw bytes of any sub-element can later be
//! re-extracted (notably the `info` dictionary of a torrent metainfo file,
//! whose raw slice is hashed to form the torrent's identifying digest).

pub mod bencoding;
pub mod bencoding_helper;
pub mod cursor;
pub mod grammar;
pub mod laws;
pub mod model;
pub mod torrent_file;
