//! Sequential reader over an in-memory byte buffer.
//!
//! The cursor owns the buffer, exposes the current byte and the absolute
//! position while decoding runs forward, and supports seeking back and
//! re-reading an absolute range once decoding is done (raw sub-ranges of the
//! original buffer are re-extracted this way for hashing).

use vstd::prelude::*;

verus! {

/// A byte buffer plus a 0-based count of bytes consumed so far.
pub struct ByteCursor {
    buffer: Vec<u8>,
    pos: usize,
}

impl ByteCursor {
    /// The bytes the cursor reads from.
    pub closed spec fn bytes(&self) -> Seq<u8> {
        self.buffer@
    }

    /// The current position as a mathematical integer.
    pub closed spec fn pos_spec(&self) -> int {
        self.pos as int
    }

    /// The position counts consumed bytes, so it is never negative.
    pub broadcast proof fn lemma_pos_nonneg(&self)
        ensures
            #[trigger] self.pos_spec() >= 0,
    {
    }

    /// A cursor over `content`, positioned at its first byte.
    pub fn new(content: Vec<u8>) -> (c: ByteCursor)
        ensures
            c.bytes() == content@,
            c.pos_spec() == 0,
    {
        ByteCursor { buffer: content, pos: 0 }
    }

    /// Number of bytes in the buffer.
    pub fn buffer_len(&self) -> (n: usize)
        ensures
            n == self.bytes().len(),
    {
        self.buffer.len()
    }

    /// The current position: how many bytes were consumed so far.
    pub fn position(&self) -> (p: usize)
        ensures
            p == self.pos_spec(),
    {
        self.pos
    }

    /// Move to the absolute position `p`.
    pub fn seek(&mut self, p: usize)
        ensures
            final(self).bytes() == old(self).bytes(),
            final(self).pos_spec() == p,
    {
        self.pos = p;
    }

    /// The byte at the current position, without consuming it; `None` at or
    /// past the end of the buffer.
    pub fn get_current_byte(&self) -> (r: Option<u8>)
        ensures
            match r {
                Some(b) => self.pos_spec() < self.bytes().len()
                    && b == self.bytes()[self.pos_spec()],
                None => self.pos_spec() >= self.bytes().len(),
            },
    {
        if self.pos < self.buffer.len() {
            Some(self.buffer[self.pos])
        } else {
            None
        }
    }

    /// The byte at the current position, consuming it; `None` at or past the
    /// end of the buffer, where the position stays put.
    pub fn read_next_byte(&mut self) -> (r: Option<u8>)
        ensures
            final(self).bytes() == old(self).bytes(),
            match r {
                Some(b) => old(self).pos_spec() < old(self).bytes().len()
                    && b == old(self).bytes()[old(self).pos_spec()]
                    && final(self).pos_spec() == old(self).pos_spec() + 1,
                None => old(self).pos_spec() >= old(self).bytes().len()
                    && final(self).pos_spec() == old(self).pos_spec(),
            },
    {
        if self.pos < self.buffer.len() {
            let b = self.buffer[self.pos];
            self.pos = self.pos + 1;
            Some(b)
        } else {
            None
        }
    }

    /// The byte at absolute position `i`.
    pub fn byte_at(&self, i: usize) -> (b: u8)
        requires
            i < self.bytes().len(),
        ensures
            b == self.bytes()[i as int],
    {
        self.buffer[i]
    }

    /// Absolute position of the first occurrence of `target` at or after
    /// `from`, if any; the cursor does not move.
    pub fn find_byte_from(&self, from: usize, target: u8) -> (r: Option<usize>)
        ensures
            match r {
                Some(j) => crate::grammar::find_from(self.bytes(), from as int, target)
                    == Some(j as int),
                None => crate::grammar::find_from(self.bytes(), from as int, target)
                    is None,
            },
    {
        let mut i = from;
        while i < self.buffer.len()
            invariant
                from <= i,
                forall|k: int| from <= k < i ==> self.bytes()[k] != target,
            decreases self.bytes().len() - i,
        {
            if self.buffer[i] == target {
                proof {
                    crate::grammar::lemma_find_from_characterization(
                        self.bytes(), from as int, target, i as int);
                }
                return Some(i);
            }
            i = i + 1;
        }
        proof {
            crate::grammar::lemma_find_from_missing(self.bytes(), from as int, target);
        }
        None
    }

    /// A copy of the `len` bytes starting at absolute position `offset`,
    /// used after decoding to pull out the raw slice of a sub-element.
    pub fn read_exact(&self, offset: usize, len: usize) -> (r: Vec<u8>)
        requires
            offset + len <= self.bytes().len(),
        ensures
            r@ == self.bytes().subrange(offset as int, offset + len),
    {
        let n = self.buffer.len();
        let mut out: Vec<u8> = Vec::new();
        let mut i: usize = 0;
        while i < len
            invariant
                i <= len,
                offset + len <= n == self.bytes().len(),
                out@ =~= self.bytes().subrange(offset as int, offset + i),
            decreases len - i,
        {
            out.push(self.buffer[offset + i]);
            i = i + 1;
        }
        proof {
            assert(out@ =~= self.bytes().subrange(offset as int, offset + len));
        }
        out
    }
}

} // verus!
