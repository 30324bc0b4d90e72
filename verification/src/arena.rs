//! Append-only byte arena: serves all key/value byte storage through
//! stable offsets. Offsets, once issued, stay valid for the arena's
//! whole lifetime; nothing is ever moved, resized in place, or freed
//! individually.

use vstd::prelude::*;

verus! {

/// A bump allocator over a growable byte store. An offset returned by
/// [`Arena::alloc_bytes`] denotes the same bytes forever after.
pub struct Arena {
    data: Vec<u8>,
}

impl Arena {
    /// The bytes the arena holds, in allocation order.
    pub closed spec fn bytes(self) -> Seq<u8> {
        self.data@
    }

    /// An empty arena.
    pub fn new() -> (r: Arena)
        ensures
            r.bytes() =~= Seq::<u8>::empty(),
    {
        Arena { data: Vec::new() }
    }

    /// Total bytes carved out so far.
    pub fn used_bytes(&self) -> (r: usize)
        ensures
            r == self.bytes().len(),
    {
        self.data.len()
    }

    /// Copies `src` into the arena and returns the offset of the copy.
    /// Earlier contents are untouched, so previously issued offsets
    /// keep denoting the same bytes.
    pub fn alloc_bytes(&mut self, src: &[u8]) -> (off: usize)
        requires
            old(self).bytes().len() + src@.len() <= usize::MAX,
        ensures
            off == old(self).bytes().len(),
            final(self).bytes() =~= old(self).bytes() + src@,
    {
        let off = self.data.len();
        let mut i: usize = 0;
        while i < src.len()
            invariant
                0 <= i <= src@.len(),
                off == old(self).bytes().len(),
                self.data@ =~= old(self).bytes() + src@.subrange(0, i as int),
            decreases src@.len() - i,
        {
            self.data.push(src[i]);
            i = i + 1;
        }
        off
    }

    /// Reads back `len` bytes starting at `off`.
    pub fn read(&self, off: usize, len: usize) -> (r: Vec<u8>)
        requires
            off + len <= self.bytes().len(),
        ensures
            r@ =~= self.bytes().subrange(off as int, off + len),
    {
        let n: usize = self.data.len();
        let mut r: Vec<u8> = Vec::new();
        let mut i: usize = 0;
        while i < len
            invariant
                0 <= i <= len,
                off + len <= n,
                n == self.data@.len(),
                self.bytes() == self.data@,
                r@ =~= self.bytes().subrange(off as int, off + i),
            decreases len - i,
        {
            r.push(self.data[off + i]);
            i = i + 1;
        }
        r
    }
}

} // verus!
