//! The header that starts every block of a managed region.
use vstd::prelude::*;

use crate::bits::{word_get_bit, word_get_bits_from, word_set_bit, word_set_bits_from};

verus! {

/// Size in bytes of a block header: a back link and a packed size word, one
/// pointer-sized word each. Every block size is a multiple of it, and it is the
/// least alignment of every header.
pub const HEADER_SIZE: usize = 16;

/// The header of one block, as the contracts see it.
pub struct SegmentView {
    /// Address of the header itself.
    pub addr: int,
    /// Address of the header of the block just before, or 0 for the first block.
    pub prev: int,
    /// Total size of the block in bytes, header included.
    pub size: int,
    pub in_use: bool,
    /// Whether another block follows this one within the region.
    pub next_exists: bool,
}

/// A multiple of the header size has its three low bits clear.
pub proof fn lemma_header_multiple(x: int)
    requires
        x % 16 == 0,
    ensures
        x % 8 == 0,
{
    assert(x % 8 == 0) by (nonlinear_arith)
        requires
            x % 16 == 0,
    ;
}

/// The size that a packed word encodes: the word with its three low bits cleared.
pub open spec fn word_size(w: usize) -> int {
    w - w % 8
}

/// The in-use flag of a packed word: bit 0.
pub open spec fn word_in_use(w: usize) -> bool {
    w % 2 == 1
}

/// The next-exists flag of a packed word: bit 1.
pub open spec fn word_next_exists(w: usize) -> bool {
    (w / 2) % 2 == 1
}

/// A block header. The size and both flags share one word: bit 0 holds the
/// in-use flag, bit 1 the next-exists flag, and the bits from 3 up hold the size
/// divided by 8.
#[derive(Clone, Copy)]
pub struct SegmentMetadata {
    addr: usize,
    prev: usize,
    size: usize,
}

impl View for SegmentMetadata {
    type V = SegmentView;

    closed spec fn view(&self) -> SegmentView {
        SegmentView {
            addr: self.addr as int,
            prev: self.prev as int,
            size: word_size(self.size),
            in_use: word_in_use(self.size),
            next_exists: word_next_exists(self.size),
        }
    }
}

impl SegmentMetadata {
    /// Size in bytes of a header.
    pub const SIZE: usize = HEADER_SIZE;

    /// A header placed at `addr`. The low three bits of `size` do not count
    /// towards the size.
    pub fn new(addr: usize, prev: usize, size: usize, in_use: bool, next_exists: bool) -> (r: Self)
        ensures
            r@ == (SegmentView {
                addr: addr as int,
                prev: prev as int,
                size: size - size % 8,
                in_use,
                next_exists,
            }),
    {
        let mut this = SegmentMetadata { addr, prev, size };
        this.set_in_use(in_use);
        this.set_next_exists(next_exists);
        this
    }

    /// Address of this header.
    pub fn addr(&self) -> (r: usize)
        ensures
            r == self@.addr,
    {
        self.addr
    }

    /// Stores a new size and keeps both flags. Sizes are multiples of 8.
    pub fn set_size(&mut self, size: usize)
        requires
            size % 8 == 0,
        ensures
            final(self)@ == (SegmentView { size: size as int, ..old(self)@ }),
    {
        let w = self.size;
        let hi = word_get_bits_from(size, 3);
        assert(((size >> 3usize) << 3usize) >> 3usize == size >> 3usize) by (bit_vector);
        let nw = word_set_bits_from(w, 3, hi);
        assert(((w & !((!0usize >> 3usize) << 3usize)) | ((size >> 3usize) << 3usize)) - ((
        (w & !((!0usize >> 3usize) << 3usize)) | ((size >> 3usize) << 3usize)) % 8) == size
            && ((w & !((!0usize >> 3usize) << 3usize)) | ((size >> 3usize) << 3usize)) % 2
            == w % 2 && (((w & !((!0usize >> 3usize) << 3usize)) | ((size >> 3usize)
            << 3usize)) / 2) % 2 == (w / 2) % 2) by (bit_vector)
            requires
                size % 8 == 0,
        ;
        self.size = nw;
    }

    /// Total size of the block, header included.
    pub fn size(&self) -> (r: usize)
        ensures
            r == self@.size,
    {
        let w = self.size;
        let hi = word_get_bits_from(w, 3);
        assert((w >> 3usize) << 3usize == w - w % 8) by (bit_vector);
        hi << 3
    }

    /// Bytes of the block that follow the header.
    pub fn size_allocable(&self) -> (r: usize)
        requires
            self@.size >= HEADER_SIZE,
        ensures
            r == self@.size - HEADER_SIZE,
    {
        self.size() - Self::SIZE
    }

    /// Address of the first byte after the header.
    pub fn alloc_start_ptr(&self) -> (r: usize)
        requires
            self@.addr + HEADER_SIZE <= usize::MAX,
        ensures
            r == self@.addr + HEADER_SIZE,
    {
        self.addr + Self::SIZE
    }

    pub fn set_in_use(&mut self, in_use: bool)
        ensures
            final(self)@ == (SegmentView { in_use, ..old(self)@ }),
    {
        let w = self.size;
        let nw = word_set_bit(w, 0, in_use);
        assert((w | (1usize << 0usize)) % 2 == 1 && (w & !(1usize << 0usize)) % 2 == 0
            && (w | (1usize << 0usize)) - (w | (1usize << 0usize)) % 8 == w - w % 8
            && (w & !(1usize << 0usize)) - (w & !(1usize << 0usize)) % 8 == w - w % 8
            && ((w | (1usize << 0usize)) / 2) % 2 == (w / 2) % 2
            && ((w & !(1usize << 0usize)) / 2) % 2 == (w / 2) % 2) by (bit_vector);
        self.size = nw;
    }

    pub fn in_use(&self) -> (r: bool)
        ensures
            r == self@.in_use,
    {
        let w = self.size;
        assert((w & (1usize << 0usize) != 0) == (w % 2 == 1)) by (bit_vector);
        word_get_bit(w, 0)
    }

    pub fn set_next_exists(&mut self, next_exists: bool)
        ensures
            final(self)@ == (SegmentView { next_exists, ..old(self)@ }),
    {
        let w = self.size;
        let nw = word_set_bit(w, 1, next_exists);
        assert(((w | (1usize << 1usize)) / 2) % 2 == 1 && ((w & !(1usize << 1usize)) / 2) % 2 == 0
            && (w | (1usize << 1usize)) - (w | (1usize << 1usize)) % 8 == w - w % 8
            && (w & !(1usize << 1usize)) - (w & !(1usize << 1usize)) % 8 == w - w % 8
            && (w | (1usize << 1usize)) % 2 == w % 2 && (w & !(1usize << 1usize)) % 2 == w % 2)
            by (bit_vector);
        self.size = nw;
    }

    pub fn next_exists(&self) -> (r: bool)
        ensures
            r == self@.next_exists,
    {
        let w = self.size;
        assert((w & (1usize << 1usize) != 0) == ((w / 2) % 2 == 1)) by (bit_vector);
        word_get_bit(w, 1)
    }

    /// Address of the previous block's header, 0 for the first block.
    pub fn prev(&self) -> (r: usize)
        ensures
            r == self@.prev,
    {
        self.prev
    }

    pub fn set_prev(&mut self, prev: usize)
        ensures
            final(self)@ == (SegmentView { prev: prev as int, ..old(self)@ }),
    {
        self.prev = prev;
    }

    /// Address of the following block's header, where one follows.
    pub fn next(&self) -> (r: Option<usize>)
        requires
            self@.next_exists ==> self@.addr + self@.size <= usize::MAX,
        ensures
            r == (if self@.next_exists {
                Some((self@.addr + self@.size) as usize)
            } else {
                None::<usize>
            }),
    {
        if self.next_exists() {
            Some(self.addr + self.size())
        } else {
            None
        }
    }

    /// Address of the first byte past the block.
    pub fn end_exclusive(&self) -> (r: usize)
        requires
            self@.addr + self@.size <= usize::MAX,
        ensures
            r == self@.addr + self@.size,
    {
        self.addr + self.size()
    }
}

} // verus!
