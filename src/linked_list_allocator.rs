//! First-fit allocation over a segment manager: requests are rounded to whole
//! headers, alignments are raised to at least a header's, and the first free
//! block that can hold the request is split.
use vstd::prelude::*;

use crate::layout::{
    aligned_payload, free_shape, lemma_aligned_payload, lemma_free_used_payloads,
    lemma_segments_bounds, lemma_split_used_payloads, shape, size_legal, split_fits, split_shape,
    used_payloads,
};
use crate::memory_segmenter::MemorySegmenter;
use crate::segment::{SegmentView, HEADER_SIZE};

verus! {

/// The single way an allocation fails: no free block can hold the request.
#[derive(Debug, Clone, Copy, PartialEq, Eq)]
pub struct AllocError;

/// `n` is a power of two.
pub open spec fn is_power_of_two(n: int) -> bool
    decreases n,
{
    if n <= 0 {
        false
    } else if n == 1 {
        true
    } else {
        n % 2 == 0 && is_power_of_two(n / 2)
    }
}

/// The payload alignment actually used: never less than a header's.
pub open spec fn promoted_align(align: int) -> int {
    if align < HEADER_SIZE {
        HEADER_SIZE as int
    } else {
        align
    }
}

/// A payload size rounded up to a whole number of headers.
pub open spec fn padded_size(size: int) -> int {
    if size % 16 == 0 {
        size
    } else {
        size + (16 - size % 16)
    }
}

/// Block `i` is free and a used block of `request` bytes with payload alignment
/// `align` can be carved from it.
pub open spec fn fits_at(s: Seq<SegmentView>, i: int, request: int, align: int) -> bool {
    !s[i].in_use && split_fits(s[i], request, align)
}

/// Block `i` is the first, in address order, that `fits_at` holds of.
pub open spec fn first_fit(s: Seq<SegmentView>, i: int, request: int, align: int) -> bool {
    &&& 0 <= i < s.len()
    &&& fits_at(s, i, request, align)
    &&& forall|j: int| 0 <= j < i ==> !fits_at(s, j, request, align)
}

/// A power of two below 16 divides 16.
proof fn lemma_small_power_of_two(n: int)
    requires
        is_power_of_two(n),
        n < 16,
    ensures
        n == 1 || n == 2 || n == 4 || n == 8,
    decreases n,
{
    if n != 1 {
        lemma_small_power_of_two(n / 2);
    }
}

/// A power of two of at least 16 is a multiple of 16.
proof fn lemma_large_power_of_two(n: int)
    requires
        is_power_of_two(n),
        n >= 16,
    ensures
        n % 16 == 0,
    decreases n,
{
    let m = n / 2;
    if m >= 16 {
        lemma_large_power_of_two(m);
    } else {
        lemma_small_power_of_two(m);
    }
}

/// An allocator that owns one region through a segment manager.
pub struct LinkedListAllocImpl {
    segmenter_list: MemorySegmenter,
}

impl LinkedListAllocImpl {
    /// The manager of the region.
    pub closed spec fn segmenter(&self) -> MemorySegmenter {
        self.segmenter_list
    }

    /// The allocator's invariant: that of its manager.
    pub open spec fn wf(&self) -> bool {
        self.segmenter().wf()
    }

    /// An allocator over `[start, end)`, all of it free.
    pub fn new(start: usize, end: usize) -> (r: Self)
        requires
            0 < start,
            start % 16 == 0,
            start < end,
            (end - start) % 16 == 0,
        ensures
            r.wf(),
            r.segmenter().spec_start() == start,
            r.segmenter().spec_end() == end,
            r.segmenter()@ == seq![
                SegmentView {
                    addr: start as int,
                    prev: 0,
                    size: end - start,
                    in_use: false,
                    next_exists: false,
                },
            ],
    {
        LinkedListAllocImpl { segmenter_list: MemorySegmenter::new(start, end) }
    }

    /// The manager of the region.
    pub fn segmenter_list(&self) -> (r: &MemorySegmenter)
        ensures
            *r == self.segmenter(),
    {
        &self.segmenter_list
    }

    /// Allocates `size` bytes whose address is a multiple of `align`. The size
    /// is rounded up to whole headers and the alignment raised to at least a
    /// header's; the first free block in address order that can hold the
    /// request is split. Returns the payload address and the rounded size.
    pub fn allocate(&mut self, size: usize, align: usize) -> (r: Result<(usize, usize), AllocError>)
        requires
            old(self).wf(),
            is_power_of_two(align as int),
        ensures
            final(self).wf(),
            final(self).segmenter().spec_start() == old(self).segmenter().spec_start(),
            final(self).segmenter().spec_end() == old(self).segmenter().spec_end(),
            r is Ok <==> exists|i: int|
                0 <= i < old(self).segmenter()@.len() && #[trigger] fits_at(
                    old(self).segmenter()@,
                    i,
                    padded_size(size as int) + HEADER_SIZE,
                    promoted_align(align as int),
                ),
            r matches Ok((p, len)) ==> exists|i: int|
                #![trigger old(self).segmenter()@[i]]
                first_fit(
                    old(self).segmenter()@,
                    i,
                    padded_size(size as int) + HEADER_SIZE,
                    promoted_align(align as int),
                ) && shape(final(self).segmenter()@) == split_shape(
                    old(self).segmenter()@,
                    i,
                    padded_size(size as int) + HEADER_SIZE,
                    promoted_align(align as int),
                ) && p == aligned_payload(
                    old(self).segmenter()@[i].addr,
                    promoted_align(align as int),
                ),
            r matches Ok((p, len)) ==> len == padded_size(size as int) && p % align == 0
                && p % 16 == 0,
            r matches Ok((p, len)) ==> used_payloads(final(self).segmenter()@) == used_payloads(
                old(self).segmenter()@,
            ).insert(p as int),
            r is Err ==> *final(self) == *old(self),
    {
        let ghost s = self.segmenter_list@;
        proof {
            lemma_segments_bounds(self.segmenter_list.spec_start(), self.segmenter_list.spec_end(), s);
            if align < 16 {
                lemma_small_power_of_two(align as int);
            } else {
                lemma_large_power_of_two(align as int);
            }
        }
        let real_align = if align < HEADER_SIZE {
            HEADER_SIZE
        } else {
            align
        };
        assert(real_align == promoted_align(align as int) && real_align % 16 == 0);
        if size > usize::MAX - 2 * HEADER_SIZE {
            proof {
                assert forall|i: int| 0 <= i < s.len() implies !#[trigger] fits_at(
                    s,
                    i,
                    padded_size(size as int) + HEADER_SIZE,
                    real_align as int,
                ) by {
                    assert(s[i].addr + s[i].size <= self.segmenter_list.spec_end());
                }
            }
            return Err(AllocError);
        }
        let real_size = if size % HEADER_SIZE == 0 {
            size
        } else {
            size + (HEADER_SIZE - size % HEADER_SIZE)
        };
        let request = real_size + HEADER_SIZE;
        assert(request == padded_size(size as int) + HEADER_SIZE);
        let found = self.find_first_fit(request, real_align);
        match found {
            None => Err(AllocError),
            Some(addr) => {
                let ghost i = choose|i: int|
                    #![trigger s[i]]
                    first_fit(s, i, request as int, real_align as int) && s[i].addr == addr;
                proof {
                    lemma_aligned_payload(s[i].addr, real_align as int);
                    assert(fits_at(s, i, request as int, real_align as int));
                }
                let res = self.segmenter_list.create_used_segment(addr, request, real_align);
                match res {
                    Ok(header) => {
                        proof {
                            assert(header == aligned_payload(s[i].addr, real_align as int)
                                - HEADER_SIZE);
                            assert(shape(self.segmenter_list@) == split_shape(
                                s,
                                i,
                                request as int,
                                real_align as int,
                            ));
                            lemma_split_used_payloads(
                                self.segmenter_list.spec_start(),
                                self.segmenter_list.spec_end(),
                                s,
                                i,
                                request as int,
                                real_align as int,
                                self.segmenter_list@,
                            );
                        }
                        Ok((header + HEADER_SIZE, real_size))
                    },
                    Err(()) => Err(AllocError),
                }
            },
        }
    }

    /// Header address of the first free block, in address order, from which a
    /// used block of `request` bytes with payload alignment `align` can be carved.
    fn find_first_fit(&self, request: usize, align: usize) -> (r: Option<usize>)
        requires
            self.wf(),
            align > 0,
            align % 16 == 0,
        ensures
            r is None ==> forall|j: int|
                0 <= j < self.segmenter()@.len() ==> !#[trigger] fits_at(
                    self.segmenter()@,
                    j,
                    request as int,
                    align as int,
                ),
            r matches Some(a) ==> exists|i: int|
                #![trigger self.segmenter()@[i]]
                first_fit(self.segmenter()@, i, request as int, align as int)
                    && self.segmenter()@[i].addr == a,
    {
        let ghost s = self.segmenter_list@;
        proof {
            lemma_segments_bounds(
                self.segmenter_list.spec_start(),
                self.segmenter_list.spec_end(),
                s,
            );
        }
        let mut it = self.segmenter_list.iter();
        loop
            invariant
                it.segments() == s,
                0 <= it.pos() <= s.len(),
                s == self.segmenter_list@,
                self.segmenter_list.wf(),
                align > 0,
                forall|i: int|
                    0 <= i < s.len() ==> #[trigger] s[i].addr + s[i].size <= self.segmenter_list.spec_end(),
                forall|j: int|
                    0 <= j < it.pos() ==> !#[trigger] fits_at(s, j, request as int, align as int),
            decreases s.len() - it.pos(),
        {
            let ghost pos = it.pos();
            match it.next() {
                Some(entry) => {
                    proof {
                        assert(entry@ == s[pos]);
                        assert(size_legal(s[pos].size));
                        assert(s[pos].addr + s[pos].size <= self.segmenter_list.spec_end());
                    }
                    if !entry.in_use() && self.segmenter_list.calculate_alloc_ptr_with_required_align(
                        &entry,
                        request,
                        align,
                    ).is_ok() {
                        assert(first_fit(s, pos, request as int, align as int));
                        assert(self.segmenter()@[pos].addr == entry@.addr);
                        return Some(entry.addr());
                    }
                },
                None => {
                    return None;
                },
            }
        }
    }

    /// Releases the allocation whose payload starts at `ptr`. Fails where no
    /// used block has its payload there; the manager is then left as it was.
    pub fn deallocate(&mut self, ptr: usize) -> (r: Result<(), AllocError>)
        requires
            old(self).wf(),
        ensures
            final(self).wf(),
            final(self).segmenter().spec_start() == old(self).segmenter().spec_start(),
            final(self).segmenter().spec_end() == old(self).segmenter().spec_end(),
            r is Ok <==> exists|i: int|
                0 <= i < old(self).segmenter()@.len() && old(self).segmenter()@[i].addr + HEADER_SIZE
                    == ptr && old(self).segmenter()@[i].in_use,
            forall|i: int|
                0 <= i < old(self).segmenter()@.len() && old(self).segmenter()@[i].addr + HEADER_SIZE
                    == ptr && r is Ok ==> shape(final(self).segmenter()@) == free_shape(
                    old(self).segmenter()@,
                    i,
                ),
            r is Ok ==> used_payloads(final(self).segmenter()@) == used_payloads(
                old(self).segmenter()@,
            ).remove(ptr as int),
            r is Err ==> *final(self) == *old(self),
    {
        let ghost s = self.segmenter_list@;
        proof {
            lemma_segments_bounds(
                self.segmenter_list.spec_start(),
                self.segmenter_list.spec_end(),
                self.segmenter_list@,
            );
        }
        if ptr < HEADER_SIZE {
            return Err(AllocError);
        }
        match self.segmenter_list.delete_used_segment(ptr - HEADER_SIZE) {
            Ok(_) => {
                proof {
                    let i = choose|i: int|
                        0 <= i < s.len() && #[trigger] s[i].addr == ptr - HEADER_SIZE
                            && s[i].in_use;
                    lemma_free_used_payloads(
                        self.segmenter_list.spec_start(),
                        self.segmenter_list.spec_end(),
                        s,
                        i,
                        self.segmenter_list@,
                    );
                }
                Ok(())
            },
            Err(()) => Err(AllocError),
        }
    }
}

} // verus!
