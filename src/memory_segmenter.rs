//! The segment manager: one contiguous region, cut into blocks that each start
//! with a header, kept in address order.
use vstd::prelude::*;

use crate::layout::{
    aligned_payload, carve_pieces, carve_views, coalesced, free_lo, free_shape,
    lemma_aligned_payload, lemma_block_bounds, lemma_block_count, lemma_carve, lemma_merge,
    lemma_ops_merge, lemma_ops_one, lemma_ops_three, lemma_ops_two, lemma_ordered_pair,
    lemma_partition, lemma_segments_bounds, lemma_segments_ordered, linked, merged_ops,
    segments_wf, shape, size_legal, split_fits, split_shape, with_prev,
};
use crate::segment::{lemma_header_multiple, SegmentMetadata, SegmentView, HEADER_SIZE};

verus! {

/// Manages the region `[start, end_exclusive)`. The headers of its blocks are
/// kept in address order, the first one at `start`.
pub struct MemorySegmenter {
    start: usize,
    end_exclusive: usize,
    num_nodes: usize,
    segments: Vec<SegmentMetadata>,
}

/// Walks the headers of a manager in address order.
pub struct MemorySegmenterIter<'a> {
    segmenter: &'a MemorySegmenter,
    pos: usize,
}

impl View for MemorySegmenter {
    type V = Seq<SegmentView>;

    closed spec fn view(&self) -> Seq<SegmentView> {
        self.segments@.map_values(|h: SegmentMetadata| h@)
    }
}

impl MemorySegmenter {
    /// First address of the region.
    pub closed spec fn spec_start(&self) -> int {
        self.start as int
    }

    /// First address past the region.
    pub closed spec fn spec_end(&self) -> int {
        self.end_exclusive as int
    }

    /// The node count matches the headers.
    pub closed spec fn nodes_counted(&self) -> bool {
        self.num_nodes == self.segments.len()
    }

    /// The manager's invariant: its blocks partition the region as
    /// `segments_wf` says.
    pub open spec fn wf(&self) -> bool {
        &&& self.nodes_counted()
        &&& self.spec_end() <= usize::MAX
        &&& segments_wf(self.spec_start(), self.spec_end(), self@)
    }

    /// Takes over `[start, end_exclusive)` as one free block.
    pub fn new(start: usize, end_exclusive: usize) -> (r: Self)
        requires
            0 < start,
            start % 16 == 0,
            start < end_exclusive,
            (end_exclusive - start) % 16 == 0,
        ensures
            r.wf(),
            r.spec_start() == start,
            r.spec_end() == end_exclusive,
            r@ == seq![
                SegmentView {
                    addr: start as int,
                    prev: 0,
                    size: end_exclusive - start,
                    in_use: false,
                    next_exists: false,
                },
            ],
    {
        let size = end_exclusive - start;
        proof {
            lemma_header_multiple(size as int);
        }
        let head = SegmentMetadata::new(start, 0, size, false, false);
        let mut segments: Vec<SegmentMetadata> = Vec::new();
        segments.push(head);
        let this = MemorySegmenter { start, end_exclusive, num_nodes: 1, segments };
        assert(this@ =~= seq![head@]);
        this
    }

    /// Bytes taken by headers: one header per block.
    pub fn overhead(&self) -> (r: usize)
        requires
            self.wf(),
        ensures
            r == self@.len() * HEADER_SIZE,
    {
        proof {
            lemma_partition(self.spec_start(), self.spec_end(), self@);
        }
        self.num_nodes * HEADER_SIZE
    }

    /// Size of the region in bytes.
    pub fn size(&self) -> (r: usize)
        requires
            self.wf(),
        ensures
            r == self.spec_end() - self.spec_start(),
    {
        proof {
            lemma_partition(self.spec_start(), self.spec_end(), self@);
        }
        self.end_exclusive - self.start
    }

    /// Address of the first header, which is the start of the region.
    pub fn head(&self) -> (r: usize)
        ensures
            r == self.spec_start(),
    {
        self.start
    }

    /// Walks the headers from the first.
    pub fn iter(&self) -> (r: MemorySegmenterIter<'_>)
        ensures
            r.segments() == self@,
            r.pos() == 0,
    {
        MemorySegmenterIter { segmenter: self, pos: 0 }
    }

    /// Index of the header at `addr`.
    fn find_segment(&self, addr: usize) -> (r: Option<usize>)
        requires
            self.wf(),
        ensures
            r matches Some(i) ==> i < self@.len() && self@[i as int].addr == addr,
            r is None ==> forall|i: int| 0 <= i < self@.len() ==> self@[i].addr != addr,
    {
        let mut i: usize = 0;
        while i < self.segments.len()
            invariant
                self.wf(),
                i <= self@.len(),
                forall|j: int| 0 <= j < i ==> self@[j].addr != addr,
            decreases self@.len() - i,
        {
            if self.segments[i].addr() == addr {
                return Some(i);
            }
            i += 1;
        }
        None
    }

    /// The header at `addr`, where a block starts there.
    pub fn read_metadata(&self, addr: usize) -> (r: Option<SegmentMetadata>)
        requires
            self.wf(),
        ensures
            r matches Some(h) ==> exists|i: int|
                0 <= i < self@.len() && self@[i].addr == addr && h@ == self@[i],
            r is None ==> forall|i: int| 0 <= i < self@.len() ==> self@[i].addr != addr,
    {
        match self.find_segment(addr) {
            Some(i) => Some(self.segments[i]),
            None => None,
        }
    }

    /// Points the header at index `i`, where there is one, back at `prev`.
    fn fix_prev(&mut self, i: usize, prev: usize)
        ensures
            final(self).start == old(self).start,
            final(self).end_exclusive == old(self).end_exclusive,
            final(self).num_nodes == old(self).num_nodes,
            final(self)@ == with_prev(old(self)@, i as int, prev as int),
    {
        if i < self.segments.len() {
            let mut h = self.segments[i];
            h.set_prev(prev);
            let ghost before = self@;
            self.segments.set(i, h);
            assert(self@ =~= before.update(i as int, h@));
        }
    }

    /// Stores `h` at index `i`.
    fn set_header(&mut self, i: usize, h: SegmentMetadata)
        requires
            i < old(self)@.len(),
        ensures
            final(self).start == old(self).start,
            final(self).end_exclusive == old(self).end_exclusive,
            final(self).num_nodes == old(self).num_nodes,
            final(self)@ == old(self)@.update(i as int, h@),
    {
        let ghost before = self@;
        self.segments.set(i, h);
        assert(self@ =~= before.update(i as int, h@));
    }

    /// Inserts `h` at index `i`.
    fn insert_header(&mut self, i: usize, h: SegmentMetadata)
        requires
            i <= old(self)@.len(),
        ensures
            final(self).start == old(self).start,
            final(self).end_exclusive == old(self).end_exclusive,
            final(self).num_nodes == old(self).num_nodes,
            final(self)@ == old(self)@.insert(i as int, h@),
            final(self).segments.len() == old(self).segments.len() + 1,
    {
        let ghost before = self@;
        self.segments.insert(i, h);
        assert(self@ =~= before.insert(i as int, h@));
    }

    /// Removes the header at index `i`.
    fn remove_header(&mut self, i: usize)
        requires
            i < old(self)@.len(),
        ensures
            final(self).start == old(self).start,
            final(self).end_exclusive == old(self).end_exclusive,
            final(self).num_nodes == old(self).num_nodes,
            final(self)@ == old(self)@.remove(i as int),
            final(self).segments.len() == old(self).segments.len() - 1,
    {
        let ghost before = self@;
        self.segments.remove(i);
        assert(self@ =~= before.remove(i as int));
    }

    /// Indices of blocks that start at the same address are equal.
    proof fn lemma_unique_addr(&self, i: int, j: int)
        requires
            self.wf(),
            0 <= i < self@.len(),
            0 <= j < self@.len(),
            self@[i].addr == self@[j].addr,
        ensures
            i == j,
    {
        lemma_segments_ordered(self.spec_start(), self.spec_end(), self@);
        assert(size_legal(self@[i].size));
        assert(size_legal(self@[j].size));
    }

    /// Carves a used block of `subsegment_size` bytes (header included) out of
    /// the free block whose header is at `segment`, with its payload aligned to
    /// `required_align`. Free remainders stay in front of it, where the payload
    /// had to move up, and behind it, where bytes are left over. Returns the
    /// address of the new used block's header. Fails, and changes nothing,
    /// where no free block starts at `segment`, where the size is not a
    /// positive multiple of the header size, or where the aligned block would
    /// run past the end of the free block.
    pub fn create_used_segment(
        &mut self,
        segment: usize,
        subsegment_size: usize,
        required_align: usize,
    ) -> (r: Result<usize, ()>)
        requires
            old(self).wf(),
            required_align > 0,
            required_align % 16 == 0,
        ensures
            final(self).wf(),
            final(self).spec_start() == old(self).spec_start(),
            final(self).spec_end() == old(self).spec_end(),
            r is Ok <==> exists|i: int|
                0 <= i < old(self)@.len() && old(self)@[i].addr == segment && !old(self)@[i].in_use
                    && split_fits(old(self)@[i], subsegment_size as int, required_align as int),
            forall|i: int|
                0 <= i < old(self)@.len() && old(self)@[i].addr == segment && r is Ok ==> shape(
                    final(self)@,
                ) == split_shape(old(self)@, i, subsegment_size as int, required_align as int),
            r matches Ok(h) ==> h == aligned_payload(segment as int, required_align as int)
                - HEADER_SIZE,
            r is Err ==> *final(self) == *old(self),
    {
        let idx = match self.find_segment(segment) {
            Some(i) => i,
            None => {
                return Err(());
            },
        };
        let c = self.segments[idx];
        let ghost s0 = self@;
        let ghost start = self.spec_start();
        let ghost end = self.spec_end();
        proof {
            lemma_segments_bounds(start, end, s0);
            lemma_partition(start, end, s0);
            assert(c@ == s0[idx as int]);
            assert(size_legal(c@.size));
            assert forall|i: int| 0 <= i < s0.len() && s0[i].addr == segment implies i
                == idx by {
                self.lemma_unique_addr(i, idx as int);
            }
        }
        if c.in_use() {
            return Err(());
        }
        let p = match self.calculate_alloc_ptr_with_required_align(
            &c,
            subsegment_size,
            required_align,
        ) {
            Ok(p) => p,
            Err(()) => {
                return Err(());
            },
        };
        proof {
            lemma_aligned_payload(c@.addr, required_align as int);
        }
        let used_addr = p - HEADER_SIZE;
        self.carve(idx, used_addr, subsegment_size);
        Ok(used_addr)
    }

    /// Requirements on placing a used block of `request` bytes with its header
    /// at `used` inside the free block at index `idx`.
    spec fn carve_ok(&self, idx: int, used: int, request: int) -> bool {
        let c = self@[idx];
        &&& self.wf()
        &&& 0 <= idx < self@.len()
        &&& !c.in_use
        &&& size_legal(request)
        &&& c.addr <= used
        &&& (used - c.addr) % 16 == 0
        &&& used + request <= c.addr + c.size
    }

    /// Places a used block of `request` bytes with its header at `used` inside
    /// the free block at index `idx`.
    fn carve(&mut self, idx: usize, used: usize, request: usize)
        requires
            old(self).carve_ok(idx as int, used as int, request as int),
        ensures
            final(self).wf(),
            final(self).start == old(self).start,
            final(self).end_exclusive == old(self).end_exclusive,
            shape(final(self)@) == shape(old(self)@).take(idx as int) + carve_pieces(
                old(self)@[idx as int],
                used as int,
                request as int,
            ) + shape(old(self)@).skip(idx + 1),
    {
        let c = self.segments[idx];
        proof {
            lemma_segments_bounds(self.spec_start(), self.spec_end(), self@);
            assert(c@ == self@[idx as int]);
        }
        if used == c.addr() {
            if used + request == c.end_exclusive() {
                self.carve_whole(idx);
            } else {
                self.carve_front(idx, request);
            }
        } else {
            if used + request < c.end_exclusive() {
                self.carve_middle(idx, used, request);
            } else {
                self.carve_back(idx, used);
            }
        }
    }

    /// Marks the whole free block at index `idx` used.
    #[verifier::spinoff_prover]
    fn carve_whole(&mut self, idx: usize)
        requires
            old(self).carve_ok(
                idx as int,
                old(self)@[idx as int].addr,
                old(self)@[idx as int].size,
            ),
        ensures
            final(self).wf(),
            final(self).start == old(self).start,
            final(self).end_exclusive == old(self).end_exclusive,
            shape(final(self)@) == shape(old(self)@).take(idx as int) + carve_pieces(
                old(self)@[idx as int],
                old(self)@[idx as int].addr,
                old(self)@[idx as int].size,
            ) + shape(old(self)@).skip(idx + 1),
    {
        let ghost s0 = self@;
        let c = self.segments[idx];
        proof {
            lemma_block_bounds(self.spec_start(), self.spec_end(), s0, idx as int);
            lemma_block_count(self.spec_start(), self.spec_end(), s0);
            assert(c@ == s0[idx as int]);
        }
        let mut h = c;
        h.set_in_use(true);
        self.set_header(idx, h);
        proof {
            if idx + 1 < s0.len() {
                assert(linked(s0[idx as int], s0[idx + 1]));
            }
            lemma_ops_one(s0, idx as int, h@);
            assert(seq![h@] =~= carve_views(c@, c@.addr, c@.size));
            lemma_carve(self.spec_start(), self.spec_end(), s0, idx as int, c@.addr, c@.size);
        }
    }

    /// Uses the first `request` bytes of the free block at index `idx` and
    /// leaves the rest free behind it.
    #[verifier::spinoff_prover]
    fn carve_front(&mut self, idx: usize, request: usize)
        requires
            old(self).carve_ok(idx as int, old(self)@[idx as int].addr, request as int),
            request < old(self)@[idx as int].size,
        ensures
            final(self).wf(),
            final(self).start == old(self).start,
            final(self).end_exclusive == old(self).end_exclusive,
            shape(final(self)@) == shape(old(self)@).take(idx as int) + carve_pieces(
                old(self)@[idx as int],
                old(self)@[idx as int].addr,
                request as int,
            ) + shape(old(self)@).skip(idx + 1),
    {
        let ghost s0 = self@;
        let c = self.segments[idx];
        proof {
            lemma_block_bounds(self.spec_start(), self.spec_end(), s0, idx as int);
            lemma_block_count(self.spec_start(), self.spec_end(), s0);
            assert(c@ == s0[idx as int]);
        }
        let c_addr = c.addr();
        let c_end = c.end_exclusive();
        proof {
            assert(size_legal(c@.size));
            lemma_header_multiple(request as int);
            lemma_header_multiple(c_end - (c_addr + request));
        }
        let used_end = c_addr + request;
        let mut h = c;
        h.set_in_use(true);
        h.set_size(request);
        h.set_next_exists(true);
        let t = SegmentMetadata::new(used_end, c_addr, c_end - used_end, false, c.next_exists());
        self.set_header(idx, h);
        self.insert_header(idx + 1, t);
        self.fix_prev(idx + 2, used_end);
        self.num_nodes = self.num_nodes + 1;
        proof {
            lemma_ops_two(s0, idx as int, h@, t@);
            assert(seq![h@, t@] =~= carve_views(c@, c@.addr, request as int));
            lemma_carve(self.spec_start(), self.spec_end(), s0, idx as int, c@.addr, request as int);
        }
    }

    /// Uses `request` bytes from `used` on, inside the free block at index
    /// `idx`, and leaves free blocks in front of and behind them.
    #[verifier::spinoff_prover]
    fn carve_middle(&mut self, idx: usize, used: usize, request: usize)
        requires
            old(self).carve_ok(idx as int, used as int, request as int),
            old(self)@[idx as int].addr < used,
            used + request < old(self)@[idx as int].addr + old(self)@[idx as int].size,
        ensures
            final(self).wf(),
            final(self).start == old(self).start,
            final(self).end_exclusive == old(self).end_exclusive,
            shape(final(self)@) == shape(old(self)@).take(idx as int) + carve_pieces(
                old(self)@[idx as int],
                used as int,
                request as int,
            ) + shape(old(self)@).skip(idx + 1),
    {
        let ghost s0 = self@;
        let c = self.segments[idx];
        proof {
            lemma_block_bounds(self.spec_start(), self.spec_end(), s0, idx as int);
            lemma_block_count(self.spec_start(), self.spec_end(), s0);
            assert(c@ == s0[idx as int]);
        }
        let c_addr = c.addr();
        let c_end = c.end_exclusive();
        proof {
            assert(size_legal(c@.size));
            lemma_header_multiple(request as int);
            lemma_header_multiple(used - c_addr);
            lemma_header_multiple(c_end - (used + request));
        }
        let used_end = used + request;
        let mut lead = c;
        lead.set_size(used - c_addr);
        lead.set_next_exists(true);
        let u = SegmentMetadata::new(used, c_addr, request, true, true);
        let t = SegmentMetadata::new(used_end, used, c_end - used_end, false, c.next_exists());
        self.set_header(idx, lead);
        self.insert_header(idx + 1, u);
        self.insert_header(idx + 2, t);
        self.fix_prev(idx + 3, used_end);
        self.num_nodes = self.num_nodes + 2;
        proof {
            lemma_ops_three(s0, idx as int, lead@, u@, t@);
            assert(seq![lead@, u@, t@] =~= carve_views(c@, used as int, request as int));
            lemma_carve(self.spec_start(), self.spec_end(), s0, idx as int, used as int, request as int);
        }
    }

    /// Uses the bytes from `used` to the end of the free block at index `idx`
    /// and leaves the bytes in front of them free.
    #[verifier::spinoff_prover]
    fn carve_back(&mut self, idx: usize, used: usize)
        requires
            old(self).carve_ok(
                idx as int,
                used as int,
                old(self)@[idx as int].addr + old(self)@[idx as int].size - used,
            ),
            old(self)@[idx as int].addr < used,
        ensures
            final(self).wf(),
            final(self).start == old(self).start,
            final(self).end_exclusive == old(self).end_exclusive,
            shape(final(self)@) == shape(old(self)@).take(idx as int) + carve_pieces(
                old(self)@[idx as int],
                used as int,
                old(self)@[idx as int].addr + old(self)@[idx as int].size - used,
            ) + shape(old(self)@).skip(idx + 1),
    {
        let ghost s0 = self@;
        let c = self.segments[idx];
        proof {
            lemma_block_bounds(self.spec_start(), self.spec_end(), s0, idx as int);
            lemma_block_count(self.spec_start(), self.spec_end(), s0);
            assert(c@ == s0[idx as int]);
        }
        let c_addr = c.addr();
        let c_end = c.end_exclusive();
        proof {
            assert(size_legal(c@.size));
            lemma_header_multiple(used - c_addr);
            lemma_header_multiple(c_end - used);
        }
        let mut lead = c;
        lead.set_size(used - c_addr);
        lead.set_next_exists(true);
        let u = SegmentMetadata::new(used, c_addr, c_end - used, true, c.next_exists());
        self.set_header(idx, lead);
        self.insert_header(idx + 1, u);
        self.fix_prev(idx + 2, used);
        self.num_nodes = self.num_nodes + 1;
        proof {
            lemma_ops_two(s0, idx as int, lead@, u@);
            assert(seq![lead@, u@] =~= carve_views(c@, used as int, c_end - used));
            lemma_carve(self.spec_start(), self.spec_end(), s0, idx as int, used as int, c_end - used);
        }
    }

    /// Releases the used block whose header is at `segment` and merges it with
    /// whichever neighbours are free. Returns the address of the header of the
    /// free block that now holds it.
    pub fn delete_used_segment(&mut self, segment: usize) -> (r: Result<usize, ()>)
        requires
            old(self).wf(),
        ensures
            final(self).wf(),
            final(self).spec_start() == old(self).spec_start(),
            final(self).spec_end() == old(self).spec_end(),
            r is Ok <==> exists|i: int|
                0 <= i < old(self)@.len() && old(self)@[i].addr == segment && old(self)@[i].in_use,
            forall|i: int|
                0 <= i < old(self)@.len() && old(self)@[i].addr == segment && r is Ok ==> shape(
                    final(self)@,
                ) == free_shape(old(self)@, i) && r == Ok::<usize, ()>(
                    old(self)@[free_lo(old(self)@, i)].addr as usize,
                ),
            r is Err ==> *final(self) == *old(self),
    {
        let idx = match self.find_segment(segment) {
            Some(i) => i,
            None => {
                return Err(());
            },
        };
        let ghost s0 = self@;
        proof {
            assert forall|i: int| 0 <= i < s0.len() && s0[i].addr == segment implies i
                == idx by {
                self.lemma_unique_addr(i, idx as int);
            }
        }
        if !self.segments[idx].in_use() {
            return Err(());
        }
        let lo = if idx > 0 && !self.segments[idx - 1].in_use() {
            idx - 1
        } else {
            idx
        };
        let hi = if idx + 1 < self.segments.len() && !self.segments[idx + 1].in_use() {
            idx + 1
        } else {
            idx
        };
        proof {
            if lo < idx && lo > 0 {
                assert(coalesced(s0[lo - 1], s0[lo as int]));
            }
            if hi > idx && hi + 1 < s0.len() {
                assert(coalesced(s0[hi as int], s0[hi + 1]));
            }
        }
        let addr = self.merge(lo, hi);
        Ok(addr)
    }

    /// Replaces the blocks `lo..=hi` by one free block over the same bytes.
    #[verifier::spinoff_prover]
    fn merge(&mut self, lo: usize, hi: usize) -> (r: usize)
        requires
            old(self).wf(),
            lo <= hi < old(self)@.len(),
            hi <= lo + 2,
            lo > 0 ==> old(self)@[lo - 1].in_use,
            hi + 1 < old(self)@.len() ==> old(self)@[hi + 1].in_use,
        ensures
            final(self).wf(),
            final(self).start == old(self).start,
            final(self).end_exclusive == old(self).end_exclusive,
            r == old(self)@[lo as int].addr,
            shape(final(self)@) == shape(old(self)@).take(lo as int) + seq![
                (
                    old(self)@[hi as int].addr + old(self)@[hi as int].size - old(
                        self,
                    )@[lo as int].addr,
                    false,
                ),
            ] + shape(old(self)@).skip(hi + 1),
    {
        let ghost s0 = self@;
        let first = self.segments[lo];
        let last = self.segments[hi];
        proof {
            lemma_segments_bounds(self.spec_start(), self.spec_end(), s0);
            if lo < hi {
                lemma_ordered_pair(self.spec_start(), self.spec_end(), s0, lo as int, hi as int);
            }
            assert(first@ == s0[lo as int] && last@ == s0[hi as int]);
            assert(size_legal(s0[hi as int].size));
            lemma_header_multiple(s0[hi as int].addr + s0[hi as int].size - s0[lo as int].addr);
        }
        let first_addr = first.addr();
        let m = SegmentMetadata::new(
            first_addr,
            first.prev(),
            last.end_exclusive() - first_addr,
            false,
            last.next_exists(),
        );
        self.set_header(lo, m);
        let ghost v1 = self@;
        if hi > lo {
            self.remove_header(lo + 1);
        }
        let ghost v2 = self@;
        if hi > lo + 1 {
            self.remove_header(lo + 1);
        }
        let ghost v3 = self@;
        self.fix_prev(lo + 1, first_addr);
        self.num_nodes = self.num_nodes - (hi - lo);
        proof {
            assert(v1 == s0.update(lo as int, m@));
            assert(v2 == if hi > lo {
                v1.remove(lo + 1)
            } else {
                v1
            });
            assert(v3 == if hi > lo + 1 {
                v2.remove(lo + 1)
            } else {
                v2
            });
            assert(self@ == with_prev(v3, lo + 1, first_addr as int));
            lemma_ops_merge(s0, lo as int, hi as int, m@);
            lemma_merge(self.spec_start(), self.spec_end(), s0, lo as int, hi as int);
        }
        first_addr
    }

    /// Where the payload of a used block of `subsegment_size` bytes would start
    /// if it were carved from `segment` with its payload aligned to
    /// `required_align`; an error where it does not fit.
    pub fn calculate_alloc_ptr_with_required_align(
        &self,
        segment: &SegmentMetadata,
        subsegment_size: usize,
        required_align: usize,
    ) -> (r: Result<usize, ()>)
        requires
            required_align > 0,
            size_legal(segment@.size),
            segment@.addr + segment@.size <= usize::MAX,
        ensures
            r is Ok <==> split_fits(segment@, subsegment_size as int, required_align as int),
            r matches Ok(p) ==> p == aligned_payload(segment@.addr, required_align as int),
    {
        let size = segment.size();
        if subsegment_size < HEADER_SIZE || subsegment_size > size || subsegment_size
            % HEADER_SIZE != 0 {
            return Err(());
        }
        let addr = segment.addr();
        let end = segment.end_exclusive();
        let payload = segment.alloc_start_ptr();
        let rem = payload % required_align;
        let p = if rem == 0 {
            payload
        } else {
            let gap = required_align - rem;
            if gap > end - payload {
                return Err(());
            }
            payload + gap
        };
        if subsegment_size > end - (p - HEADER_SIZE) {
            return Err(());
        }
        Ok(p)
    }
}

impl<'a> MemorySegmenterIter<'a> {
    /// The headers walked over, as the contracts see them.
    pub closed spec fn segments(&self) -> Seq<SegmentView> {
        self.segmenter@
    }

    /// How many headers were handed out so far.
    pub closed spec fn pos(&self) -> int {
        self.pos as int
    }

    /// The next header in address order, if any is left.
    pub fn next(&mut self) -> (r: Option<SegmentMetadata>)
        ensures
            final(self).segments() == old(self).segments(),
            old(self).pos() < old(self).segments().len() ==> final(self).pos() == old(self).pos()
                + 1 && (r matches Some(h) && h@ == old(self).segments()[old(self).pos()]),
            old(self).pos() >= old(self).segments().len() ==> final(self).pos() == old(self).pos()
                && r is None,
    {
        if self.pos < self.segmenter.segments.len() {
            let h = self.segmenter.segments[self.pos];
            self.pos = self.pos + 1;
            Some(h)
        } else {
            None
        }
    }
}

} // verus!
