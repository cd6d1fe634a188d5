//! The model of a managed region: its blocks in address order, the invariants
//! that tie them together, and what splitting and freeing do to them.
use vstd::arithmetic::div_mod::{lemma_fundamental_div_mod, lemma_mod_mod, lemma_mod_multiples_basic};
use vstd::prelude::*;

use crate::segment::{SegmentView, HEADER_SIZE};

verus! {

/// A legal block size: a positive multiple of the header size.
pub open spec fn size_legal(size: int) -> bool {
    size >= HEADER_SIZE && size % 16 == 0
}

/// `b` follows `a` directly: it starts where `a` ends and links back to it.
pub open spec fn linked(a: SegmentView, b: SegmentView) -> bool {
    &&& a.next_exists
    &&& b.addr == a.addr + a.size
    &&& b.prev == a.addr
}

/// Two neighbouring blocks are not both free.
pub open spec fn coalesced(a: SegmentView, b: SegmentView) -> bool {
    a.in_use || b.in_use
}

/// The blocks `s` partition the region `[start, end)`: they are chained in
/// address order from `start` to `end` with no gap, every size is legal, the
/// first block has no back link, only the last block has no successor, and no
/// two neighbouring blocks are both free.
pub open spec fn segments_wf(start: int, end: int, s: Seq<SegmentView>) -> bool {
    &&& 0 < start
    &&& start % 16 == 0
    &&& s.len() >= 1
    &&& s[0].addr == start
    &&& s[0].prev == 0
    &&& s.last().addr + s.last().size == end
    &&& !s.last().next_exists
    &&& forall|i: int| 0 <= i < s.len() ==> size_legal(#[trigger] s[i].size)
    &&& forall|i: int, j: int| 0 <= i && j == i + 1 && j < s.len() ==> #[trigger] linked(s[i], s[j])
    &&& forall|i: int, j: int|
        0 <= i && j == i + 1 && j < s.len() ==> #[trigger] coalesced(s[i], s[j])
}

/// Size and in-use flag of each block, in address order. Under `segments_wf`
/// this and the start address fix every other field.
pub open spec fn shape(s: Seq<SegmentView>) -> Seq<(int, bool)> {
    s.map_values(|b: SegmentView| (b.size, b.in_use))
}

/// Sum of the block sizes.
pub open spec fn sum_sizes(s: Seq<SegmentView>) -> int
    decreases s.len(),
{
    if s.len() == 0 {
        0
    } else {
        sum_sizes(s.drop_last()) + s.last().size
    }
}

/// `s` with the blocks `lo..=hi` replaced by `pieces`; the block after them, if
/// any, links back to the last piece.
#[verifier::opaque]
pub open spec fn replaced(s: Seq<SegmentView>, lo: int, hi: int, pieces: Seq<SegmentView>) -> Seq<
    SegmentView,
> {
    let rest = s.skip(hi + 1);
    let rest2 = if rest.len() > 0 {
        rest.update(0, SegmentView { prev: pieces.last().addr, ..rest[0] })
    } else {
        rest
    };
    s.take(lo) + pieces + rest2
}

/// The least payload address at or above `addr + HEADER_SIZE` that is a
/// multiple of `align`.
pub open spec fn aligned_payload(addr: int, align: int) -> int {
    let payload = addr + HEADER_SIZE;
    if payload % align == 0 {
        payload
    } else {
        payload + (align - payload % align)
    }
}

/// A used block of `request` bytes, whose payload is aligned to `align`, fits in
/// block `c`.
pub open spec fn split_fits(c: SegmentView, request: int, align: int) -> bool {
    &&& size_legal(request)
    &&& request <= c.size
    &&& aligned_payload(c.addr, align) - HEADER_SIZE + request <= c.addr + c.size
}

/// Sizes and flags of the blocks that replace block `c` when a used block of
/// `request` bytes is placed with its header at `used`: a free leading remainder
/// where `used` lies above `c`'s header, the used block, and a free trailing
/// remainder where bytes are left over.
pub open spec fn carve_pieces(c: SegmentView, used: int, request: int) -> Seq<(int, bool)> {
    let lead = used - c.addr;
    let trail = c.addr + c.size - (used + request);
    (if lead > 0 {
        seq![(lead, false)]
    } else {
        Seq::<(int, bool)>::empty()
    }) + seq![(request, true)] + (if trail > 0 {
        seq![(trail, false)]
    } else {
        Seq::<(int, bool)>::empty()
    })
}

/// Sizes and flags of the blocks that replace block `c` when a used block of
/// `request` bytes, whose payload is aligned to `align`, is carved from it.
pub open spec fn split_pieces(c: SegmentView, request: int, align: int) -> Seq<(int, bool)> {
    carve_pieces(c, aligned_payload(c.addr, align) - HEADER_SIZE, request)
}

/// Sizes and flags of all blocks after block `i` of `s` was split.
pub open spec fn split_shape(s: Seq<SegmentView>, i: int, request: int, align: int) -> Seq<
    (int, bool),
> {
    shape(s).take(i) + split_pieces(s[i], request, align) + shape(s).skip(i + 1)
}

/// First block that freeing block `i` merges: its predecessor where that is free.
pub open spec fn free_lo(s: Seq<SegmentView>, i: int) -> int {
    if i > 0 && !s[i - 1].in_use {
        i - 1
    } else {
        i
    }
}

/// Last block that freeing block `i` merges: its successor where that is free.
pub open spec fn free_hi(s: Seq<SegmentView>, i: int) -> int {
    if i + 1 < s.len() && !s[i + 1].in_use {
        i + 1
    } else {
        i
    }
}

/// Sizes and flags of all blocks after block `i` of `s` was freed and merged
/// with its free neighbours.
pub open spec fn free_shape(s: Seq<SegmentView>, i: int) -> Seq<(int, bool)> {
    let lo = free_lo(s, i);
    let hi = free_hi(s, i);
    shape(s).take(lo) + seq![(s[hi].addr + s[hi].size - s[lo].addr, false)] + shape(s).skip(
        hi + 1,
    )
}

/// Where a block is header-aligned and the alignment a multiple of the header
/// size, the aligned payload is header-aligned, aligned as asked, less than one
/// alignment above the first possible payload, and, where it had to move up,
/// leaves room for a whole block in front of its header.
pub proof fn lemma_aligned_payload(addr: int, align: int)
    requires
        0 <= addr,
        addr % 16 == 0,
        0 < align,
        align % 16 == 0,
    ensures
        aligned_payload(addr, align) % 16 == 0,
        aligned_payload(addr, align) % align == 0,
        addr + HEADER_SIZE <= aligned_payload(addr, align) < addr + HEADER_SIZE + align,
        aligned_payload(addr, align) != addr + HEADER_SIZE ==> aligned_payload(addr, align) >= addr
            + 2 * HEADER_SIZE,
{
    let payload = addr + HEADER_SIZE;
    let rem = payload % align;
    let q = payload / align;
    if rem != 0 {
        lemma_fundamental_div_mod(payload, align);
        lemma_fundamental_div_mod(align, 16);
        let k = align / 16;
        assert(k > 0);
        lemma_mod_mod(payload, 16, k);
        assert(rem % 16 == 0);
        assert(payload + (align - rem) == (q + 1) * align) by (nonlinear_arith)
            requires
                payload == align * q + rem,
        ;
        lemma_mod_multiples_basic(q + 1, align);
    }
}

/// `s` with the block at index `i`, where there is one, linked back to `prev`.
pub(crate) open spec fn with_prev(s: Seq<SegmentView>, i: int, prev: int) -> Seq<SegmentView> {
    if 0 <= i < s.len() {
        s.update(i, SegmentView { prev, ..s[i] })
    } else {
        s
    }
}

/// Overwriting one block in place is replacing it by itself.
pub(crate) proof fn lemma_ops_one(s0: Seq<SegmentView>, idx: int, a: SegmentView)
    requires
        0 <= idx < s0.len(),
        idx + 1 < s0.len() ==> s0[idx + 1].prev == a.addr,
    ensures
        s0.update(idx, a) == replaced(s0, idx, idx, seq![a]),
{
    reveal(replaced);
    let r = replaced(s0, idx, idx, seq![a]);
    if idx + 1 < s0.len() {
        assert(r[idx + 1] == s0[idx + 1]);
    }
    assert(s0.update(idx, a) =~= r);
}

/// Overwriting a block and inserting one after it, then relinking the next
/// block, replaces the block by the two.
pub(crate) proof fn lemma_ops_two(s0: Seq<SegmentView>, idx: int, a: SegmentView, b: SegmentView)
    requires
        0 <= idx < s0.len(),
    ensures
        with_prev(s0.update(idx, a).insert(idx + 1, b), idx + 2, b.addr) == replaced(
            s0,
            idx,
            idx,
            seq![a, b],
        ),
{
    reveal(replaced);
    assert(with_prev(s0.update(idx, a).insert(idx + 1, b), idx + 2, b.addr) =~= replaced(
        s0,
        idx,
        idx,
        seq![a, b],
    ));
}

/// Overwriting a block and inserting two after it, then relinking the next
/// block, replaces the block by the three.
pub(crate) proof fn lemma_ops_three(
    s0: Seq<SegmentView>,
    idx: int,
    a: SegmentView,
    b: SegmentView,
    c: SegmentView,
)
    requires
        0 <= idx < s0.len(),
    ensures
        with_prev(s0.update(idx, a).insert(idx + 1, b).insert(idx + 2, c), idx + 3, c.addr)
            == replaced(s0, idx, idx, seq![a, b, c]),
{
    reveal(replaced);
    assert(with_prev(s0.update(idx, a).insert(idx + 1, b).insert(idx + 2, c), idx + 3, c.addr)
        =~= replaced(s0, idx, idx, seq![a, b, c]));
}

/// `s0` with block `lo` overwritten by `m`, the `hi - lo` blocks after it
/// removed, and the block that then follows linked back to `m`.
pub(crate) open spec fn merged_ops(s0: Seq<SegmentView>, lo: int, hi: int, m: SegmentView) -> Seq<
    SegmentView,
> {
    let v1 = s0.update(lo, m);
    let v2 = if hi > lo {
        v1.remove(lo + 1)
    } else {
        v1
    };
    let v3 = if hi > lo + 1 {
        v2.remove(lo + 1)
    } else {
        v2
    };
    with_prev(v3, lo + 1, m.addr)
}

/// `merged_ops` replaces the run `lo..=hi` by `m`.
pub(crate) proof fn lemma_ops_merge(s0: Seq<SegmentView>, lo: int, hi: int, m: SegmentView)
    requires
        0 <= lo <= hi < s0.len(),
        hi <= lo + 2,
    ensures
        merged_ops(s0, lo, hi, m) == replaced(s0, lo, hi, seq![m]),
{
    reveal(replaced);
    assert(merged_ops(s0, lo, hi, m) =~= replaced(s0, lo, hi, seq![m]));
}

/// The headers that replace the free block `c` when a used block of `request`
/// bytes is placed with its header at `used`, in the shape `carve_pieces` gives.
pub open spec fn carve_views(c: SegmentView, used: int, request: int) -> Seq<SegmentView> {
    let has_lead = used > c.addr;
    let has_trail = used + request < c.addr + c.size;
    let lead = SegmentView {
        addr: c.addr,
        prev: c.prev,
        size: used - c.addr,
        in_use: false,
        next_exists: true,
    };
    let body = SegmentView {
        addr: used,
        prev: if has_lead {
            c.addr
        } else {
            c.prev
        },
        size: request,
        in_use: true,
        next_exists: if has_trail {
            true
        } else {
            c.next_exists
        },
    };
    let trail = SegmentView {
        addr: used + request,
        prev: used,
        size: c.addr + c.size - (used + request),
        in_use: false,
        next_exists: c.next_exists,
    };
    (if has_lead {
        seq![lead]
    } else {
        Seq::<SegmentView>::empty()
    }) + seq![body] + (if has_trail {
        seq![trail]
    } else {
        Seq::<SegmentView>::empty()
    })
}

/// Carving a used block out of a free block keeps the region well formed.
pub proof fn lemma_carve(
    start: int,
    end: int,
    s: Seq<SegmentView>,
    idx: int,
    used: int,
    request: int,
)
    requires
        segments_wf(start, end, s),
        0 <= idx < s.len(),
        !s[idx].in_use,
        size_legal(request),
        s[idx].addr <= used,
        (used - s[idx].addr) % 16 == 0,
        used + request <= s[idx].addr + s[idx].size,
    ensures
        segments_wf(start, end, replaced(s, idx, idx, carve_views(s[idx], used, request))),
        shape(replaced(s, idx, idx, carve_views(s[idx], used, request))) == shape(s).take(idx)
            + carve_pieces(s[idx], used, request) + shape(s).skip(idx + 1),
{
    let c = s[idx];
    let pieces = carve_views(c, used, request);
    lemma_segments_bounds(start, end, s);
    assert(size_legal(c.size));
    if idx > 0 {
        assert(coalesced(s[idx - 1], s[idx]));
    }
    if idx + 1 < s.len() {
        assert(coalesced(s[idx], s[idx + 1]));
        assert(linked(s[idx], s[idx + 1]));
    }
    assert forall|k: int| 0 <= k < pieces.len() implies size_legal(#[trigger] pieces[k].size) by {}
    assert forall|k: int, m: int|
        0 <= k && m == k + 1 && m < pieces.len() implies #[trigger] linked(pieces[k], pieces[m])
        by {}
    assert forall|k: int, m: int|
        0 <= k && m == k + 1 && m < pieces.len() implies #[trigger] coalesced(pieces[k], pieces[m])
        by {}
    lemma_replace(start, end, s, idx, idx, pieces);
    assert(shape(pieces) =~= carve_pieces(c, used, request));
}

/// Merging the blocks `lo..=hi` into one free block, where the blocks around
/// them are used, keeps the region well formed.
pub proof fn lemma_merge(start: int, end: int, s: Seq<SegmentView>, lo: int, hi: int)
    requires
        segments_wf(start, end, s),
        0 <= lo <= hi < s.len(),
        lo > 0 ==> s[lo - 1].in_use,
        hi + 1 < s.len() ==> s[hi + 1].in_use,
    ensures
        ({
            let m = SegmentView {
                addr: s[lo].addr,
                prev: s[lo].prev,
                size: s[hi].addr + s[hi].size - s[lo].addr,
                in_use: false,
                next_exists: s[hi].next_exists,
            };
            &&& segments_wf(start, end, replaced(s, lo, hi, seq![m]))
            &&& shape(replaced(s, lo, hi, seq![m])) == shape(s).take(lo) + seq![
                (s[hi].addr + s[hi].size - s[lo].addr, false),
            ] + shape(s).skip(hi + 1)
        }),
{
    let m = SegmentView {
        addr: s[lo].addr,
        prev: s[lo].prev,
        size: s[hi].addr + s[hi].size - s[lo].addr,
        in_use: false,
        next_exists: s[hi].next_exists,
    };
    lemma_segments_bounds(start, end, s);
    if lo < hi {
        lemma_ordered_pair(start, end, s, lo, hi);
    }
    assert(size_legal(s[hi].size));
    if lo > 0 {
        assert(coalesced(s[lo - 1], s[lo]));
    }
    if hi + 1 < s.len() {
        assert(coalesced(s[hi], s[hi + 1]));
    }
    lemma_replace(start, end, s, lo, hi, seq![m]);
    assert(shape(seq![m]) =~= seq![(s[hi].addr + s[hi].size - s[lo].addr, false)]);
}

/// The blocks of a well-formed region lie within the region, on
/// header-aligned addresses.
pub proof fn lemma_segments_bounds(start: int, end: int, s: Seq<SegmentView>)
    requires
        segments_wf(start, end, s),
    ensures
        forall|i: int|
            0 <= i < s.len() ==> start <= #[trigger] s[i].addr && s[i].addr + s[i].size <= end
                && s[i].addr % 16 == 0,
{
    assert forall|i: int| 0 <= i < s.len() implies start <= #[trigger] s[i].addr && s[i].addr
        + s[i].size <= end && s[i].addr % 16 == 0 by {
        if i > 0 {
            lemma_ordered_pair(start, end, s, 0, i);
        }
        if i < s.len() - 1 {
            lemma_ordered_pair(start, end, s, i, s.len() - 1);
        }
        lemma_aligned(start, end, s, i);
    }
}

/// Block `i` lies within the region, on a header-aligned address.
pub proof fn lemma_block_bounds(start: int, end: int, s: Seq<SegmentView>, i: int)
    requires
        segments_wf(start, end, s),
        0 <= i < s.len(),
    ensures
        start <= s[i].addr,
        s[i].addr + s[i].size <= end,
        s[i].addr % 16 == 0,
        size_legal(s[i].size),
{
    lemma_segments_bounds(start, end, s);
}

/// There is room to count a few more blocks than a well-formed region has.
pub proof fn lemma_block_count(start: int, end: int, s: Seq<SegmentView>)
    requires
        segments_wf(start, end, s),
    ensures
        s.len() + 2 < end - start,
{
    lemma_partition(start, end, s);
}

/// The blocks of a well-formed region lie in address order, each one ending at
/// or before the start of any later one.
pub proof fn lemma_segments_ordered(start: int, end: int, s: Seq<SegmentView>)
    requires
        segments_wf(start, end, s),
    ensures
        forall|i: int, j: int|
            0 <= i < j < s.len() ==> #[trigger] s[i].addr + s[i].size <= #[trigger] s[j].addr,
{
    assert forall|i: int, j: int|
        0 <= i < j < s.len() implies #[trigger] s[i].addr + s[i].size <= #[trigger] s[j].addr by {
        lemma_ordered_pair(start, end, s, i, j);
    }
}

/// Block `i` ends at or before the start of a later block `j`.
pub(crate) proof fn lemma_ordered_pair(start: int, end: int, s: Seq<SegmentView>, i: int, j: int)
    requires
        segments_wf(start, end, s),
        0 <= i < j < s.len(),
    ensures
        s[i].addr + s[i].size <= s[j].addr,
    decreases j - i,
{
    assert(linked(s[j - 1], s[j]));
    if i < j - 1 {
        lemma_ordered_pair(start, end, s, i, j - 1);
    }
}

/// Block `i` starts on a header-aligned address.
proof fn lemma_aligned(start: int, end: int, s: Seq<SegmentView>, i: int)
    requires
        segments_wf(start, end, s),
        0 <= i < s.len(),
    ensures
        s[i].addr % 16 == 0,
    decreases i,
{
    if i > 0 {
        lemma_aligned(start, end, s, i - 1);
        assert(linked(s[i - 1], s[i]));
        assert(size_legal(s[i - 1].size));
    }
}

/// The block sizes add up to the size of the region, so there are at most as
/// many blocks as headers fit in it.
pub proof fn lemma_partition(start: int, end: int, s: Seq<SegmentView>)
    requires
        segments_wf(start, end, s),
    ensures
        sum_sizes(s) == end - start,
        s.len() * 16 <= end - start,
        s.len() + 2 < end - start,
{
    lemma_prefix_sum(start, end, s, s.len() - 1);
    assert(s.drop_last() =~= s.take(s.len() - 1));
    assert(size_legal(s.last().size));
}

/// The blocks before block `i` add up to its offset from the start.
proof fn lemma_prefix_sum(start: int, end: int, s: Seq<SegmentView>, i: int)
    requires
        segments_wf(start, end, s),
        0 <= i < s.len(),
    ensures
        sum_sizes(s.take(i)) == s[i].addr - start,
        i * 16 <= sum_sizes(s.take(i)),
    decreases i,
{
    if i == 0 {
        assert(s.take(0) =~= Seq::<SegmentView>::empty());
    } else {
        lemma_prefix_sum(start, end, s, i - 1);
        assert(s.take(i).drop_last() =~= s.take(i - 1));
        assert(linked(s[i - 1], s[i]));
        assert(size_legal(s[i - 1].size));
    }
}

/// Replacing a run of blocks by pieces that cover exactly the same bytes, are
/// legal and chained among themselves, and leave no two free blocks side by
/// side keeps the region well formed.
pub proof fn lemma_replace(
    start: int,
    end: int,
    s: Seq<SegmentView>,
    lo: int,
    hi: int,
    pieces: Seq<SegmentView>,
)
    requires
        segments_wf(start, end, s),
        0 <= lo <= hi < s.len(),
        pieces.len() >= 1,
        pieces[0].addr == s[lo].addr,
        pieces[0].prev == s[lo].prev,
        pieces.last().addr + pieces.last().size == s[hi].addr + s[hi].size,
        pieces.last().next_exists == s[hi].next_exists,
        forall|k: int| 0 <= k < pieces.len() ==> size_legal(#[trigger] pieces[k].size),
        forall|k: int, m: int|
            0 <= k && m == k + 1 && m < pieces.len() ==> #[trigger] linked(pieces[k], pieces[m]),
        forall|k: int, m: int|
            0 <= k && m == k + 1 && m < pieces.len() ==> #[trigger] coalesced(pieces[k], pieces[m]),
        lo > 0 ==> s[lo - 1].in_use || pieces[0].in_use,
        hi < s.len() - 1 ==> pieces.last().in_use || s[hi + 1].in_use,
    ensures
        segments_wf(start, end, replaced(s, lo, hi, pieces)),
        shape(replaced(s, lo, hi, pieces)) == shape(s).take(lo) + shape(pieces) + shape(s).skip(
            hi + 1,
        ),
{
    lemma_replaced_facts(s, lo, hi, pieces);
    lemma_replace_sizes(start, end, s, lo, hi, pieces);
    lemma_replace_links(start, end, s, lo, hi, pieces);
    lemma_replace_ends(start, end, s, lo, hi, pieces);
}

/// Every size after `replaced` is legal.
proof fn lemma_replace_sizes(
    start: int,
    end: int,
    s: Seq<SegmentView>,
    lo: int,
    hi: int,
    pieces: Seq<SegmentView>,
)
    requires
        segments_wf(start, end, s),
        0 <= lo <= hi < s.len(),
        pieces.len() >= 1,
        pieces[0].addr == s[lo].addr,
        pieces[0].prev == s[lo].prev,
        pieces.last().addr + pieces.last().size == s[hi].addr + s[hi].size,
        pieces.last().next_exists == s[hi].next_exists,
        forall|k: int| 0 <= k < pieces.len() ==> size_legal(#[trigger] pieces[k].size),
        forall|k: int, m: int|
            0 <= k && m == k + 1 && m < pieces.len() ==> #[trigger] linked(pieces[k], pieces[m]),
        forall|k: int, m: int|
            0 <= k && m == k + 1 && m < pieces.len() ==> #[trigger] coalesced(pieces[k], pieces[m]),
        lo > 0 ==> s[lo - 1].in_use || pieces[0].in_use,
        hi < s.len() - 1 ==> pieces.last().in_use || s[hi + 1].in_use,
    ensures
        forall|i: int| 0 <= i < replaced(s, lo, hi, pieces).len() ==> size_legal(
            #[trigger] replaced(s, lo, hi, pieces)[i].size,
        ),
{
    let r = replaced(s, lo, hi, pieces);
    let p = pieces.len();
    let n = s.len();
    lemma_replaced_facts(s, lo, hi, pieces);
    assert forall|i: int| 0 <= i < r.len() implies size_legal(#[trigger] r[i].size) by {
        if i < lo {
        } else if i < lo + p {
            assert(r[i] == pieces[i - lo]);
        } else {
            assert(r[i].size == s[i - lo - p + hi + 1].size);
        }
    }
}

/// Every pair of neighbours after `replaced` is linked and coalesced.
proof fn lemma_replace_links(
    start: int,
    end: int,
    s: Seq<SegmentView>,
    lo: int,
    hi: int,
    pieces: Seq<SegmentView>,
)
    requires
        segments_wf(start, end, s),
        0 <= lo <= hi < s.len(),
        pieces.len() >= 1,
        pieces[0].addr == s[lo].addr,
        pieces[0].prev == s[lo].prev,
        pieces.last().addr + pieces.last().size == s[hi].addr + s[hi].size,
        pieces.last().next_exists == s[hi].next_exists,
        forall|k: int| 0 <= k < pieces.len() ==> size_legal(#[trigger] pieces[k].size),
        forall|k: int, m: int|
            0 <= k && m == k + 1 && m < pieces.len() ==> #[trigger] linked(pieces[k], pieces[m]),
        forall|k: int, m: int|
            0 <= k && m == k + 1 && m < pieces.len() ==> #[trigger] coalesced(pieces[k], pieces[m]),
        lo > 0 ==> s[lo - 1].in_use || pieces[0].in_use,
        hi < s.len() - 1 ==> pieces.last().in_use || s[hi + 1].in_use,
    ensures
        forall|i: int, j: int|
            0 <= i && j == i + 1 && j < replaced(s, lo, hi, pieces).len() ==> #[trigger] linked(
                replaced(s, lo, hi, pieces)[i],
                replaced(s, lo, hi, pieces)[j],
            ),
        forall|i: int, j: int|
            0 <= i && j == i + 1 && j < replaced(s, lo, hi, pieces).len() ==> #[trigger] coalesced(
                replaced(s, lo, hi, pieces)[i],
                replaced(s, lo, hi, pieces)[j],
            ),
{
    let r = replaced(s, lo, hi, pieces);
    let p = pieces.len();
    let n = s.len();
    lemma_replaced_facts(s, lo, hi, pieces);
    assert forall|i: int, j: int| 0 <= i && j == i + 1 && j < r.len() implies #[trigger] linked(
        r[i],
        r[j],
    ) by {
        lemma_replace_link_at(start, end, s, lo, hi, pieces, i);
    }
    assert forall|i: int, j: int|
        0 <= i && j == i + 1 && j < r.len() implies #[trigger] coalesced(r[i], r[j]) by {
        lemma_replace_link_at(start, end, s, lo, hi, pieces, i);
    }
}

/// Blocks `i` and `i + 1` after `replaced` are linked and coalesced.
proof fn lemma_replace_link_at(
    start: int,
    end: int,
    s: Seq<SegmentView>,
    lo: int,
    hi: int,
    pieces: Seq<SegmentView>,
    i: int,
)
    requires
        segments_wf(start, end, s),
        0 <= lo <= hi < s.len(),
        pieces.len() >= 1,
        pieces[0].addr == s[lo].addr,
        pieces[0].prev == s[lo].prev,
        pieces.last().addr + pieces.last().size == s[hi].addr + s[hi].size,
        pieces.last().next_exists == s[hi].next_exists,
        forall|k: int| 0 <= k < pieces.len() ==> size_legal(#[trigger] pieces[k].size),
        forall|k: int, m: int|
            0 <= k && m == k + 1 && m < pieces.len() ==> #[trigger] linked(pieces[k], pieces[m]),
        forall|k: int, m: int|
            0 <= k && m == k + 1 && m < pieces.len() ==> #[trigger] coalesced(pieces[k], pieces[m]),
        lo > 0 ==> s[lo - 1].in_use || pieces[0].in_use,
        hi < s.len() - 1 ==> pieces.last().in_use || s[hi + 1].in_use,
        0 <= i < replaced(s, lo, hi, pieces).len() - 1,
    ensures
        linked(replaced(s, lo, hi, pieces)[i], replaced(s, lo, hi, pieces)[i + 1]),
        coalesced(replaced(s, lo, hi, pieces)[i], replaced(s, lo, hi, pieces)[i + 1]),
{
    let r = replaced(s, lo, hi, pieces);
    let p = pieces.len();
    let n = s.len();
    lemma_replaced_facts(s, lo, hi, pieces);
    if i < lo - 1 {
        assert(linked(s[i], s[i + 1]));
        assert(coalesced(s[i], s[i + 1]));
    } else if i == lo - 1 {
        assert(r[i + 1] == pieces[0]);
        assert(linked(s[i], s[i + 1]));
    } else if i < lo + p - 1 {
        assert(r[i] == pieces[i - lo]);
        assert(r[i + 1] == pieces[i - lo + 1]);
        assert(linked(pieces[i - lo], pieces[i - lo + 1]));
        assert(coalesced(pieces[i - lo], pieces[i - lo + 1]));
    } else if i == lo + p - 1 {
        assert(r[i] == pieces[p - 1]);
        assert(linked(s[hi], s[hi + 1]));
    } else {
        let j = i - lo - p + hi + 1;
        assert(r[i].addr == s[j].addr && r[i].size == s[j].size && r[i].next_exists
            == s[j].next_exists && r[i].in_use == s[j].in_use);
        assert(r[i + 1] == s[j + 1]);
        assert(linked(s[j], s[j + 1]));
        assert(coalesced(s[j], s[j + 1]));
    }
}

/// The first and last blocks after `replaced` sit at the ends of the region.
proof fn lemma_replace_ends(
    start: int,
    end: int,
    s: Seq<SegmentView>,
    lo: int,
    hi: int,
    pieces: Seq<SegmentView>,
)
    requires
        segments_wf(start, end, s),
        0 <= lo <= hi < s.len(),
        pieces.len() >= 1,
        pieces[0].addr == s[lo].addr,
        pieces[0].prev == s[lo].prev,
        pieces.last().addr + pieces.last().size == s[hi].addr + s[hi].size,
        pieces.last().next_exists == s[hi].next_exists,
        forall|k: int| 0 <= k < pieces.len() ==> size_legal(#[trigger] pieces[k].size),
        forall|k: int, m: int|
            0 <= k && m == k + 1 && m < pieces.len() ==> #[trigger] linked(pieces[k], pieces[m]),
        forall|k: int, m: int|
            0 <= k && m == k + 1 && m < pieces.len() ==> #[trigger] coalesced(pieces[k], pieces[m]),
        lo > 0 ==> s[lo - 1].in_use || pieces[0].in_use,
        hi < s.len() - 1 ==> pieces.last().in_use || s[hi + 1].in_use,
    ensures
        ({
            let r = replaced(s, lo, hi, pieces);
            r[0].addr == start && r[0].prev == 0 && r.last().addr + r.last().size == end
                && !r.last().next_exists
        }),
{
    let r = replaced(s, lo, hi, pieces);
    let p = pieces.len();
    let n = s.len();
    lemma_replaced_facts(s, lo, hi, pieces);
    if lo == 0 {
        assert(r[0] == pieces[0]);
    } else {
        assert(r[0] == s[0]);
    }
    if hi == n - 1 {
        assert(r.last() == pieces[p - 1]);
    } else {
        let j = n - 1;
        assert(r.last().addr == s[j].addr && r.last().size == s[j].size && r.last().next_exists
            == s[j].next_exists);
    }
}

/// What each index of `replaced` holds, and its shape.
proof fn lemma_replaced_facts(s: Seq<SegmentView>, lo: int, hi: int, pieces: Seq<SegmentView>)
    requires
        0 <= lo <= hi < s.len(),
        pieces.len() >= 1,
    ensures
        ({
            let r = replaced(s, lo, hi, pieces);
            let p = pieces.len();
            let n = s.len();
            &&& r.len() == lo + p + (n - hi - 1)
            &&& forall|k: int| 0 <= k < lo ==> #[trigger] r[k] == s[k]
            &&& forall|k: int| lo <= k < lo + p ==> #[trigger] r[k] == pieces[k - lo]
            &&& forall|k: int| lo + p < k < r.len() ==> #[trigger] r[k] == s[k - lo - p + hi + 1]
            &&& hi + 1 < n ==> r[lo + p] == SegmentView { prev: pieces.last().addr, ..s[hi + 1] }
            &&& shape(r) == shape(s).take(lo) + shape(pieces) + shape(s).skip(hi + 1)
        }),
{
    reveal(replaced);
    let r = replaced(s, lo, hi, pieces);
    let p = pieces.len();
    let n = s.len();
    assert(shape(r) =~= shape(s).take(lo) + shape(pieces) + shape(s).skip(hi + 1));
}

/// Sequences of blocks with the same sizes have the same total size.
proof fn lemma_sum_by_shape(s: Seq<SegmentView>, t: Seq<SegmentView>)
    requires
        shape(s) == shape(t),
    ensures
        sum_sizes(s) == sum_sizes(t),
    decreases s.len(),
{
    assert(s.len() == shape(s).len() && t.len() == shape(t).len());
    if s.len() > 0 {
        assert(shape(s.drop_last()) =~= shape(s).drop_last());
        assert(shape(t.drop_last()) =~= shape(t).drop_last());
        assert(shape(s)[s.len() - 1] == shape(t)[t.len() - 1]);
        lemma_sum_by_shape(s.drop_last(), t.drop_last());
    }
}

/// In two well-formed regions with the same start, a block preceded by blocks
/// of the same sizes starts at the same address.
pub proof fn lemma_addr_by_shape(
    start: int,
    end1: int,
    s: Seq<SegmentView>,
    end2: int,
    t: Seq<SegmentView>,
    k: int,
)
    requires
        segments_wf(start, end1, s),
        segments_wf(start, end2, t),
        0 <= k < s.len(),
        k < t.len(),
        shape(s).take(k) == shape(t).take(k),
    ensures
        s[k].addr == t[k].addr,
{
    lemma_prefix_sum(start, end1, s, k);
    lemma_prefix_sum(start, end2, t, k);
    assert(shape(s.take(k)) =~= shape(s).take(k));
    assert(shape(t.take(k)) =~= shape(t).take(k));
    lemma_sum_by_shape(s.take(k), t.take(k));
}

/// The start, end and the sizes and flags of the blocks fix a well-formed
/// region completely: addresses, back links and next-exists flags follow.
pub proof fn lemma_shape_determines(start: int, end: int, s: Seq<SegmentView>, t: Seq<SegmentView>)
    requires
        segments_wf(start, end, s),
        segments_wf(start, end, t),
        shape(s) == shape(t),
    ensures
        s == t,
{
    assert(s.len() == shape(s).len() && t.len() == shape(t).len());
    assert forall|k: int| 0 <= k < s.len() implies #[trigger] s[k].addr == t[k].addr by {
        assert(shape(s).take(k) == shape(t).take(k));
        lemma_addr_by_shape(start, end, s, end, t, k);
    }
    assert forall|k: int| 0 <= k < s.len() implies #[trigger] s[k] == t[k] by {
        assert(shape(s)[k] == shape(t)[k]);
        if k > 0 {
            assert(linked(s[k - 1], s[k]));
            assert(linked(t[k - 1], t[k]));
            assert(s[k - 1].addr == t[k - 1].addr);
        }
        if k < s.len() - 1 {
            assert(linked(s[k], s[k + 1]));
            assert(linked(t[k], t[k + 1]));
        }
    }
    assert(s =~= t);
}

/// Allocate, then free: carving a used block out of free block `i` and then
/// freeing the block that starts at the new header gives back the region
/// exactly as it was. The freed block is there, and in use, to be freed.
pub proof fn lemma_alloc_free_round_trip(
    start: int,
    end: int,
    s: Seq<SegmentView>,
    i: int,
    request: int,
    align: int,
    s1: Seq<SegmentView>,
    s2: Seq<SegmentView>,
)
    requires
        segments_wf(start, end, s),
        0 <= i < s.len(),
        !s[i].in_use,
        split_fits(s[i], request, align),
        align > 0,
        align % 16 == 0,
        segments_wf(start, end, s1),
        shape(s1) == split_shape(s, i, request, align),
        segments_wf(start, end, s2),
        forall|j: int|
            0 <= j < s1.len() && #[trigger] s1[j].addr == aligned_payload(s[i].addr, align)
                - HEADER_SIZE ==> shape(s2) == free_shape(s1, j),
    ensures
        exists|j: int|
            0 <= j < s1.len() && #[trigger] s1[j].addr == aligned_payload(s[i].addr, align)
                - HEADER_SIZE && s1[j].in_use,
        s2 == s,
{
    let c = s[i];
    let used = aligned_payload(c.addr, align) - HEADER_SIZE;
    let pieces = carve_pieces(c, used, request);
    let has_lead = used > c.addr;
    let has_trail = used + request < c.addr + c.size;
    lemma_block_bounds(start, end, s, i);
    lemma_aligned_payload(c.addr, align);
    let p = pieces.len();
    let n = s.len();
    let sh = shape(s);
    let sh1 = shape(s1);
    assert(sh1.len() == s1.len() && sh.len() == n);
    assert(sh1.len() == n - 1 + p);
    assert forall|k: int| 0 <= k < i implies #[trigger] sh1[k] == sh[k] by {}
    assert forall|k: int| 0 <= k < p implies #[trigger] sh1[i + k] == pieces[k] by {}
    assert forall|k: int| i + 1 <= k < n implies #[trigger] sh1[k - 1 + p] == sh[k] by {}
    assert(sh1.take(i) =~= sh.take(i));
    lemma_addr_by_shape(start, end, s1, end, s, i);
    let j = if has_lead {
        i + 1
    } else {
        i
    };
    if has_lead {
        assert(linked(s1[i], s1[i + 1]));
        assert(sh1[i] == pieces[0]);
    }
    assert(sh1[j] == pieces[j - i]);
    assert(s1[j].addr == used);
    assert(s1[j].in_use);
    let last = i + p - 1;
    if has_trail {
        assert(linked(s1[j], s1[j + 1]));
        assert(sh1[j + 1] == pieces[j + 1 - i]);
    }
    assert(s1[last].addr + s1[last].size == c.addr + c.size);
    if i > 0 {
        assert(coalesced(s[i - 1], s[i]));
        assert(sh1[i - 1] == sh[i - 1]);
    }
    if i + 1 < n {
        assert(coalesced(s[i], s[i + 1]));
        assert(sh1[last + 1] == sh[i + 1]);
    }
    assert(free_lo(s1, j) == i);
    assert(free_hi(s1, j) == last);
    assert(free_shape(s1, j) =~= sh);
    lemma_shape_determines(start, end, s2, s);
}

/// Payload addresses of the blocks in use.
pub open spec fn used_payloads(s: Seq<SegmentView>) -> Set<int> {
    Set::new(
        |p: int|
            exists|i: int| 0 <= i < s.len() && #[trigger] s[i].in_use && s[i].addr + HEADER_SIZE == p,
    )
}

/// Every payload address is header-aligned.
pub proof fn lemma_payloads_aligned(start: int, end: int, s: Seq<SegmentView>)
    requires
        segments_wf(start, end, s),
    ensures
        forall|i: int| 0 <= i < s.len() ==> (#[trigger] s[i].addr + HEADER_SIZE) % 16 == 0,
{
    lemma_segments_bounds(start, end, s);
}

/// Once no block is in use, the region is one free block that spans it whole,
/// so one header is all the overhead left.
pub proof fn lemma_drained(start: int, end: int, s: Seq<SegmentView>)
    requires
        segments_wf(start, end, s),
        used_payloads(s) == Set::<int>::empty(),
    ensures
        s == seq![
            SegmentView { addr: start, prev: 0, size: end - start, in_use: false, next_exists: false },
        ],
{
    assert forall|i: int| 0 <= i < s.len() implies !#[trigger] s[i].in_use by {
        if s[i].in_use {
            assert(used_payloads(s).contains(s[i].addr + HEADER_SIZE));
        }
    }
    if s.len() > 1 {
        assert(coalesced(s[0], s[1]));
        assert(!s[0].in_use && !s[1].in_use);
    }
    assert(s.len() == 1);
    assert(s.last() == s[0]);
    assert(!s[0].in_use);
    assert(s[0] == SegmentView { addr: start, prev: 0, size: end - start, in_use: false, next_exists: false });
    assert(s =~= seq![
        SegmentView { addr: start, prev: 0, size: end - start, in_use: false, next_exists: false },
    ]);
}

/// The total size splits at any index into a prefix and a suffix part.
proof fn lemma_sum_split(s: Seq<SegmentView>, k: int)
    requires
        0 <= k <= s.len(),
    ensures
        sum_sizes(s) == sum_sizes(s.take(k)) + sum_sizes(s.skip(k)),
    decreases s.len(),
{
    if k == s.len() {
        assert(s.take(k) =~= s);
        assert(s.skip(k) =~= Seq::<SegmentView>::empty());
    } else {
        lemma_sum_split(s.drop_last(), k);
        assert(s.drop_last().take(k) =~= s.take(k));
        assert(s.skip(k).drop_last() =~= s.drop_last().skip(k));
        assert(s.skip(k).last() == s.last());
    }
}

/// In two well-formed regions with the same end, a block followed by blocks of
/// the same sizes starts at the same address.
pub proof fn lemma_addr_by_suffix(
    start1: int,
    start2: int,
    end: int,
    s: Seq<SegmentView>,
    t: Seq<SegmentView>,
    k1: int,
    k2: int,
)
    requires
        segments_wf(start1, end, s),
        segments_wf(start2, end, t),
        0 <= k1 < s.len(),
        0 <= k2 < t.len(),
        shape(s).skip(k1) == shape(t).skip(k2),
    ensures
        s[k1].addr == t[k2].addr,
{
    lemma_partition(start1, end, s);
    lemma_partition(start2, end, t);
    lemma_prefix_sum(start1, end, s, k1);
    lemma_prefix_sum(start2, end, t, k2);
    lemma_sum_split(s, k1);
    lemma_sum_split(t, k2);
    assert(shape(s.skip(k1)) =~= shape(s).skip(k1));
    assert(shape(t.skip(k2)) =~= shape(t).skip(k2));
    lemma_sum_by_shape(s.skip(k1), t.skip(k2));
}

/// Where `t` differs from `s` only in the run `lo..=hi` of `s`, replaced by the
/// run `lo..lo + m` of `t`, the blocks around the run keep their addresses.
proof fn lemma_run_addrs(
    start: int,
    end: int,
    s: Seq<SegmentView>,
    t: Seq<SegmentView>,
    lo: int,
    hi: int,
    m: int,
)
    requires
        segments_wf(start, end, s),
        segments_wf(start, end, t),
        0 <= lo <= hi < s.len(),
        m >= 1,
        t.len() == s.len() - (hi - lo + 1) + m,
        shape(t).take(lo) == shape(s).take(lo),
        shape(t).skip(lo + m) == shape(s).skip(hi + 1),
    ensures
        forall|k: int| 0 <= k < lo ==> #[trigger] t[k] == s[k],
        forall|k: int|
            #![trigger s[k]]
            hi < k < s.len() ==> t[k - (hi - lo + 1) + m].addr == s[k].addr && t[k - (hi - lo
                + 1) + m].in_use == s[k].in_use,
{
    assert forall|k: int| 0 <= k < lo implies #[trigger] t[k] == s[k] by {
        assert(shape(t).take(k) =~= shape(s).take(k)) by {
            assert forall|x: int| 0 <= x < k implies shape(t)[x] == shape(s)[x] by {
                assert(shape(t).take(lo)[x] == shape(s).take(lo)[x]);
            }
        }
        lemma_addr_by_shape(start, end, t, end, s, k);
        assert(shape(t).take(lo)[k] == shape(s).take(lo)[k]);
        if k > 0 {
            assert(shape(t).take(k - 1) =~= shape(s).take(k - 1)) by {
                assert forall|x: int| 0 <= x < k - 1 implies shape(t)[x] == shape(s)[x] by {
                    assert(shape(t).take(lo)[x] == shape(s).take(lo)[x]);
                }
            }
            lemma_addr_by_shape(start, end, t, end, s, k - 1);
            assert(linked(t[k - 1], t[k]));
            assert(linked(s[k - 1], s[k]));
        }
        assert(linked(t[k], t[k + 1]));
        assert(linked(s[k], s[k + 1]));
    }
    assert forall|k: int| #![trigger s[k]] hi < k < s.len() implies t[k - (hi - lo + 1) + m].addr
        == s[k].addr && t[k - (hi - lo + 1) + m].in_use == s[k].in_use by {
        let k2 = k - (hi - lo + 1) + m;
        assert(shape(t).skip(k2) =~= shape(s).skip(k)) by {
            assert forall|x: int| 0 <= x < shape(t).skip(k2).len() implies shape(t).skip(k2)[x]
                == shape(s).skip(k)[x] by {
                assert(shape(t).skip(lo + m)[x + k2 - lo - m] == shape(s).skip(hi + 1)[x + k2
                    - lo - m]);
            }
        }
        lemma_addr_by_suffix(start, start, end, t, s, k2, k);
        assert(shape(t).skip(lo + m)[k2 - lo - m] == shape(s).skip(hi + 1)[k2 - lo - m]);
    }
}

/// Freeing block `i` takes its payload, and no other, out of the used ones.
pub proof fn lemma_free_used_payloads(
    start: int,
    end: int,
    s: Seq<SegmentView>,
    i: int,
    t: Seq<SegmentView>,
)
    requires
        segments_wf(start, end, s),
        segments_wf(start, end, t),
        0 <= i < s.len(),
        s[i].in_use,
        shape(t) == free_shape(s, i),
    ensures
        used_payloads(t) == used_payloads(s).remove(s[i].addr + HEADER_SIZE),
{
    let lo = free_lo(s, i);
    let hi = free_hi(s, i);
    let a = s[i].addr + HEADER_SIZE;
    assert(shape(t).len() == t.len() && shape(s).len() == s.len());
    assert(shape(t).take(lo) =~= shape(s).take(lo));
    assert(shape(t).skip(lo + 1) =~= shape(s).skip(hi + 1));
    assert(shape(t)[lo] == (s[hi].addr + s[hi].size - s[lo].addr, false));
    lemma_run_addrs(start, end, s, t, lo, hi, 1);
    lemma_segments_ordered(start, end, s);
    assert forall|p: int| used_payloads(t).contains(p) implies used_payloads(s).remove(a).contains(
        p,
    ) by {
        let k = choose|k: int| 0 <= k < t.len() && #[trigger] t[k].in_use && t[k].addr + HEADER_SIZE == p;
        if k < lo {
            assert(t[k] == s[k]);
            assert(s[k].addr != s[i].addr);
        } else {
            assert(k != lo);
            let k2 = k + (hi - lo + 1) - 1;
            assert(t[k2 - (hi - lo + 1) + 1].addr == s[k2].addr);
            assert(s[k2].in_use);
            assert(s[k2].addr != s[i].addr);
        }
    }
    assert forall|p: int| used_payloads(s).remove(a).contains(p) implies used_payloads(t).contains(
        p,
    ) by {
        let k = choose|k: int| 0 <= k < s.len() && #[trigger] s[k].in_use && s[k].addr + HEADER_SIZE == p;
        if k < lo {
            assert(t[k] == s[k]);
        } else if k <= hi {
            assert(k == i);
        } else {
            let k2 = k - (hi - lo + 1) + 1;
            assert(t[k2].addr == s[k].addr && t[k2].in_use);
        }
    }
    assert(used_payloads(t) =~= used_payloads(s).remove(a));
}

/// Carving a used block out of free block `i` adds its payload, and no other,
/// to the used ones.
pub proof fn lemma_split_used_payloads(
    start: int,
    end: int,
    s: Seq<SegmentView>,
    i: int,
    request: int,
    align: int,
    t: Seq<SegmentView>,
)
    requires
        segments_wf(start, end, s),
        segments_wf(start, end, t),
        0 <= i < s.len(),
        !s[i].in_use,
        split_fits(s[i], request, align),
        align > 0,
        align % 16 == 0,
        shape(t) == split_shape(s, i, request, align),
    ensures
        used_payloads(t) == used_payloads(s).insert(aligned_payload(s[i].addr, align)),
{
    let c = s[i];
    let a = aligned_payload(c.addr, align);
    let used = a - HEADER_SIZE;
    let pieces = carve_pieces(c, used, request);
    let has_lead = used > c.addr;
    let m = pieces.len() as int;
    lemma_block_bounds(start, end, s, i);
    lemma_aligned_payload(c.addr, align);
    let sh = shape(s);
    let sh1 = shape(t);
    assert(sh1.len() == t.len() && sh.len() == s.len());
    assert(sh1.take(i) =~= sh.take(i));
    assert(sh1.skip(i + m) =~= sh.skip(i + 1));
    assert forall|k: int| 0 <= k < m implies #[trigger] sh1[i + k] == pieces[k] by {}
    lemma_run_addrs(start, end, s, t, i, i, m);
    lemma_addr_by_shape(start, end, t, end, s, i);
    let j = if has_lead {
        i + 1
    } else {
        i
    };
    if has_lead {
        assert(linked(t[i], t[i + 1]));
        assert(sh1[i] == pieces[0]);
    }
    assert(sh1[j] == pieces[j - i]);
    assert(t[j].addr == used && t[j].in_use);
    lemma_segments_ordered(start, end, s);
    lemma_segments_ordered(start, end, t);
    assert forall|k: int| i <= k < i + m && k != j implies !#[trigger] t[k].in_use by {
        assert(sh1[i + (k - i)] == pieces[k - i]);
    }
    assert forall|p: int| used_payloads(t).contains(p) implies used_payloads(s).insert(a).contains(
        p,
    ) by {
        let k = choose|k: int| 0 <= k < t.len() && #[trigger] t[k].in_use && t[k].addr + HEADER_SIZE == p;
        if k < i {
            assert(t[k] == s[k]);
        } else if k < i + m {
            assert(k == j);
        } else {
            let k2 = k + 1 - m;
            assert(t[k2 - 1 + m].addr == s[k2].addr && s[k2].in_use);
        }
    }
    assert forall|p: int| used_payloads(s).insert(a).contains(p) implies used_payloads(t).contains(
        p,
    ) by {
        if p == a {
            assert(t[j].in_use && t[j].addr + HEADER_SIZE == p);
        } else {
            let k = choose|k: int| 0 <= k < s.len() && #[trigger] s[k].in_use && s[k].addr + HEADER_SIZE == p;
            if k < i {
                assert(t[k] == s[k]);
            } else {
                assert(k != i);
                let k2 = k - 1 + m;
                assert(t[k2].addr == s[k].addr && t[k2].in_use);
            }
        }
    }
    assert(used_payloads(t) =~= used_payloads(s).insert(a));
}

} // verus!
