use segment_alloc::memory_segmenter::MemorySegmenter;
use segment_alloc::segment::SegmentMetadata;

const MIB: usize = 1048576;

/// A MiB-aligned base address standing for the start of a backing region.
const BASE: usize = 64 * MIB;

fn snapshot(segmenter: &MemorySegmenter) -> Vec<(usize, usize, usize, bool, bool)> {
    let mut out = Vec::new();
    let mut it = segmenter.iter();
    while let Some(h) = it.next() {
        out.push((h.addr(), h.prev(), h.size(), h.in_use(), h.next_exists()));
    }
    out
}

#[test]
fn segmenter() {
    const SIZE: usize = 2 * MIB;
    let mem = BASE;

    let mut segmenter = MemorySegmenter::new(mem, mem + SIZE);
    assert_eq!(segmenter.overhead() / SegmentMetadata::SIZE, 1);
    assert_eq!(segmenter.overhead(), SegmentMetadata::SIZE);

    let segment_too_big = segmenter.create_used_segment(segmenter.head(), SIZE + 64, 16);
    assert_eq!(segment_too_big.is_err(), true);
    assert_eq!(segmenter.read_metadata(segmenter.head()).unwrap().size(), SIZE);

    // Insert a small segment at the very beginning: the payload is already aligned
    let segment_addr = segmenter
        .create_used_segment(segmenter.head(), 128, 16)
        .unwrap();
    let segment = segmenter.read_metadata(segment_addr).unwrap();
    assert_eq!(segment.in_use(), true);
    assert_eq!(segment.next_exists(), true);
    assert_eq!(segment.prev(), 0);
    assert_eq!(segment.size(), 128);
    assert_eq!(segment.alloc_start_ptr() % 16, 0);
    assert_eq!(segmenter.overhead(), SegmentMetadata::SIZE * 2);

    // A segment that is already in use cannot be split
    let in_use_error = segmenter.create_used_segment(segment_addr, 64, 16);
    assert_eq!(in_use_error.is_err(), true);

    // Fits by size, but not once the payload is aligned to a MiB
    let segment_align_error =
        segmenter.create_used_segment(segment.next().unwrap(), MIB + 32, MIB);
    assert_eq!(segment_align_error.is_err(), true);

    // A middle allocation, with free blocks on both sides
    let middle_addr = segmenter
        .create_used_segment(segment.next().unwrap(), 1024, 4096)
        .unwrap();
    let middle = segmenter.read_metadata(middle_addr).unwrap();
    assert_eq!(middle.size(), 1024);
    assert_eq!(middle.alloc_start_ptr() % 4096, 0);
    assert_eq!(segmenter.overhead(), SegmentMetadata::SIZE * 4);

    // Another middle allocation that uses everything up to the end of the region
    let middle2_addr = segmenter
        .create_used_segment(middle.next().unwrap(), MIB + 16, MIB)
        .unwrap();
    let middle2 = segmenter.read_metadata(middle2_addr).unwrap();
    assert_eq!(middle2.size(), MIB + 16);
    assert_eq!(middle2.alloc_start_ptr() % MIB, 0);
    assert_eq!(segmenter.overhead(), SegmentMetadata::SIZE * 5);
}

#[test]
fn segment_metadata() {
    let mem = BASE;

    let segment1_ptr = mem;
    let mut segment1 = SegmentMetadata::new(segment1_ptr, 0, 64, true, false);
    assert_eq!(segment1.addr(), segment1_ptr);
    assert_eq!(segment1.alloc_start_ptr(), segment1_ptr + SegmentMetadata::SIZE);
    assert_eq!(segment1.in_use(), true);
    assert_eq!(segment1.next(), None);
    assert_eq!(segment1.prev(), 0);
    assert_eq!(segment1.size(), 64);
    assert_eq!(segment1.size_allocable(), 64 - SegmentMetadata::SIZE);

    let segment2_ptr = mem + 64;
    let mut segment2 = SegmentMetadata::new(segment2_ptr, segment1_ptr, 512, false, false);
    segment1.set_next_exists(true);
    assert_eq!(segment1.next(), Some(segment2_ptr));
    assert_eq!(segment2.addr(), segment2_ptr);
    assert_eq!(segment2.alloc_start_ptr(), segment2_ptr + SegmentMetadata::SIZE);
    assert_eq!(segment2.in_use(), false);
    assert_eq!(segment2.next(), None);
    assert_eq!(segment2.prev(), segment1_ptr);
    assert_eq!(segment2.size(), 512);
    assert_eq!(segment2.size_allocable(), 512 - SegmentMetadata::SIZE);

    let segment3_ptr = mem + 512 + 64;
    let segment3 = SegmentMetadata::new(segment3_ptr, segment2_ptr, 32, false, false);
    segment2.set_next_exists(true);
    assert_eq!(segment2.next(), Some(segment3_ptr));
    assert_eq!(segment3.addr(), segment3_ptr);
    assert_eq!(segment3.alloc_start_ptr(), segment3_ptr + SegmentMetadata::SIZE);
    assert_eq!(segment3.in_use(), false);
    assert_eq!(segment3.next(), None);
    assert_eq!(segment3.prev(), segment2_ptr);
    assert_eq!(segment3.size(), 32);
    assert_eq!(segment3.size_allocable(), 32 - SegmentMetadata::SIZE);
}

#[test]
fn header_packs_size_and_flags() {
    let mut h = SegmentMetadata::new(BASE, 0, 64, true, true);
    assert_eq!(h.size(), 64);
    assert_eq!(h.in_use(), true);
    assert_eq!(h.next_exists(), true);
    h.set_in_use(false);
    assert_eq!(h.in_use(), false);
    assert_eq!(h.next_exists(), true);
    assert_eq!(h.size(), 64);
    h.set_next_exists(false);
    assert_eq!(h.next_exists(), false);
    h.set_size(4096);
    assert_eq!(h.size(), 4096);
    assert_eq!(h.in_use(), false);
    h.set_in_use(true);
    h.set_size(48);
    assert_eq!(h.size(), 48);
    assert_eq!(h.in_use(), true);
    assert_eq!(h.end_exclusive(), BASE + 48);
}

#[test]
fn header_size_ignores_low_bits() {
    let h = SegmentMetadata::new(BASE, 0, 69, false, false);
    assert_eq!(h.size(), 64);
    assert_eq!(h.in_use(), false);
    assert_eq!(h.next_exists(), false);
}

#[test]
fn split_errors() {
    let mut segmenter = MemorySegmenter::new(BASE, BASE + 4096);
    let before = snapshot(&segmenter);
    // not a header of this manager
    assert!(segmenter.create_used_segment(BASE + 16, 64, 16).is_err());
    // not a multiple of the header size
    assert!(segmenter.create_used_segment(BASE, 40, 16).is_err());
    // smaller than a header
    assert!(segmenter.create_used_segment(BASE, 0, 16).is_err());
    // larger than the block
    assert!(segmenter.create_used_segment(BASE, 4096 + 16, 16).is_err());
    // runs past the block once aligned
    assert!(segmenter.create_used_segment(BASE, 2048, 4096).is_err());
    assert_eq!(snapshot(&segmenter), before);
}

#[test]
fn split_whole_block_and_leading_remainder() {
    let mut segmenter = MemorySegmenter::new(BASE, BASE + 4096);
    let used = segmenter.create_used_segment(BASE, 4096, 16).unwrap();
    assert_eq!(used, BASE);
    assert_eq!(snapshot(&segmenter), vec![(BASE, 0, 4096, true, false)]);
    assert!(segmenter.create_used_segment(BASE, 16, 16).is_err());

    let mut segmenter = MemorySegmenter::new(BASE, BASE + 4096);
    let used = segmenter.create_used_segment(BASE, 2048, 2048).unwrap();
    assert_eq!(used, BASE + 2048 - 16);
    assert_eq!(
        snapshot(&segmenter),
        vec![
            (BASE, 0, 2032, false, true),
            (BASE + 2032, BASE, 2048, true, true),
            (BASE + 4080, BASE + 2032, 16, false, false),
        ]
    );
}

#[test]
fn free_merges_both_neighbours() {
    let mut segmenter = MemorySegmenter::new(BASE, BASE + 4096);
    let a = segmenter.create_used_segment(BASE, 64, 16).unwrap();
    let b = segmenter.create_used_segment(BASE + 64, 64, 16).unwrap();
    let c = segmenter.create_used_segment(BASE + 128, 64, 16).unwrap();
    assert_eq!((a, b, c), (BASE, BASE + 64, BASE + 128));
    assert_eq!(segmenter.overhead(), 4 * SegmentMetadata::SIZE);

    // freeing a free block or a non-header fails and changes nothing
    let before = snapshot(&segmenter);
    assert!(segmenter.delete_used_segment(BASE + 192).is_err());
    assert!(segmenter.delete_used_segment(BASE + 8).is_err());
    assert_eq!(snapshot(&segmenter), before);

    // a: no free neighbour
    assert_eq!(segmenter.delete_used_segment(a), Ok(BASE));
    assert_eq!(segmenter.overhead(), 4 * SegmentMetadata::SIZE);
    // c: merges forward into the trailing free block
    assert_eq!(segmenter.delete_used_segment(c), Ok(BASE + 128));
    assert_eq!(segmenter.overhead(), 3 * SegmentMetadata::SIZE);
    assert_eq!(
        snapshot(&segmenter),
        vec![
            (BASE, 0, 64, false, true),
            (BASE + 64, BASE, 64, true, true),
            (BASE + 128, BASE + 64, 4096 - 128, false, false),
        ]
    );
    // b: merges backward and forward
    assert_eq!(segmenter.delete_used_segment(b), Ok(BASE));
    assert_eq!(snapshot(&segmenter), vec![(BASE, 0, 4096, false, false)]);
    assert_eq!(segmenter.overhead(), SegmentMetadata::SIZE);
}

#[test]
fn partition_and_linkage_hold() {
    let mut segmenter = MemorySegmenter::new(BASE, BASE + 65536);
    let mut used = Vec::new();
    for (i, align) in [16usize, 64, 256, 1024, 4096].iter().enumerate() {
        let mut target = None;
        let mut it = segmenter.iter();
        while let Some(h) = it.next() {
            if !h.in_use() && h.size() >= 4096 {
                target = Some(h.addr());
            }
        }
        let p = segmenter
            .create_used_segment(target.unwrap(), 64 * (i + 1), *align)
            .unwrap();
        used.push(p);
    }
    let blocks = snapshot(&segmenter);
    let total: usize = blocks.iter().map(|b| b.2).sum();
    assert_eq!(total, segmenter.size());
    assert_eq!(blocks[0].1, 0);
    for w in blocks.windows(2) {
        assert_eq!(w[0].0 + w[0].2, w[1].0);
        assert_eq!(w[1].1, w[0].0);
        assert!(w[0].4);
        assert!(w[0].3 || w[1].3);
    }
    assert!(!blocks.last().unwrap().4);
    for b in &blocks {
        assert!(b.2 >= 16 && b.2 % 16 == 0);
        assert_eq!((b.0 + 16) % 16, 0);
        assert!(b.0 + b.2 <= BASE + 65536);
    }
}
