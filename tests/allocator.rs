use rand::{thread_rng, Rng};
use segment_alloc::linked_list_allocator::{AllocError, LinkedListAllocImpl};
use segment_alloc::segment::SegmentMetadata;

const MIB: usize = 1048576;

/// A MiB-aligned base address standing for the start of a backing region.
const BASE: usize = 64 * MIB;

const H: usize = SegmentMetadata::SIZE;

fn snapshot(allocator: &LinkedListAllocImpl) -> Vec<(usize, usize, usize, bool, bool)> {
    let mut out = Vec::new();
    let mut it = allocator.segmenter_list().iter();
    while let Some(h) = it.next() {
        out.push((h.addr(), h.prev(), h.size(), h.in_use(), h.next_exists()));
    }
    out
}

#[test]
fn ll_allocator_tests() {
    const SIZE: usize = 2 * MIB;
    let mem = BASE;

    {
        let mut allocator = LinkedListAllocImpl::new(mem, mem + SIZE);
        // Attempt to allocate larger than we can hold
        let res = allocator.allocate(SIZE, 16);
        assert_eq!(res.is_err(), true);

        // Attempt to allocate exactly as much as we can hold
        let (ptr, len) = allocator.allocate(SIZE - SegmentMetadata::SIZE, 16).unwrap();
        assert_eq!(ptr % 16, 0);
        assert_eq!(len, SIZE - SegmentMetadata::SIZE);
    }

    {
        let mut allocator = LinkedListAllocImpl::new(mem, mem + SIZE);

        let mut allocs = Vec::new();

        // Allocate randomly until we no longer can
        let mut rng = thread_rng();
        loop {
            let mut random_size: usize = rng.gen_range(8..=1024);
            random_size = random_size.next_multiple_of(SegmentMetadata::SIZE);
            let random_alignment: usize = 2usize.pow(rng.gen_range(3..=10));

            let res = allocator.allocate(random_size, random_alignment);

            if res.is_err() {
                break;
            }

            let (ptr, len) = res.unwrap();
            assert!(ptr >= mem && ptr + len <= mem + SIZE);
            assert_eq!(ptr % random_alignment, 0);
            assert_eq!(len, random_size);
            allocs.push(ptr);

            // The header sits immediately before the payload
            let metadata = allocator
                .segmenter_list()
                .read_metadata(ptr - SegmentMetadata::SIZE)
                .unwrap();
            assert_eq!(metadata.size_allocable(), random_size);
        }

        // Fewer allocations than this would mean something went wrong
        assert!(allocs.len() > 1000);

        // Deallocate in a random order
        while allocs.len() > 0 {
            let idx = rng.gen_range(0..allocs.len());
            let ptr = allocs.swap_remove(idx);
            allocator.deallocate(ptr).expect("Failed to free data!");
        }
        assert_eq!(allocator.segmenter_list().overhead(), SegmentMetadata::SIZE);

        // The entire region can be allocated again
        let (ptr, len) = allocator.allocate(SIZE - SegmentMetadata::SIZE, 16).unwrap();
        assert_eq!(ptr % 16, 0);
        assert_eq!(len, SIZE - SegmentMetadata::SIZE);
        allocator.deallocate(ptr).expect("Failed to free data!");

        // A small size and an alignment below the header's
        let (ptr, len) = allocator.allocate(1, 2).unwrap();
        assert_eq!(len, SegmentMetadata::SIZE);
        assert_eq!(ptr % SegmentMetadata::SIZE, 0);
    }
}

#[test]
fn ll_allocator_vec() {
    const SIZE: usize = 2 * MIB;
    let mem = BASE;
    let mut allocator = LinkedListAllocImpl::new(mem, mem + SIZE);

    // A growable vector of i32 backed by the allocator: values live in `shadow`,
    // the buffer is reallocated at twice the capacity when full.
    let elem = std::mem::size_of::<i32>();
    let align = std::mem::align_of::<i32>();
    let mut shadow: Vec<i32> = Vec::new();
    let mut capacity = 0usize;
    let mut buffer: Option<usize> = None;
    let mut rng = thread_rng();
    let mut total = 0;
    for _ in 0..1000 {
        let val: i32 = rng.gen_range(-100000..100000);
        total += val;
        if shadow.len() == capacity {
            let new_capacity = if capacity == 0 { 4 } else { capacity * 2 };
            let (ptr, len) = allocator.allocate(new_capacity * elem, align).unwrap();
            assert!(len >= new_capacity * elem);
            if let Some(old) = buffer {
                allocator.deallocate(old).unwrap();
            }
            buffer = Some(ptr);
            capacity = new_capacity;
        }
        shadow.push(val);
    }
    assert_eq!(shadow.len(), 1000);
    assert_eq!(shadow.iter().sum::<i32>(), total);
    allocator.deallocate(buffer.unwrap()).unwrap();
    assert_eq!(allocator.segmenter_list().overhead(), H);
}

#[test]
fn ll_allocator_exceed_max() {
    const SIZE: usize = MIB;
    let mem = BASE;
    let mut allocator = LinkedListAllocImpl::new(mem, mem + SIZE);

    let lower_bound = SIZE / std::mem::size_of::<u64>();

    for _ in 0..(lower_bound * 3) {
        let (ptr, len) = allocator
            .allocate(std::mem::size_of::<usize>(), std::mem::align_of::<usize>())
            .unwrap();
        assert!(ptr >= mem && ptr + len <= mem + SIZE);
        allocator.deallocate(ptr).unwrap();
    }
    assert_eq!(allocator.segmenter_list().overhead(), H);
}

#[test]
fn whole_region_allocation() {
    let mut allocator = LinkedListAllocImpl::new(BASE, BASE + 2 * MIB);
    let (ptr, len) = allocator.allocate(2 * MIB - H, 16).unwrap();
    assert_eq!(ptr, BASE + H);
    assert_eq!(len, 2 * MIB - H);
    assert_eq!(allocator.allocate(1, 1), Err(AllocError));
    assert_eq!(allocator.allocate(16, 16), Err(AllocError));
}

#[test]
fn oversized_request_leaves_state_unchanged() {
    let mut allocator = LinkedListAllocImpl::new(BASE, BASE + 2 * MIB);
    let before = snapshot(&allocator);
    assert_eq!(allocator.allocate(2 * MIB, 16), Err(AllocError));
    assert_eq!(allocator.allocate(usize::MAX, 16), Err(AllocError));
    assert_eq!(snapshot(&allocator), before);
    let (ptr, _) = allocator.allocate(2 * MIB - H, 16).unwrap();
    assert_eq!(ptr, BASE + H);
}

#[test]
fn failed_allocation_has_no_effect() {
    let mut allocator = LinkedListAllocImpl::new(BASE, BASE + 4096);
    allocator.allocate(100, 8).unwrap();
    allocator.allocate(1000, 64).unwrap();
    let before = snapshot(&allocator);
    assert_eq!(allocator.allocate(4096, 16), Err(AllocError));
    assert_eq!(allocator.allocate(64, 4096), Err(AllocError));
    assert_eq!(snapshot(&allocator), before);
}

#[test]
fn sub_header_request() {
    let mut allocator = LinkedListAllocImpl::new(BASE, BASE + 2 * MIB);
    let (ptr, len) = allocator.allocate(1, 2).unwrap();
    assert_eq!(len, H);
    assert_eq!(ptr % H, 0);
    assert_eq!(ptr, BASE + H);
}

#[test]
fn small_region_stress() {
    let size = MIB;
    let mut allocator = LinkedListAllocImpl::new(BASE, BASE + size);
    // each allocate(8, 8) takes a header and one header-sized payload
    let fit = size / (2 * H);
    for _ in 0..3 * fit {
        let (ptr, len) = allocator.allocate(8, 8).unwrap();
        assert_eq!(len, H);
        assert_eq!(ptr % 8, 0);
        allocator.deallocate(ptr).unwrap();
    }
    assert_eq!(allocator.segmenter_list().overhead(), H);
}

#[test]
fn allocate_free_round_trip() {
    let mut allocator = LinkedListAllocImpl::new(BASE, BASE + 65536);
    let keep = allocator.allocate(100, 16).unwrap().0;
    let (p, _) = allocator.allocate(300, 1024).unwrap();
    allocator.deallocate(p).unwrap();
    let before = snapshot(&allocator);
    for (size, align) in [(1usize, 1usize), (48, 16), (500, 256), (4000, 4096), (16, 32)] {
        let (p, len) = allocator.allocate(size, align).unwrap();
        assert_eq!(p % align, 0);
        assert_eq!(len, size.next_multiple_of(H));
        allocator.deallocate(p).unwrap();
        assert_eq!(snapshot(&allocator), before);
    }
    allocator.deallocate(keep).unwrap();
    assert_eq!(snapshot(&allocator), vec![(BASE, 0, 65536, false, false)]);
}

#[test]
fn first_fit_takes_lowest_block() {
    let mut allocator = LinkedListAllocImpl::new(BASE, BASE + 4096);
    let a = allocator.allocate(64, 16).unwrap().0;
    let b = allocator.allocate(64, 16).unwrap().0;
    let c = allocator.allocate(64, 16).unwrap().0;
    assert_eq!((a, b, c), (BASE + 16, BASE + 96, BASE + 176));
    allocator.deallocate(a).unwrap();
    // the hole at the start is the first block that fits
    assert_eq!(allocator.allocate(32, 16).unwrap().0, BASE + 16);
    // too big for what is left of the hole: goes after c
    assert_eq!(allocator.allocate(64, 16).unwrap().0, BASE + 256);
}

#[test]
fn deallocate_errors() {
    let mut allocator = LinkedListAllocImpl::new(BASE, BASE + 4096);
    let p = allocator.allocate(64, 16).unwrap().0;
    let before = snapshot(&allocator);
    assert_eq!(allocator.deallocate(0), Err(AllocError));
    assert_eq!(allocator.deallocate(8), Err(AllocError));
    assert_eq!(allocator.deallocate(p + 16), Err(AllocError));
    assert_eq!(snapshot(&allocator), before);
    allocator.deallocate(p).unwrap();
    // a second release of the same pointer fails
    assert_eq!(allocator.deallocate(p), Err(AllocError));
}
