use libkernel::error::KernelError;
use libkernel::memory::address::{IdentityTranslator, PA};
use libkernel::memory::allocators::frame::FrameState;
use libkernel::memory::allocators::phys::{FrameAllocator, MAX_ORDER};
use libkernel::memory::allocators::smalloc::region_list::RegionList;
use libkernel::memory::allocators::smalloc::Smalloc;
use libkernel::memory::page::PageFrame;
use libkernel::memory::region::PhysMemoryRegion;
use libkernel::memory::{PAGE_SHIFT, PAGE_SIZE};

/// Where the memory of a test begins.
const BASE: usize = 0x4000_0000;

struct TestFixture {
    allocator: FrameAllocator,
}

/// - `mem_regions`: A slice of `(start, size)` tuples defining available memory regions.
///   The `start` is relative to [`BASE`].
/// - `res_regions`: A slice of `(start, size)` tuples for reserved regions (e.g., kernel).
fn get_smalloc(
    mem_regions: &[(usize, usize)],
    res_regions: &[(usize, usize)],
) -> Smalloc<IdentityTranslator> {
    let mut smalloc = Smalloc::new(
        RegionList::new(16, 0x10_0000),
        RegionList::new(16, 0x20_0000),
    );
    for &(start, size) in mem_regions {
        smalloc
            .add_memory(PhysMemoryRegion::new(PA::from_value(BASE + start), size))
            .unwrap();
    }
    for &(start, size) in res_regions {
        smalloc
            .add_reservation(PhysMemoryRegion::new(PA::from_value(BASE + start), size))
            .unwrap();
    }
    smalloc
}

impl TestFixture {
    fn new(mem_regions: &[(usize, usize)], res_regions: &[(usize, usize)]) -> Self {
        TestFixture {
            allocator: FrameAllocator::init(get_smalloc(mem_regions, res_regions)),
        }
    }

    fn from_region(
        mem_regions: &[(usize, usize)],
        res_regions: &[(usize, usize)],
        managed: (usize, usize),
    ) -> Self {
        let mut smalloc = get_smalloc(mem_regions, res_regions);
        let managed_region = PhysMemoryRegion::new(PA::from_value(BASE + managed.0), managed.1);
        TestFixture {
            allocator: FrameAllocator::init_from_region(&mut smalloc, managed_region),
        }
    }

    /// Get the state of a specific frame.
    fn frame_state(&self, pfn: PageFrame) -> &FrameState {
        &self.allocator.frame_list().get_frame(pfn).state
    }

    /// Checks that the number of blocks in each free list matches the expected counts.
    fn assert_free_list_counts(&self, expected_counts: &[usize; MAX_ORDER + 1]) {
        for order in 0..=MAX_ORDER {
            assert_eq!(
                self.allocator.free_blocks(order),
                expected_counts[order],
                "Mismatch in free list count for order {}",
                order
            );
        }
    }

    fn free_pages(&self) -> usize {
        self.allocator.free_pages()
    }
}

/// Tests basic allocator initialization with a single large, contiguous memory region.
#[test]
fn init_simple() {
    let mut fixture = TestFixture::new(&[(0, (1 << (MAX_ORDER + PAGE_SHIFT)) * 2)], &[]);
    let pages_in_max_block = 1 << MAX_ORDER;

    assert_eq!(fixture.free_pages(), pages_in_max_block);
    assert!(fixture.allocator.free_blocks(MAX_ORDER) > 0);

    // Check that all other lists are empty
    for i in 0..MAX_ORDER {
        assert!(fixture.allocator.free_blocks(i) == 0);
    }
}

#[test]
fn init_with_kernel_reserved() {
    let block_size = (1 << MAX_ORDER) * PAGE_SIZE;
    // A region large enough for 3 max-order blocks
    let total_size = 4 * block_size;

    // Reserve the middle block. Even a single page anywhere in that block
    // should wipe out the whole block.
    let res_regions = &[(block_size * 2 + 4 * PAGE_SIZE, PAGE_SIZE)];
    let mut fixture = TestFixture::new(&[(0, total_size)], res_regions);

    let pages_in_max_block = 1 << MAX_ORDER;
    // We should have 2 max-order blocks, not 3.
    assert_eq!(fixture.free_pages(), 2 * pages_in_max_block);

    // The middle pages should be marked as Kernel
    let reserved_pfn = PageFrame::from_pfn(
        fixture.allocator.frame_list().base_page()
            .value()
            + (pages_in_max_block * 2 + 4),
    );

    assert!(matches!(
        fixture.frame_state(reserved_pfn),
        FrameState::Kernel
    ));

    // Allocation of a MAX_ORDER block should succeed twice.
    fixture
        .allocator
        .alloc_frames(MAX_ORDER as u8)
        .unwrap()
        .leak();
    fixture
        .allocator
        .alloc_frames(MAX_ORDER as u8)
        .unwrap()
        .leak();

    // A third should fail.
    assert!(matches!(
        fixture.allocator.alloc_frames(MAX_ORDER as u8),
        Err(KernelError::NoMemory)
    ));
}

/// Tests a simple allocation and deallocation cycle.
#[test]
fn simple_alloc_and_free() {
    let mut fixture = TestFixture::new(&[(0, (1 << (MAX_ORDER + PAGE_SHIFT)) * 2)], &[]);
    let initial_free_pages = fixture.free_pages();

    // Ensure we start with a single MAX_ORDER block.
    let mut expected_counts = [0; MAX_ORDER + 1];
    expected_counts[MAX_ORDER] = 1;
    fixture.assert_free_list_counts(&expected_counts);

    // Allocate a single page
    let alloc = fixture
        .allocator
        .alloc_frames(0)
        .expect("Allocation failed");
    assert_eq!(fixture.free_pages(), initial_free_pages - 1);

    // Check its state
    match fixture.frame_state(alloc.region().start_address().to_pfn()) {
        FrameState::AllocatedHead(info) => {
            assert_eq!(info.order, 0);
            assert_eq!(info.ref_count, 1);
        }
        _ => panic!("Incorrect frame state after allocation"),
    }

    // Free the page
    fixture.allocator.release(alloc);
    assert_eq!(fixture.free_pages(), initial_free_pages);

    // Ensure we merged back to a single MAX_ORDER block.
    fixture.assert_free_list_counts(&expected_counts);
}

/// Tests allocation that requires splitting a large block.
#[test]
fn alloc_requires_split() {
    let mut fixture = TestFixture::new(&[(0, (1 << (MAX_ORDER + PAGE_SHIFT)) * 2)], &[]);

    // Allocate a single page (order 0)
    let _pfn = fixture.allocator.alloc_frames(0).unwrap();

    // Check free pages
    let pages_in_block = 1 << MAX_ORDER;
    assert_eq!(fixture.free_pages(), pages_in_block - 1);

    // Splitting a MAX_ORDER block to get an order 0 page should leave
    // one free block at each intermediate order.
    let mut expected_counts = [0; MAX_ORDER + 1];
    for i in 0..MAX_ORDER {
        expected_counts[i] = 1;
    }
    fixture.assert_free_list_counts(&expected_counts);
}

/// Tests the allocation of a multipage block and verifies head/tail metadata.
#[test]
fn alloc_multi_page_block() {
    let mut fixture = TestFixture::new(&[(0, (1 << (MAX_ORDER + PAGE_SHIFT)) * 2)], &[]);
    let order = 3; // 8 pages

    let head_region = fixture.allocator.alloc_frames(order).unwrap();
    assert_eq!(head_region.region().iter_pfns().len(), 8);

    // Check head page
    match fixture.frame_state(head_region.region().iter_pfns().into_iter().next().unwrap()) {
        FrameState::AllocatedHead(info) => assert_eq!(info.order, order as u8),
        _ => panic!("Head page has incorrect state"),
    }

    // Check tail pages
    for (i, pfn) in head_region.region().iter_pfns().into_iter().skip(1).enumerate() {
        match fixture.frame_state(pfn) {
            FrameState::AllocatedTail(info) => {
                assert_eq!(info.head, head_region.region().start_address().to_pfn())
            }
            _ => panic!("Tail page {} has incorrect state", i),
        }
    }
}

/// Tests that freeing a tail page correctly frees the entire block.
#[test]
fn free_tail_page() {
    let mut fixture = TestFixture::new(&[(0, (1 << (MAX_ORDER + PAGE_SHIFT)) * 2)], &[]);
    let initial_free = fixture.free_pages();
    let order = 4; // 16 pages
    let num_pages = 1 << order;

    let head_alloc = fixture.allocator.alloc_frames(order as u8).unwrap();
    assert_eq!(fixture.free_pages(), initial_free - num_pages);

    fixture.allocator.release(head_alloc);

    // All pages should be free again
    assert_eq!(fixture.free_pages(), initial_free);
}

/// Tests exhausting memory and handling the out-of-memory condition.
#[test]
fn alloc_out_of_memory() {
    let mut fixture = TestFixture::new(&[(0, (1 << (MAX_ORDER + PAGE_SHIFT)) * 2)], &[]);
    let total_pages = fixture.free_pages();
    assert!(total_pages > 0);

    let mut allocs = Vec::new();
    for _ in 0..total_pages {
        match fixture.allocator.alloc_frames(0) {
            Ok(pfn) => allocs.push(pfn),
            Err(e) => panic!("Allocation failed prematurely: {:?}", e),
        }
    }

    assert_eq!(fixture.free_pages(), 0);

    // Next allocation should fail
    let result = fixture.allocator.alloc_frames(0);
    assert!(matches!(result, Err(KernelError::NoMemory)));

    // Free everything and check if memory is recovered
    for alloc in allocs {
        fixture.allocator.release(alloc);
    }

    assert_eq!(fixture.free_pages(), total_pages);
}

/// Tests that requesting an invalid order fails gracefully.
#[test]
fn alloc_invalid_order() {
    let mut fixture = TestFixture::new(&[(0, (1 << (MAX_ORDER + PAGE_SHIFT)) * 2)], &[]);
    let result = fixture.allocator.alloc_frames((MAX_ORDER + 1) as u8);
    assert!(matches!(result, Err(KernelError::InvalidValue)));
}

#[test]
fn init_from_region_basic() {
    let block_size = (1 << MAX_ORDER) * PAGE_SIZE;
    // Four blocks of memory; manage only the last two.
    let total_mem = 4 * block_size;
    let managed_offset = 2 * block_size;
    let managed_size = 2 * block_size;

    let mut fixture =
        TestFixture::from_region(&[(0, total_mem)], &[], (managed_offset, managed_size));

    let pages_in_two_blocks = 2 * (1 << MAX_ORDER);
    assert_eq!(fixture.allocator.frame_list().total_pages(), pages_in_two_blocks);
    assert_eq!(fixture.free_pages(), pages_in_two_blocks);

    // Only the MAX_ORDER free list should be populated, with two blocks.
    let mut expected_counts = [0usize; MAX_ORDER + 1];
    expected_counts[MAX_ORDER] = 2;
    fixture.assert_free_list_counts(&expected_counts);
}

#[test]
fn init_from_region_base_page() {
    let block_size = (1 << MAX_ORDER) * PAGE_SIZE;
    let managed_offset = block_size;
    let managed_size = block_size;

    let mut fixture =
        TestFixture::from_region(&[(0, 2 * block_size)], &[], (managed_offset, managed_size));

    let backing_base = BASE;
    let expected_base_pfn = (backing_base + managed_offset) / PAGE_SIZE;

    assert_eq!(
        fixture.allocator.frame_list().base_page().value(),
        expected_base_pfn,
        "base_page should be the start of the managed region"
    );
}

#[test]
fn init_from_region_reservation_inside() {
    let block_size = (1 << MAX_ORDER) * PAGE_SIZE;
    // Manage the 2nd and 3rd blocks; reserve the head of the 3rd block.
    let managed_offset = block_size;
    let managed_size = 2 * block_size;
    let reserved_offset = managed_offset + block_size; // head of 2nd managed block

    let mut fixture = TestFixture::from_region(
        &[(0, 3 * block_size)],
        &[(reserved_offset, PAGE_SIZE)],
        (managed_offset, managed_size),
    );

    // The reserved frame at the block head should be Kernel.
    let backing_base = BASE;
    let reserved_pfn = PageFrame::from_pfn((backing_base + reserved_offset) / PAGE_SIZE);
    assert!(
        matches!(fixture.frame_state(reserved_pfn), FrameState::Kernel),
        "reserved frame inside managed region should be Kernel"
    );

    // Only the non-reserved block should be free.
    let pages_per_block = 1 << MAX_ORDER;
    assert_eq!(
        fixture.free_pages(),
        pages_per_block,
        "block whose head is Kernel must be excluded from the free lists"
    );

    let mut expected_counts = [0usize; MAX_ORDER + 1];
    expected_counts[MAX_ORDER] = 1;
    fixture.assert_free_list_counts(&expected_counts);
}

#[test]
fn init_from_region_reservation_outside() {
    let block_size = (1 << MAX_ORDER) * PAGE_SIZE;
    // Reserve something in the first block; manage only the second block.
    let reserved_offset = PAGE_SIZE; // in the first block
    let managed_offset = block_size;
    let managed_size = block_size;

    let mut fixture = TestFixture::from_region(
        &[(0, 2 * block_size)],
        &[(reserved_offset, PAGE_SIZE)],
        (managed_offset, managed_size),
    );

    // All managed pages should be free — the reservation is irrelevant.
    let pages_per_block = 1 << MAX_ORDER;
    assert_eq!(
        fixture.free_pages(),
        pages_per_block,
        "reservation outside the managed region must not reduce free pages"
    );

    let mut expected_counts = [0usize; MAX_ORDER + 1];
    expected_counts[MAX_ORDER] = 1;
    fixture.assert_free_list_counts(&expected_counts);
}

#[test]
fn init_from_region_alloc_and_free() {
    let block_size = (1 << MAX_ORDER) * PAGE_SIZE;
    let mut fixture =
        TestFixture::from_region(&[(0, 2 * block_size)], &[], (block_size, block_size));

    let initial_free = fixture.free_pages();

    let alloc = fixture
        .allocator
        .alloc_frames(0)
        .expect("allocation within managed region should succeed");
    assert_eq!(fixture.free_pages(), initial_free - 1);

    fixture.allocator.release(alloc);
    assert_eq!(
        fixture.free_pages(),
        initial_free,
        "memory should be fully recovered after free"
    );

    // And frames outside the managed region should be unreachable.
    let mut allocs = Vec::new();
    while let Ok(a) = fixture.allocator.alloc_frames(0) {
        allocs.push(a);
    }
    assert_eq!(fixture.free_pages(), 0);
    assert_eq!(allocs.len(), initial_free);
}

#[test]
fn init_from_region_unaligned_does_not_overshoot() {
    let block_size = (1 << MAX_ORDER) * PAGE_SIZE;
    // Backing memory: 4 MAX_ORDER blocks, all aligned.
    let total_mem = 4 * block_size;

    // Manage a region that starts one page into the 2nd block and extends
    // one page past the end of the 3rd block. After aligning the start
    // up to the 3rd block boundary, exactly one MAX_ORDER block fits.
    //
    // Keeping the original size when the start moves would extend the end into
    // block 4, which falls outside the managed region.
    let managed_offset = block_size + PAGE_SIZE;
    let managed_size = 2 * block_size;

    let mut fixture =
        TestFixture::from_region(&[(0, total_mem)], &[], (managed_offset, managed_size));

    // Only one MAX_ORDER block should be free (block 3). Block 2's head
    // is before managed_region.start, block 4 is past managed_region.end.
    let pages_per_block = 1 << MAX_ORDER;
    assert_eq!(
        fixture.free_pages(),
        pages_per_block,
        "only one full block fits after alignment; must not overshoot into block 4"
    );

    let mut expected_counts = [0usize; MAX_ORDER + 1];
    expected_counts[MAX_ORDER] = 1;
    fixture.assert_free_list_counts(&expected_counts);
}

/// Tests the reference counting mechanism in `free_frames`.
#[test]
fn ref_count_free() {
    let mut fixture = TestFixture::new(&[(0, (1 << (MAX_ORDER + PAGE_SHIFT)) * 2)], &[]);
    let initial_free = fixture.free_pages();

    let alloc1 = fixture.allocator.alloc_frames(2).unwrap();
    let alloc2 = fixture.allocator.share(&alloc1);
    let alloc3 = fixture.allocator.share(&alloc2);

    let pages_in_block = 1 << 2;
    assert_eq!(fixture.free_pages(), initial_free - pages_in_block);

    let pfn = alloc1.region().start_address().to_pfn();

    // First free should just decrement the count
    fixture.allocator.release(alloc1);

    assert_eq!(fixture.free_pages(), initial_free - pages_in_block);
    if let FrameState::AllocatedHead(info) = fixture.frame_state(pfn) {
        assert_eq!(info.ref_count, 2);
    } else {
        panic!("Page state changed unexpectedly");
    }

    // Second free, same thing
    fixture.allocator.release(alloc2);

    assert_eq!(fixture.free_pages(), initial_free - pages_in_block);
    if let FrameState::AllocatedHead(info) = fixture.frame_state(pfn) {
        assert_eq!(info.ref_count, 1);
    } else {
        panic!("Page state changed unexpectedly");
    }

    // Third free should actually release the memory
    fixture.allocator.release(alloc3);
    assert_eq!(fixture.free_pages(), initial_free);
    assert!(matches!(fixture.frame_state(pfn), FrameState::Free { .. }));
}

/// A reserved page in the middle of a block keeps the whole block from being used, also
/// if only a part of the page is reserved.
#[test]
fn reserved_pages_are_never_given_out() {
    let block_size = (1 << MAX_ORDER) * PAGE_SIZE;
    let reserved_offset = 2 * block_size + 2 * PAGE_SIZE;
    for (offset, size) in [(0, PAGE_SIZE), (0x10, 0x20), (PAGE_SIZE - 1, 2)] {
        let start = reserved_offset + offset;
        let mut fixture = TestFixture::from_region(
            &[(0, 3 * block_size)],
            &[(start, size)],
            (block_size, 2 * block_size),
        );
        let first = (BASE + start) / PAGE_SIZE;
        let last = (BASE + start + size - 1) / PAGE_SIZE;
        for pfn in first..last + 1 {
            assert!(matches!(
                fixture.frame_state(PageFrame::from_pfn(pfn)),
                FrameState::Kernel
            ));
        }
        assert!(!matches!(
            fixture.frame_state(PageFrame::from_pfn(last + 1)),
            FrameState::Kernel
        ));
        assert_eq!(fixture.free_pages(), 1 << MAX_ORDER);

        let mut pages = 0;
        while let Ok(alloc) = fixture.allocator.alloc_frames(0) {
            let pfn = alloc.region().start_address().value() / PAGE_SIZE;
            assert!(pfn < first || last < pfn);
            pages += 1;
        }
        assert_eq!(pages, 1 << MAX_ORDER);
        assert!(matches!(
            fixture.frame_state(PageFrame::from_pfn(first)),
            FrameState::Kernel
        ));
    }
}
