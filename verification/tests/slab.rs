use std::collections::BTreeMap;

use rand::{RngExt, SeedableRng};

use libkernel::memory::address::{IdentityTranslator, PA, VA};
use libkernel::memory::allocators::frame::FrameState;
use libkernel::memory::allocators::phys::FrameAllocator;
use libkernel::memory::allocators::slab::allocator::SlabAllocator;
use libkernel::memory::allocators::slab::cache::{PtrCache, SlabCache, PTRS_PER_SZ_CLASS};
use libkernel::memory::allocators::slab::heap::KHeap;
use libkernel::memory::allocators::slab::pool::MAX_FREE_SLABS;
use libkernel::memory::allocators::slab::slab::{Slab, SlabState};
use libkernel::memory::allocators::slab::{
    alloc_order, SLAB_FRAME_ALLOC_ORDER, SLAB_SIZE_BYTES,
};
use libkernel::memory::allocators::smalloc::region_list::RegionList;
use libkernel::memory::allocators::smalloc::Smalloc;
use libkernel::memory::region::PhysMemoryRegion;

type TstSlabAlloc = SlabAllocator<IdentityTranslator>;
type TestHeap = KHeap<IdentityTranslator>;

fn frames(size: usize) -> FrameAllocator {
    let mut smalloc: Smalloc<IdentityTranslator> = Smalloc::new(
        RegionList::new(16, 0x10_0000),
        RegionList::new(16, 0x20_0000),
    );
    smalloc
        .add_memory(PhysMemoryRegion::new(PA::from_value(0x4000_0000), size))
        .unwrap();
    FrameAllocator::init(smalloc)
}

/// Helper to create a slab in freshly allocated memory. Returns its address, too.
fn create_slab(obj_shift: usize) -> (Slab, usize) {
    // Create a region large enough for a few slabs
    let mut frames = frames(1 << 25);
    let alloc = frames.alloc_frames(SLAB_FRAME_ALLOC_ORDER as u8).unwrap();
    let base = alloc.region().start_address().to_va::<IdentityTranslator>();
    (Slab::new(base, obj_shift), base.value())
}

fn create_allocator_fixture() -> (FrameAllocator, TstSlabAlloc) {
    (frames(32 * 1024 * 1024), SlabAllocator::new())
}

#[test]
fn slab_init_layout() {
    // Create a slab with object size 32 (2^5) (512 objects)
    let (slab, _) = create_slab(5);

    assert_eq!(slab.state(), SlabState::Free);
    assert_eq!(slab.num_free(), 512);
    assert_eq!(slab.next_free(), Some(0));

    // Verify the linked list construction.

    // Index 0 should point to 1
    assert_eq!(slab.link(0), 1);
    // Index 1 should point to 2
    assert_eq!(slab.link(1), 2);
    // The last index should point to MAX (sentinel)
    assert_eq!(slab.link(511), u16::MAX);
}

#[test]
fn slab_alloc_free_basic() {
    let (mut slab, _) = create_slab(6); // 64 byte objects

    // Allocate first object (Index 0)
    let ptr1 = slab.alloc_object().unwrap();
    assert_eq!(slab.num_free(), (SLAB_SIZE_BYTES >> 6) - 1);
    assert_eq!(slab.state(), SlabState::Partial);

    // Allocate second object (Index 1)
    let ptr2 = slab.alloc_object().unwrap();
    assert_eq!(slab.num_free(), (SLAB_SIZE_BYTES >> 6) - 2);

    // Verify pointers are distinct and spaced correctly
    assert_eq!(ptr1.add_bytes(64), ptr2);

    // Free the first object (Index 0).
    slab.put_object(ptr1);
    assert_eq!(slab.num_free(), (SLAB_SIZE_BYTES >> 6) - 1);
    assert_eq!(slab.next_free(), Some(0));
    assert_eq!(slab.link(0), 2);

    // Re-allocate. Should get Index 0 back.
    let ptr3 = slab.alloc_object().unwrap();
    assert_eq!(ptr1, ptr3);
    assert_eq!(slab.next_free(), Some(2));

    // Clean up remainder
    slab.put_object(ptr2);
    slab.put_object(ptr3);
    assert_eq!(slab.state(), SlabState::Free);
}

#[test]
fn slab_exhaustion() {
    // Large objects: 4096 bytes (1 page) (order 12).
    let (mut slab, _) = create_slab(12);
    let capacity = 4;

    let mut ptrs = Vec::new();

    // Fill it up
    for _ in 0..capacity {
        assert_ne!(slab.state(), SlabState::Full);
        if let Some(ptr) = slab.alloc_object() {
            ptrs.push(ptr);
        }
    }

    assert_eq!(ptrs.len(), capacity);
    assert_eq!(slab.state(), SlabState::Full);
    assert_eq!(slab.next_free(), None);

    // Try to alloc one more
    assert!(slab.alloc_object().is_none());

    // Free one
    let last = ptrs.pop().unwrap();
    slab.put_object(last);
    assert_eq!(slab.state(), SlabState::Partial);
    assert!(slab.next_free().is_some());

    // Allocate it back
    let new_ptr = slab.alloc_object().unwrap();
    assert_eq!(new_ptr, last);
    assert_eq!(slab.state(), SlabState::Full);
}

#[test]
fn slab_free_out_of_order() {
    // 2048 byte objects (8 objects total)
    let (mut slab, _) = create_slab(11);

    let mut ptrs = Vec::new();
    for _ in 0..8 {
        ptrs.push(slab.alloc_object().unwrap());
    }

    assert_eq!(slab.state(), SlabState::Full);

    // Free evens
    slab.put_object(ptrs[0]);
    slab.put_object(ptrs[2]);
    slab.put_object(ptrs[4]);
    slab.put_object(ptrs[6]);

    assert_eq!(slab.num_free(), 4);

    // Free odds
    slab.put_object(ptrs[1]);
    slab.put_object(ptrs[3]);
    slab.put_object(ptrs[5]);
    slab.put_object(ptrs[7]);

    assert_eq!(slab.state(), SlabState::Free);
    assert_eq!(slab.num_free(), 8);

    let p = slab.alloc_object().unwrap();
    assert_eq!(p, ptrs[7]);
}

/// The memory of the objects in a slab.
struct Bytes {
    base: usize,
    bytes: Vec<u8>,
}

impl Bytes {
    fn object(&mut self, ptr: VA, len: usize) -> &mut [u8] {
        let start = ptr.value() - self.base;
        &mut self.bytes[start..start + len]
    }
}

#[test]
fn slab_boundary_integrity() {
    // 128 byte objects -> 128 objects
    let (mut slab, base) = create_slab(7);
    let mut memory = Bytes {
        base,
        bytes: vec![0; SLAB_SIZE_BYTES],
    };

    // Allocate all objects and write a specific pattern to them
    let mut ptrs = Vec::new();
    for i in 0..128 {
        let ptr = slab.alloc_object().unwrap();
        // Fill the object with a pattern
        memory.object(ptr, 128).fill((i as u8) + 1);
        ptrs.push((i + 1, ptr));
    }

    // Verify patterns remain intact (no overlapping objects)
    for (i, ptr) in ptrs.iter() {
        for byte in memory.object(*ptr, 128) {
            assert_eq!(*byte, (*i as u8));
        }
    }

    // Free every odd index from the list and verify integrity of even data.
    ptrs.retain(|(i, ptr)| {
        if i % 2 == 0 {
            slab.put_object(*ptr);
            return false;
        } else {
            return true;
        }
    });

    for (i, ptr) in ptrs.iter() {
        for byte in memory.object(*ptr, 128) {
            assert_eq!(*byte, (*i as u8));
        }
    }
}

#[test]
fn slab_put_pointer_calculation() {
    // 256 byte objects
    let (mut slab, base_addr) = create_slab(8);

    // Manually create a pointer that corresponds to Index 3
    // Base + 3 * 256
    let ptr_val = base_addr + (3 * 256);
    let ptr = VA::from_value(ptr_val);

    // Force the internal state to look like we allocated everything
    while slab.alloc_object().is_some() {}
    assert_eq!(slab.state(), SlabState::Full);

    slab.put_object(ptr);

    assert_eq!(slab.num_free(), 1);
    assert_eq!(slab.next_free(), Some(3));

    // Re-allocating should return exactly that pointer
    let new_ptr = slab.alloc_object().unwrap();
    assert_eq!(new_ptr, ptr);
}

#[test]
fn slab_describes_itself() {
    let (slab, base) = create_slab(8);
    assert_eq!(slab.base().value(), base);
    assert_eq!(slab.obj_shift(), 8);
}

#[test]
fn alloc_free_basic() {
    let (mut frames, mut allocator) = create_allocator_fixture();

    // 64-byte allocation
    let alloc = allocator.allocator_for_layout(64, 64).unwrap();
    let ptr = alloc.allocate(&mut frames);
    assert!(!ptr.is_null());
    assert_eq!(ptr.value() % 64, 0, "Alignment not respected");

    alloc.free(&mut frames, ptr);
}

#[test]
fn slab_creation_and_partial_list() {
    let (mut frames, mut allocator) = create_allocator_fixture();

    // 1024 byte allocation.
    let alloc = allocator.allocator_for_layout(1024, 1024).unwrap();

    // Initial State: No slabs
    assert_eq!(alloc.partial_slabs(), 0);
    assert_eq!(alloc.free_slabs(), 0);

    // Alloc one object
    let ptr = alloc.allocate(&mut frames);

    // Should now have 1 slab in partial
    assert_eq!(alloc.partial_slabs(), 1);
    assert_eq!(alloc.free_slabs(), 0);

    assert!(matches!(
        frames
            .frame_list()
            .get_frame(PA::from_value(ptr.value()).to_pfn())
            .state,
        FrameState::Slab(_)
    ));

    // Free the object
    alloc.free(&mut frames, ptr);

    // Should move to Free list
    assert_eq!(alloc.partial_slabs(), 0);
    assert_eq!(alloc.free_slabs(), 1);
}

#[test]
fn slab_exhaustion_and_floating_slabs() {
    let (mut frames, mut allocator) = create_allocator_fixture();

    // Slab Capacity = 4 objects at 4k.
    let alloc = allocator.allocator_for_layout(4096, 4096).unwrap();

    let mut ptrs = Vec::new();

    // Alloc 4 objects (Fill the first slab)
    for _ in 0..4 {
        ptrs.push(alloc.allocate(&mut frames));
    }

    // The slab is now full. It should have been removed from partial.
    assert_eq!(alloc.partial_slabs(), 0);
    assert_eq!(alloc.free_slabs(), 0);

    // try_alloc should return `None`.
    assert!(alloc.try_alloc(&mut frames).is_none());

    // Alloc 1 more object (Triggers new slab)
    let ptr_new = alloc.allocate(&mut frames);
    ptrs.push(ptr_new);

    // Now we have a second slab, which is Partial (1/4 used)
    assert_eq!(alloc.partial_slabs(), 1);

    // Free an object from the first (Full/Floating) slab.
    let ptr_full_slab = ptrs[0];
    alloc.free(&mut frames, ptr_full_slab);

    // Both slabs should now be in partial.
    assert_eq!(alloc.partial_slabs(), 2);
}

#[test]
fn batch_freeing_threshold() {
    let (mut frames, mut allocator) = create_allocator_fixture();

    let alloc = allocator.allocator_for_layout(64, 64).unwrap();

    let mut all_ptrs = Vec::new();

    // Create 33 separate slabs.
    let objs_per_slab = SLAB_SIZE_BYTES / 64;

    // Allocate 33 * 256 objects
    for _ in 0..(MAX_FREE_SLABS + 1) {
        for _ in 0..objs_per_slab {
            all_ptrs.push(alloc.allocate(&mut frames));
        }
    }

    // At this point, we have 33 full slabs. None are in partial/free lists.
    assert_eq!(alloc.partial_slabs(), 0);
    assert_eq!(alloc.free_slabs(), 0);

    // Free everything.
    // When we free the last object of a slab, it goes to Free list.
    // When Free list hits 32, the *next* one triggers a batch free (pops 16).
    for ptr in all_ptrs {
        alloc.free(&mut frames, ptr);
    }

    assert_eq!(alloc.free_slabs(), 17);
    assert_eq!(alloc.free_list().iter().count(), 17);
}

#[test]
fn size_classes() {
    assert_eq!(alloc_order(1, 1), Some(1));
    assert_eq!(alloc_order(2, 2), Some(1));
    assert_eq!(alloc_order(3, 1), Some(2));
    assert_eq!(alloc_order(64, 8), Some(6));
    assert_eq!(alloc_order(65, 8), Some(7));
    assert_eq!(alloc_order(8, 64), Some(6));
    assert_eq!(alloc_order(SLAB_SIZE_BYTES, 8), Some(14));
    assert_eq!(alloc_order(SLAB_SIZE_BYTES + 1, 8), None);
    assert_eq!(alloc_order(8, 2 * SLAB_SIZE_BYTES), None);
}

#[test]
fn other_size_classes_are_untouched() {
    let (mut frames, mut allocator) = create_allocator_fixture();
    let ptr = allocator
        .allocator_for_layout(64, 64)
        .unwrap()
        .allocate(&mut frames);
    assert_eq!(allocator.allocator_for_layout(128, 8).unwrap().partial_slabs(), 0);
    assert_eq!(allocator.allocator_for_layout(128, 8).unwrap().obj_shift(), 7);
    assert_eq!(allocator.allocator_for_layout(64, 64).unwrap().partial_slabs(), 1);
    assert!(allocator.allocator_for_layout(SLAB_SIZE_BYTES + 1, 8).is_none());
    assert!(ptr.value() >= 0x4000_0000);
}

#[test]
fn ptr_cache_is_bounded() {
    let mut cache = PtrCache::new();
    assert!(cache.is_empty());
    assert!(cache.allocate().is_none());
    for i in 0..PTRS_PER_SZ_CLASS {
        assert!(!cache.is_full());
        assert!(cache.free(VA::from_value(0x1000 + i)).is_ok());
    }
    assert!(cache.is_full());
    // A full cache gives the pointer back.
    assert_eq!(
        cache.free(VA::from_value(0x9999)),
        Err(VA::from_value(0x9999))
    );
    // The last one that was freed is allocated first.
    assert_eq!(
        cache.allocate(),
        Some(VA::from_value(0x1000 + PTRS_PER_SZ_CLASS - 1))
    );
}

#[test]
fn ptr_cache_is_filled_half_and_drained() {
    let (mut frames, mut allocator) = create_allocator_fixture();
    let mut cache = PtrCache::default();
    let manager = allocator.allocator_for_layout(64, 64).unwrap();
    // There is no slab yet, and filling the cache allocates none.
    cache.fill_from(manager, &mut frames);
    assert!(cache.is_empty());

    let ptr = manager.allocate(&mut frames);
    cache.fill_from(manager, &mut frames);
    assert!(!cache.is_empty());
    cache.drain_into(manager, &mut frames);
    while let Some(p) = cache.allocate() {
        manager.free(&mut frames, p);
    }
    assert_eq!(manager.free_slabs(), 0);
    manager.free(&mut frames, ptr);
    assert_eq!(manager.free_slabs(), 1);
    assert_eq!(manager.partial_slabs(), 0);
}

#[test]
fn slab_cache_has_a_line_per_class() {
    let mut cache = SlabCache::new();
    cache
        .get_cache(64, 64)
        .unwrap()
        .free(VA::from_value(0x40))
        .unwrap();
    assert!(cache.get_cache(32, 32).unwrap().is_empty());
    assert!(!cache.get_cache(33, 1).unwrap().is_empty());
    assert!(cache.get_cache(SLAB_SIZE_BYTES + 1, 1).is_none());
}

#[test]
fn huge_orders() {
    assert_eq!(TestHeap::calculate_huge_order(1, 1), 0);
    assert_eq!(TestHeap::calculate_huge_order(4096, 1), 0);
    assert_eq!(TestHeap::calculate_huge_order(4097, 1), 1);
    assert_eq!(TestHeap::calculate_huge_order(5 * 4096, 1), 3);
    assert_eq!(TestHeap::calculate_huge_order(1, 0x10000), 4);
}

/// Allocates and frees at random, keeps track of what is in use, and checks that nothing
/// overlaps and that all memory comes back.
#[test]
fn heap_allocations_do_not_overlap() {
    let mut frames = frames(64 * 1024 * 1024);
    let mut slabs: TstSlabAlloc = SlabAllocator::new();
    let mut cache = SlabCache::new();
    let mut rng = rand::rngs::StdRng::seed_from_u64(7);

    let mut used: BTreeMap<usize, (usize, usize)> = BTreeMap::new();
    for _ in 0..4000 {
        if rng.random_bool(0.6) || used.is_empty() {
            let size = [8, 64, 100, 1024, 4096, 20000][rng.random_range(0..6)];
            let align = [8, 16, 1024][rng.random_range(0..3)];
            let ptr = TestHeap::allocate(&mut cache, &mut slabs, &mut frames, size, align).value();
            assert_eq!(ptr % align, 0, "Alignment violation");
            if let Some((start, (len, _))) = used.range(..=ptr).next_back() {
                assert!(start + len <= ptr);
            }
            if let Some((start, _)) = used.range(ptr + 1..).next() {
                assert!(ptr + size <= *start);
            }
            used.insert(ptr, (size, align));
        } else {
            let at = rng.random_range(0..used.len());
            let (ptr, (size, align)) = used.iter().map(|(p, v)| (*p, *v)).nth(at).unwrap();
            used.remove(&ptr);
            TestHeap::dealloc(
                &mut cache,
                &mut slabs,
                &mut frames,
                VA::from_value(ptr),
                size,
                align,
            );
        }
    }
    for (ptr, (size, align)) in used {
        TestHeap::dealloc(
            &mut cache,
            &mut slabs,
            &mut frames,
            VA::from_value(ptr),
            size,
            align,
        );
    }
    cache.purge_into(&mut slabs, &mut frames);
    // Every slab is free again.
    for size in [8, 64, 128, 1024, 4096] {
        assert_eq!(slabs.allocator_for_layout(size, 8).unwrap().partial_slabs(), 0);
    }
}

#[test]
fn heap_knows_when_memory_runs_out() {
    let mut frames = frames(32 * 1024 * 1024);
    let mut slabs = TstSlabAlloc::new();
    let mut cache = SlabCache::new();
    // The largest block is 4 MiB.
    assert!(TestHeap::can_allocate(&cache, &slabs, &frames, 4 << 20, 8));
    assert!(!TestHeap::can_allocate(&cache, &slabs, &frames, (4 << 20) + 1, 8));

    let kept = TestHeap::allocate(&mut cache, &mut slabs, &mut frames, 64, 8);
    while TestHeap::can_allocate(&cache, &slabs, &frames, 1 << 15, 8) {
        TestHeap::allocate(&mut cache, &mut slabs, &mut frames, 1 << 15, 8);
    }
    assert!(!frames.has_block(3));
    while frames.has_block(0) {
        frames.alloc_frames(0).unwrap().leak();
    }
    assert_eq!(frames.free_pages(), 0);
    // Only objects of the size class that has a slab are left.
    assert!(TestHeap::can_allocate(&cache, &slabs, &frames, 64, 8));
    assert!(!TestHeap::can_allocate(&cache, &slabs, &frames, 128, 8));
    TestHeap::dealloc(&mut cache, &mut slabs, &mut frames, kept, 64, 8);
    assert!(TestHeap::can_allocate(&cache, &slabs, &frames, 64, 8));
}
