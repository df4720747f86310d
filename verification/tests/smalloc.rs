use rand::{RngExt, SeedableRng};

use libkernel::error::KernelError;
use libkernel::memory::address::{IdentityTranslator, PA};
use libkernel::memory::allocators::smalloc::region_list::RegionList;
use libkernel::memory::allocators::smalloc::Smalloc;
use libkernel::memory::region::PhysMemoryRegion;

/// Where the region lists are.
const MEM_LIST: usize = 0x10_0000;
const RES_LIST: usize = 0x20_0000;

fn get_smalloc() -> Smalloc<IdentityTranslator> {
    Smalloc::new(RegionList::new(16, MEM_LIST), RegionList::new(16, RES_LIST))
}

/// Helper to check a region's start and size.
fn check_region(region: &PhysMemoryRegion, start: usize, size: usize) {
    assert_eq!(
        region.start_address().value(),
        start,
        "Region start address mismatch"
    );
    assert_eq!(region.size(), size, "Region size mismatch");
}

#[test]
fn add_region_perserves_order() {
    let mut smalloc = get_smalloc();

    smalloc
        .add_memory(PhysMemoryRegion::new(PA::from_value(0x700), 0x50))
        .unwrap();
    smalloc
        .add_memory(PhysMemoryRegion::new(PA::from_value(0x800), 0x50))
        .unwrap();
    smalloc
        .add_memory(PhysMemoryRegion::new(PA::from_value(0x200), 0x50))
        .unwrap();
    smalloc
        .add_memory(PhysMemoryRegion::new(PA::from_value(0x100), 0x50))
        .unwrap();
    smalloc
        .add_memory(PhysMemoryRegion::new(PA::from_value(0x770), 0x10))
        .unwrap();
    smalloc
        .add_memory(PhysMemoryRegion::new(PA::from_value(0x900), 0x50))
        .unwrap();

    let mut iter = smalloc.memory.iter().into_iter();

    assert_eq!(iter.next().unwrap().start_address().value(), 0x100);
    assert_eq!(iter.next().unwrap().start_address().value(), 0x200);
    assert_eq!(iter.next().unwrap().start_address().value(), 0x700);
    assert_eq!(iter.next().unwrap().start_address().value(), 0x770);
    assert_eq!(iter.next().unwrap().start_address().value(), 0x800);
    assert_eq!(iter.next().unwrap().start_address().value(), 0x900);
}

#[test]
fn add_region_merges_adjacent() {
    let mut smalloc = get_smalloc();

    smalloc
        .add_memory(PhysMemoryRegion::new(PA::from_value(0x1000), 0x100))
        .unwrap();
    smalloc
        .add_memory(PhysMemoryRegion::new(PA::from_value(0x1100), 0x100))
        .unwrap();

    let mut iter = smalloc.memory.iter().into_iter();
    let region = iter.next().unwrap();

    assert_eq!(region.start_address().value(), 0x1000);
    assert_eq!(region.size(), 0x200);
    assert!(iter.next().is_none());
}

#[test]
fn add_region_merges_overlap() {
    let mut smalloc = get_smalloc();

    smalloc
        .add_memory(PhysMemoryRegion::new(PA::from_value(0x1000), 0x200))
        .unwrap();
    smalloc
        .add_memory(PhysMemoryRegion::new(PA::from_value(0x1100), 0x200))
        .unwrap();

    let mut iter = smalloc.memory.iter().into_iter();
    let region = iter.next().unwrap();

    assert_eq!(region.start_address().value(), 0x1000);
    assert_eq!(region.size(), 0x300); // from 0x1000 to 0x1400
    assert!(iter.next().is_none());
}

#[test]
fn add_region_merges_multiple_regions() {
    let mut smalloc = get_smalloc();

    smalloc
        .add_memory(PhysMemoryRegion::new(PA::from_value(0x1000), 0x100))
        .unwrap();
    smalloc
        .add_memory(PhysMemoryRegion::new(PA::from_value(0x1200), 0x100))
        .unwrap();
    smalloc
        .add_memory(PhysMemoryRegion::new(PA::from_value(0x1100), 0x100))
        .unwrap(); // fills the gap

    let mut iter = smalloc.memory.iter().into_iter();
    let region = iter.next().unwrap();

    assert_eq!(region.start_address().value(), 0x1000);
    assert_eq!(region.size(), 0x300);
    assert!(iter.next().is_none());
}

#[test]
fn add_region_does_not_merge_non_adjacent() {
    let mut smalloc = get_smalloc();

    smalloc
        .add_memory(PhysMemoryRegion::new(PA::from_value(0x1000), 0x100))
        .unwrap();
    smalloc
        .add_memory(PhysMemoryRegion::new(PA::from_value(0x1200), 0x100))
        .unwrap();

    let mut iter = smalloc.memory.iter().into_iter();
    let region1 = iter.next().unwrap();
    let region2 = iter.next().unwrap();

    assert_eq!(region1.start_address().value(), 0x1000);
    assert_eq!(region1.size(), 0x100);
    assert_eq!(region2.start_address().value(), 0x1200);
    assert_eq!(region2.size(), 0x100);
    assert!(iter.next().is_none());
}

#[test]
fn add_region_merge_order_independent() {
    let mut smalloc = get_smalloc();

    smalloc
        .add_memory(PhysMemoryRegion::new(PA::from_value(0x1100), 0x100))
        .unwrap();
    smalloc
        .add_memory(PhysMemoryRegion::new(PA::from_value(0x1000), 0x100))
        .unwrap();
    smalloc
        .add_memory(PhysMemoryRegion::new(PA::from_value(0x1200), 0x100))
        .unwrap();

    let mut iter = smalloc.memory.iter().into_iter();
    let region = iter.next().unwrap();

    assert_eq!(region.start_address().value(), 0x1000);
    assert_eq!(region.size(), 0x300);
    assert!(iter.next().is_none());
}

#[test]
fn alloc_basic_success() {
    let mut smalloc = get_smalloc();
    smalloc
        .add_memory(PhysMemoryRegion::new(PA::from_value(0x1000), 0x1000))
        .unwrap();

    let addr = smalloc.allocate(0x100, 0x100).unwrap();
    assert_eq!(addr.value(), 0x1000);

    let reserved = smalloc.res.iter().into_iter().next().unwrap();
    assert_eq!(reserved.start_address().value(), 0x1000);
    assert_eq!(reserved.size(), 0x100);
}

#[test]
fn alloc_alignment_handling() {
    let mut smalloc = get_smalloc();
    smalloc
        .add_memory(PhysMemoryRegion::new(PA::from_value(0x1003), 0x1000))
        .unwrap();

    let addr = smalloc.allocate(0x100, 0x100).unwrap();
    assert_eq!(addr.value() % 0x100, 0); // aligned
    assert!(addr.value() >= 0x1003); // starts at or after base
}

#[test]
fn alloc_with_reservation_gap() {
    let mut smalloc = get_smalloc();
    smalloc
        .add_memory(PhysMemoryRegion::new(PA::from_value(0x1000), 0x1000))
        .unwrap();

    // Reserve a middle region
    smalloc
        .res
        .insert_region(PhysMemoryRegion::new(PA::from_value(0x1200), 0x100));

    // Alloc before the reserved region
    let addr1 = smalloc.allocate(0x100, 0x100).unwrap();
    assert_eq!(addr1.value(), 0x1000);

    let addr2 = smalloc.allocate(0x100, 0x100).unwrap();
    assert_eq!(addr2.value(), 0x1100);

    // Alloc after the reserved region
    let addr3 = smalloc.allocate(0x100, 0x100).unwrap();
    assert!(addr3.value() >= 0x1300); // aligned up after 0x1200 + 0x100
}

#[test]
fn alloc_avoids_overlap() {
    let mut smalloc = get_smalloc();
    smalloc
        .add_memory(PhysMemoryRegion::new(PA::from_value(0x1000), 0x200))
        .unwrap();

    // Reserve something at the start
    smalloc
        .res
        .insert_region(PhysMemoryRegion::new(PA::from_value(0x1000), 0x100));

    // Should only be able to allocate after 0x1100
    let addr = smalloc.allocate(0x80, 0x10).unwrap();
    assert!(addr.value() >= 0x1100);
    assert!(addr.value() + 0x80 <= 0x1200);
}

#[test]
fn alloc_fails_when_full() {
    let mut smalloc = get_smalloc();
    smalloc
        .add_memory(PhysMemoryRegion::new(PA::from_value(0x1000), 0x100))
        .unwrap();

    // Fill it
    assert!(smalloc.allocate(0x80, 0x10).is_ok());
    assert!(smalloc.allocate(0x80, 0x10).is_ok());
    assert!(smalloc.allocate(0x80, 0x10).is_err()); // should be full
}

#[test]
fn alloc_exact_fit() {
    let mut smalloc = get_smalloc();
    smalloc
        .add_memory(PhysMemoryRegion::new(PA::from_value(0x2000), 0x100))
        .unwrap();

    let addr = smalloc.allocate(0x100, 0x1).unwrap();
    assert_eq!(addr.value(), 0x2000);
    assert!(smalloc.allocate(0x1, 0x1).is_err()); // No space left
}

#[test]
fn alloc_multiple_allocations() {
    let mut smalloc = get_smalloc();
    smalloc
        .add_memory(PhysMemoryRegion::new(PA::from_value(0x3000), 0x400))
        .unwrap();

    let a1 = smalloc.allocate(0x100, 0x100).unwrap();
    let a2 = smalloc.allocate(0x100, 0x100).unwrap();
    let a3 = smalloc.allocate(0x100, 0x100).unwrap();

    assert_eq!(a1.value(), 0x3000);
    assert_eq!(a2.value(), 0x3100);
    assert_eq!(a3.value(), 0x3200);

    assert!(smalloc.allocate(0x200, 0x100).is_err()); // only 0x100 left
}

#[test]
fn free_exact_alloc() {
    let mut smalloc = get_smalloc();
    smalloc
        .add_memory(PhysMemoryRegion::new(PA::from_value(0x1000), 0x1000))
        .unwrap();

    let addr = smalloc.allocate(0x100, 0x100).unwrap();
    assert_eq!(smalloc.res.count(), 1);

    assert!(smalloc.free(addr, 0x100).is_ok());
    assert_eq!(smalloc.res.count(), 0);
}

#[test]
fn free_first_half_of_merged_region() {
    let mut smalloc = get_smalloc();
    smalloc
        .add_memory(PhysMemoryRegion::new(PA::from_value(0x1000), 0x1000))
        .unwrap();

    let a1 = smalloc.allocate(0x100, 0x100).unwrap(); // 0x1000
    smalloc.allocate(0x100, 0x100).unwrap(); // 0x1100

    assert_eq!(smalloc.res.count(), 1); // merged

    assert!(smalloc.free(a1, 0x100).is_ok());
    assert_eq!(smalloc.res.count(), 1);
    assert_eq!(smalloc.res.get(0).start_address().value(), 0x1100);
    assert_eq!(smalloc.res.get(0).size(), 0x100);
}

#[test]
fn free_last_half_of_merged_region() {
    let mut smalloc = get_smalloc();
    smalloc
        .add_memory(PhysMemoryRegion::new(PA::from_value(0x2000), 0x1000))
        .unwrap();

    smalloc.allocate(0x100, 0x100).unwrap(); // 0x2000
    let a1 = smalloc.allocate(0x100, 0x100).unwrap(); // 0x2100

    assert_eq!(smalloc.res.count(), 1);

    assert!(smalloc.free(a1, 0x100).is_ok());
    assert_eq!(smalloc.res.count(), 1);
    assert_eq!(smalloc.res.get(0).start_address().value(), 0x2000);
    assert_eq!(smalloc.res.get(0).size(), 0x100);
}

#[test]
fn free_middle_of_merged_region_splits_it() {
    let mut smalloc = get_smalloc();
    smalloc
        .add_memory(PhysMemoryRegion::new(PA::from_value(0x3000), 0x1000))
        .unwrap();

    smalloc.allocate(0x100, 0x100).unwrap(); // 0x3000
    let a1 = smalloc.allocate(0x100, 0x100).unwrap(); // 0x3100
    smalloc.allocate(0x100, 0x100).unwrap(); // 0x3200

    assert_eq!(smalloc.res.count(), 1); // 0x3000–0x3300

    assert!(smalloc.free(a1, 0x100).is_ok());

    assert_eq!(smalloc.res.count(), 2);
    assert_eq!(smalloc.res.get(0).start_address().value(), 0x3000);
    assert_eq!(smalloc.res.get(0).size(), 0x100);
    assert_eq!(smalloc.res.get(1).start_address().value(), 0x3200);
    assert_eq!(smalloc.res.get(1).size(), 0x100);
}

#[test]
fn free_entire_merged_region_removes_it() {
    let mut smalloc = get_smalloc();
    smalloc
        .add_memory(PhysMemoryRegion::new(PA::from_value(0x4000), 0x1000))
        .unwrap();

    let a1 = smalloc.allocate(0x200, 0x100).unwrap(); // 0x4000
    smalloc.allocate(0x100, 0x100).unwrap(); // 0x4200

    let merged = PhysMemoryRegion::new(a1, 0x300);
    assert!(smalloc.free(merged.start_address(), merged.size()).is_ok());
    assert_eq!(smalloc.res.count(), 0);
}

#[test]
fn free_nonexistent_region_fails() {
    let mut smalloc = get_smalloc();
    smalloc
        .add_memory(PhysMemoryRegion::new(PA::from_value(0x5000), 0x1000))
        .unwrap();

    let fake_addr = PA::from_value(0x6000);
    assert!(smalloc.free(fake_addr, 0x100).is_err());
}

#[test]
fn alloc_after_free_reuses_space() {
    let mut smalloc = get_smalloc();
    smalloc
        .add_memory(PhysMemoryRegion::new(PA::from_value(0x6000), 0x1000))
        .unwrap();

    let a1 = smalloc.allocate(0x100, 0x100).unwrap();
    assert!(smalloc.free(a1, 0x100).is_ok());

    let a2 = smalloc.allocate(0x100, 0x100).unwrap();
    assert_eq!(a1.value(), a2.value());
}

#[test]
fn double_free_fails_gracefully() {
    let mut smalloc = get_smalloc();
    smalloc
        .add_memory(PhysMemoryRegion::new(PA::from_value(0x7000), 0x1000))
        .unwrap();

    let addr = smalloc.allocate(0x100, 0x100).unwrap();
    assert!(smalloc.free(addr, 0x100).is_ok());
    assert!(matches!(
        smalloc.free(addr, 0x100),
        Err(KernelError::NoMemRegion)
    )); // already freed
}

#[test]
fn alloc_fill_free_reuse() {
    let mut smalloc = get_smalloc();
    smalloc
        .add_memory(PhysMemoryRegion::new(PA::from_value(0x8000), 0x1000))
        .unwrap();

    // Allocate 4 blocks
    let blocks: Vec<_> = (0..4)
        .map(|_| smalloc.allocate(0x100, 0x100).unwrap())
        .collect();

    // Free the middle two
    assert!(smalloc.free(blocks[1], 0x100).is_ok());
    assert!(smalloc.free(blocks[2], 0x100).is_ok());

    // Allocate again — should reuse freed space
    let r1 = smalloc.allocate(0x100, 0x100).unwrap();
    let r2 = smalloc.allocate(0x100, 0x100).unwrap();

    assert_eq!(r1.value(), blocks[1].value());
    assert_eq!(r2.value(), blocks[2].value());
}

#[test]
fn alloc_free_refill_stress() {
    let mut smalloc = get_smalloc();
    smalloc
        .add_memory(PhysMemoryRegion::new(PA::from_value(0xA000), 0x1000))
        .unwrap();

    let mut addrs = vec![];

    // Fill it with aligned 0x100 blocks
    while let Ok(addr) = smalloc.allocate(0x100, 0x100) {
        addrs.push(addr);
    }

    assert!(!addrs.is_empty());
    assert!(smalloc.allocate(0x100, 0x100).is_err()); // should be full

    // Free all
    for addr in &addrs {
        assert!(smalloc.free(*addr, 0x100).is_ok());
    }

    // Should refill to same addresses
    for addr in &addrs {
        let new = smalloc.allocate(0x100, 0x100).unwrap();
        assert_eq!(new.value(), addr.value());
    }
}

#[test]
fn variable_size_allocs_and_frees() {
    let mut smalloc = get_smalloc();
    smalloc
        .add_memory(PhysMemoryRegion::new(PA::from_value(0xB000), 0x2000))
        .unwrap();

    smalloc.allocate(0x80, 0x10).unwrap();
    let a1 = smalloc.allocate(0x180, 0x20).unwrap();
    smalloc.allocate(0x100, 0x40).unwrap();

    assert!(smalloc.free(a1, 0x180).is_ok());

    let a4 = smalloc.allocate(0x100, 0x20).unwrap();
    assert_eq!(a4.value(), a1.value()); // fits exactly

    let a5 = smalloc.allocate(0x80, 0x10).unwrap(); // should use rest of freed space
    assert_eq!(a5.value(), a1.value() + 0x100);
}

#[test]
fn randomized_alloc_free_simulation() {
    let mut smalloc = get_smalloc();
    smalloc
        .add_memory(PhysMemoryRegion::new(PA::from_value(0xC000), 0x2000))
        .unwrap();

    let mut rng = rand::rngs::StdRng::seed_from_u64(0x42);
    let mut allocs: Vec<(PA, usize)> = vec![];

    for _ in 0..50 {
        if rng.random_bool(0.6) {
            let size = [0x40, 0x80, 0x100][rng.random_range(0..3)];
            let align = [0x10, 0x20, 0x40][rng.random_range(0..3)];
            if let Ok(addr) = smalloc.allocate(size, align) {
                allocs.push((addr, size));
            }
        } else if let Some((addr, size)) = allocs.pop() {
            assert!(smalloc.free(addr, size).is_ok());
        }
    }

    // Any leftover allocations should be valid frees
    for (addr, size) in allocs {
        assert!(smalloc.free(addr, size).is_ok());
    }

    assert_eq!(smalloc.res.count(), 0);
}

#[test]
fn memory_region_list_move() {
    let mut smalloc = get_smalloc();
    let len = 128;
    let big_buf: usize = 0x80_0000;

    smalloc
        .add_memory(PhysMemoryRegion::new(
            PA::from_value(big_buf),
            len * core::mem::size_of::<PhysMemoryRegion>(),
        ))
        .unwrap();

    for i in 1..=14 {
        assert!(
            smalloc
                .add_memory(PhysMemoryRegion::new(
                    PA::from_value(big_buf + (i * 0x1000)),
                    0x50,
                ))
                .is_ok()
        );
    }

    // Ensure that the reallocation doesn't happen if it's not permitted.
    assert!(
        smalloc
            .add_memory(PhysMemoryRegion::new(
                PA::from_value(big_buf + (15 * 0x1000)),
                0x50,
            ))
            .is_err()
    );

    smalloc.permit_region_list_reallocs();

    assert!(
        smalloc
            .add_memory(PhysMemoryRegion::new(
                PA::from_value(big_buf + (15 * 0x1000)),
                0x50,
            ))
            .is_ok()
    );

    // We should be able to iterate through the new list.
    assert_eq!(smalloc.memory.iter().len(), 16);

    // We should have 1 reservation, the list itself.
    assert_eq!(smalloc.res.count(), 1);
}

#[test]
fn iter_free_no_reservations() {
    let mut smalloc = get_smalloc();
    smalloc
        .add_memory(PhysMemoryRegion::new(PA::from_value(0x1000), 0x1000))
        .unwrap();
    smalloc
        .add_memory(PhysMemoryRegion::new(PA::from_value(0x3000), 0x1000))
        .unwrap();

    let free_regions: Vec<_> = smalloc.iter_free();
    assert_eq!(free_regions.len(), 2);
    check_region(&free_regions[0], 0x1000, 0x1000);
    check_region(&free_regions[1], 0x3000, 0x1000);
}

#[test]
fn iter_free_fully_reserved() {
    let mut smalloc = get_smalloc();
    smalloc
        .add_memory(PhysMemoryRegion::new(PA::from_value(0x1000), 0x1000))
        .unwrap();
    smalloc
        .add_reservation(PhysMemoryRegion::new(PA::from_value(0x1000), 0x1000))
        .unwrap();

    assert_eq!(smalloc.iter_free().len(), 0);
}

#[test]
fn iter_free_prefix_reserved() {
    let mut smalloc = get_smalloc();
    smalloc
        .add_memory(PhysMemoryRegion::new(PA::from_value(0x1000), 0x1000)) // 0x1000 - 0x2000
        .unwrap();
    smalloc
        .add_reservation(PhysMemoryRegion::new(PA::from_value(0x1000), 0x100)) // 0x1000 - 0x1100
        .unwrap();

    let free_regions: Vec<_> = smalloc.iter_free();
    assert_eq!(free_regions.len(), 1);
    check_region(&free_regions[0], 0x1100, 0xF00); // 0x1100 - 0x2000
}

#[test]
fn iter_free_suffix_reserved() {
    let mut smalloc = get_smalloc();
    smalloc
        .add_memory(PhysMemoryRegion::new(PA::from_value(0x1000), 0x1000)) // 0x1000 - 0x2000
        .unwrap();
    smalloc
        .add_reservation(PhysMemoryRegion::new(PA::from_value(0x1F00), 0x100)) // 0x1F00 - 0x2000
        .unwrap();

    let free_regions: Vec<_> = smalloc.iter_free();
    assert_eq!(free_regions.len(), 1);
    check_region(&free_regions[0], 0x1000, 0xF00); // 0x1000 - 0x1F00
}

#[test]
fn iter_free_middle_reserved() {
    let mut smalloc = get_smalloc();
    smalloc
        .add_memory(PhysMemoryRegion::new(PA::from_value(0x1000), 0x1000)) // 0x1000 - 0x2000
        .unwrap();
    smalloc
        .add_reservation(PhysMemoryRegion::new(PA::from_value(0x1400), 0x200)) // 0x1400 - 0x1600
        .unwrap();

    let free_regions: Vec<_> = smalloc.iter_free();
    assert_eq!(free_regions.len(), 2);
    check_region(&free_regions[0], 0x1000, 0x400); // 0x1000 - 0x1400
    check_region(&free_regions[1], 0x1600, 0xA00); // 0x1600 - 0x2000
}

#[test]
fn iter_free_multiple_reservations() {
    let mut smalloc = get_smalloc();
    smalloc
        .add_memory(PhysMemoryRegion::new(PA::from_value(0x1000), 0x1000)) // 0x1000 - 0x2000
        .unwrap();
    smalloc
        .add_reservation(PhysMemoryRegion::new(PA::from_value(0x1200), 0x100)) // 0x1200 - 0x1300
        .unwrap();
    smalloc
        .add_reservation(PhysMemoryRegion::new(PA::from_value(0x1800), 0x200)) // 0x1800 - 0x1A00
        .unwrap();

    let free_regions: Vec<_> = smalloc.iter_free();
    assert_eq!(free_regions.len(), 3);
    check_region(&free_regions[0], 0x1000, 0x200); // 0x1000 - 0x1200
    check_region(&free_regions[1], 0x1300, 0x500); // 0x1300 - 0x1800
    check_region(&free_regions[2], 0x1A00, 0x600); // 0x1A00 - 0x2000
}

#[test]
fn iter_free_multiple_mem_regions() {
    let mut smalloc = get_smalloc();
    smalloc
        .add_memory(PhysMemoryRegion::new(PA::from_value(0x1000), 0x1000)) // 0x1000 - 0x2000
        .unwrap();
    smalloc
        .add_memory(PhysMemoryRegion::new(PA::from_value(0x3000), 0x1000)) // 0x3000 - 0x4000
        .unwrap();
    smalloc
        .add_reservation(PhysMemoryRegion::new(PA::from_value(0x3100), 0x100)) // 0x3100 - 0x3200
        .unwrap();

    let free_regions: Vec<_> = smalloc.iter_free();
    assert_eq!(free_regions.len(), 3);
    check_region(&free_regions[0], 0x1000, 0x1000);
    check_region(&free_regions[1], 0x3000, 0x100);
    check_region(&free_regions[2], 0x3200, 0xE00);
}

#[test]
fn iter_free_reservation_outside_memory() {
    let mut smalloc = get_smalloc();
    smalloc
        .add_memory(PhysMemoryRegion::new(PA::from_value(0x1000), 0x1000))
        .unwrap();
    // This reservation is before the memory region.
    smalloc
        .add_reservation(PhysMemoryRegion::new(PA::from_value(0x0), 0x100))
        .unwrap();
    // This reservation is after the memory region.
    smalloc
        .add_reservation(PhysMemoryRegion::new(PA::from_value(0x8000), 0x100))
        .unwrap();

    let free_regions: Vec<_> = smalloc.iter_free();
    assert_eq!(free_regions.len(), 1);
    check_region(&free_regions[0], 0x1000, 0x1000);
}

#[test]
fn iter_free_reservation_merges_and_splits() {
    let mut smalloc = get_smalloc();
    // 0x1000 - 0x3000
    smalloc
        .add_memory(PhysMemoryRegion::new(PA::from_value(0x1000), 0x2000))
        .unwrap();

    // These two reservations will be merged by `insert_region` into one: 0x1500 - 0x1A00
    smalloc
        .add_reservation(PhysMemoryRegion::new(PA::from_value(0x1500), 0x200)) // 0x1500 - 0x1700
        .unwrap();
    smalloc
        .add_reservation(PhysMemoryRegion::new(PA::from_value(0x1600), 0x400)) // 0x1600 - 0x1A00
        .unwrap();

    let free_regions: Vec<_> = smalloc.iter_free();
    assert_eq!(smalloc.res.count(), 1); // verify merge happened
    check_region(&smalloc.res.get(0), 0x1500, 0x500);

    assert_eq!(free_regions.len(), 2);
    check_region(&free_regions[0], 0x1000, 0x500);
    check_region(&free_regions[1], 0x1A00, 0x1600);
}

#[test]
fn iter_free_no_memory_regions() {
    let smalloc = get_smalloc();
    assert_eq!(smalloc.iter_free().len(), 0);
}

#[test]
fn iter_free_reservation_bigger_than_memory() {
    let mut smalloc = get_smalloc();
    smalloc
        .add_memory(PhysMemoryRegion::new(PA::from_value(0x2000), 0x100)) // 0x2000-0x2100
        .unwrap();
    smalloc
        .add_reservation(PhysMemoryRegion::new(PA::from_value(0x1000), 0x2000)) // 0x1000-0x3000
        .unwrap();

    assert_eq!(smalloc.iter_free().len(), 0);
}

#[test]
fn claim_region_middle_splits_into_two() {
    let mut smalloc = get_smalloc();
    smalloc
        .add_memory(PhysMemoryRegion::new(PA::from_value(0x1000), 0x1000)) // 0x1000-0x2000
        .unwrap();

    smalloc
        .claim_region(PhysMemoryRegion::new(PA::from_value(0x1400), 0x400)) // 0x1400-0x1800
        .unwrap();

    let regions: Vec<_> = smalloc.iter_memory();
    assert_eq!(regions.len(), 2);
    check_region(&regions[0], 0x1000, 0x400);
    check_region(&regions[1], 0x1800, 0x800);

    // The claimed region must not appear in iter_free either.
    let free: Vec<_> = smalloc.iter_free();
    assert_eq!(free.len(), 2);
    check_region(&free[0], 0x1000, 0x400);
    check_region(&free[1], 0x1800, 0x800);
}

#[test]
fn claim_region_prefix_leaves_suffix() {
    let mut smalloc = get_smalloc();
    smalloc
        .add_memory(PhysMemoryRegion::new(PA::from_value(0x1000), 0x1000)) // 0x1000-0x2000
        .unwrap();

    smalloc
        .claim_region(PhysMemoryRegion::new(PA::from_value(0x1000), 0x400)) // 0x1000-0x1400
        .unwrap();

    let regions: Vec<_> = smalloc.iter_memory();
    assert_eq!(regions.len(), 1);
    check_region(&regions[0], 0x1400, 0xc00);
}

#[test]
fn claim_region_suffix_leaves_prefix() {
    let mut smalloc = get_smalloc();
    smalloc
        .add_memory(PhysMemoryRegion::new(PA::from_value(0x1000), 0x1000)) // 0x1000-0x2000
        .unwrap();

    smalloc
        .claim_region(PhysMemoryRegion::new(PA::from_value(0x1c00), 0x400)) // 0x1c00-0x2000
        .unwrap();

    let regions: Vec<_> = smalloc.iter_memory();
    assert_eq!(regions.len(), 1);
    check_region(&regions[0], 0x1000, 0xc00);
}

#[test]
fn claim_region_exact_match_removes() {
    let mut smalloc = get_smalloc();
    smalloc
        .add_memory(PhysMemoryRegion::new(PA::from_value(0x1000), 0x1000))
        .unwrap();

    smalloc
        .claim_region(PhysMemoryRegion::new(PA::from_value(0x1000), 0x1000))
        .unwrap();

    assert_eq!(smalloc.iter_memory().len(), 0);
    assert_eq!(smalloc.iter_free().len(), 0);
}

#[test]
fn claim_region_preserves_inner_reservation() {
    let mut smalloc = get_smalloc();
    smalloc
        .add_memory(PhysMemoryRegion::new(PA::from_value(0x1000), 0x1000))
        .unwrap();
    // A pre-existing reservation inside the to-be-claimed region (e.g.
    // the kernel image) must remain in the reservation list so a
    // downstream allocator can still observe it.
    smalloc
        .add_reservation(PhysMemoryRegion::new(PA::from_value(0x1400), 0x100))
        .unwrap();

    smalloc
        .claim_region(PhysMemoryRegion::new(PA::from_value(0x1000), 0x1000))
        .unwrap();

    let res: Vec<_> = smalloc.res.iter();
    assert_eq!(res.len(), 1);
    check_region(&res[0], 0x1400, 0x100);
}

#[test]
fn claim_region_unknown_fails() {
    let mut smalloc = get_smalloc();
    smalloc
        .add_memory(PhysMemoryRegion::new(PA::from_value(0x1000), 0x1000))
        .unwrap();

    // Region wholly outside any known memory.
    let result = smalloc.claim_region(PhysMemoryRegion::new(PA::from_value(0x5000), 0x100));
    assert!(matches!(result, Err(KernelError::InvalidValue)));
}

#[test]
fn claim_region_partial_coverage_fails() {
    let mut smalloc = get_smalloc();
    smalloc
        .add_memory(PhysMemoryRegion::new(PA::from_value(0x1000), 0x1000)) // 0x1000-0x2000
        .unwrap();

    // Spans the end of the known region.
    let result = smalloc.claim_region(PhysMemoryRegion::new(PA::from_value(0x1f00), 0x200));
    assert!(matches!(result, Err(KernelError::InvalidValue)));
}

#[test]
fn claim_region_does_not_straddle_two_memory_regions() {
    let mut smalloc = get_smalloc();
    smalloc
        .add_memory(PhysMemoryRegion::new(PA::from_value(0x1000), 0x500))
        .unwrap();
    smalloc
        .add_memory(PhysMemoryRegion::new(PA::from_value(0x2000), 0x500))
        .unwrap();

    // Spans the gap between the two regions; not contained in either.
    let result = smalloc.claim_region(PhysMemoryRegion::new(PA::from_value(0x1400), 0x800));
    assert!(matches!(result, Err(KernelError::InvalidValue)));
}

#[test]
fn claim_region_subsequent_alloc_avoids_claim() {
    let mut smalloc = get_smalloc();
    smalloc
        .add_memory(PhysMemoryRegion::new(PA::from_value(0x1000), 0x1000))
        .unwrap();

    smalloc
        .claim_region(PhysMemoryRegion::new(PA::from_value(0x1400), 0x400))
        .unwrap();

    // Subsequent allocations must not land inside the claimed region.
    for _ in 0..16 {
        let pa = match smalloc.allocate(0x100, 0x100) {
            Ok(pa) => pa,
            Err(_) => break,
        };
        assert!(
            pa.value() + 0x100 <= 0x1400 || pa.value() >= 0x1800,
            "allocation at {:#x} overlaps claimed region",
            pa.value()
        );
    }
}

#[test]
fn free_restores_the_lists() {
    let mut smalloc = get_smalloc();
    smalloc
        .add_memory(PhysMemoryRegion::new(PA::from_value(0x1000), 0x1000))
        .unwrap();
    // The block fills the gap between two reservations, which become one.
    for (start, size) in [(0x1000, 0x100), (0x1140, 0x100)] {
        smalloc
            .add_reservation(PhysMemoryRegion::new(PA::from_value(start), size))
            .unwrap();
    }
    let address = smalloc.allocate(0x40, 0x40).unwrap();
    assert_eq!(address.value(), 0x1100);
    assert_eq!(smalloc.res.count(), 1);
    smalloc.free(address, 0x40).unwrap();
    assert_eq!(smalloc.res.count(), 2);
    check_region(&smalloc.res.get(0), 0x1000, 0x100);
    check_region(&smalloc.res.get(1), 0x1140, 0x100);
    assert_eq!(smalloc.allocate(0x40, 0x40).unwrap().value(), 0x1100);
}

#[test]
fn memory_is_the_union_in_any_order() {
    let regions = [(0x100, 0x50), (0x200, 0x50), (0x150, 0x10), (0x120, 0x80)];
    for rotation in 0..regions.len() {
        let mut smalloc = get_smalloc();
        for i in 0..regions.len() {
            let (start, size) = regions[(i + rotation) % regions.len()];
            smalloc
                .add_memory(PhysMemoryRegion::new(PA::from_value(start), size))
                .unwrap();
        }
        assert_eq!(smalloc.iter_memory().len(), 2);
        check_region(&smalloc.iter_memory()[0], 0x100, 0xa0);
        check_region(&smalloc.iter_memory()[1], 0x200, 0x50);
    }
}
