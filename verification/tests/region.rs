use libkernel::memory::address::{IdentityTranslator, PA, VA};
use libkernel::memory::region::{PhysMemoryRegion, VirtMemoryRegion};
use libkernel::memory::PAGE_SIZE;

fn region(start: usize, size: usize) -> PhysMemoryRegion {
    PhysMemoryRegion::new(PA::from_value(start), size)
}

#[test]
fn merge_adjacent() {
    let a = region(0x100, 0x10);
    let b = region(0x110, 0x10);
    let merged = a.merge(b).unwrap();

    assert_eq!(merged.start_address().value(), 0x100);
    assert_eq!(merged.size(), 0x20);
}

#[test]
fn merge_overlap() {
    let a = region(0x100, 0x20);
    let b = region(0x110, 0x20);
    let merged = a.merge(b).unwrap();

    assert_eq!(merged.start_address().value(), 0x100);
    assert_eq!(merged.size(), 0x30);
}

#[test]
fn merge_identical() {
    let a = region(0x100, 0x20);
    let b = region(0x100, 0x20);
    let merged = a.merge(b).unwrap();

    assert_eq!(merged.start_address().value(), 0x100);
    assert_eq!(merged.size(), 0x20);
}

#[test]
fn merge_non_touching() {
    let a = region(0x100, 0x10);
    let b = region(0x200, 0x10);
    assert!(a.merge(b).is_none());
}

#[test]
fn merge_reverse_order() {
    let a = region(0x200, 0x20);
    let b = region(0x100, 0x100);
    let merged = a.merge(b).unwrap();

    assert_eq!(merged.start_address().value(), 0x100);
    assert_eq!(merged.size(), 0x120);
}

#[test]
fn merge_partial_overlap() {
    let a = region(0x100, 0x30); // [0x100, 0x130)
    let b = region(0x120, 0x20); // [0x120, 0x140)
    let merged = a.merge(b).unwrap(); // should be [0x100, 0x140)

    assert_eq!(merged.start_address().value(), 0x100);
    assert_eq!(merged.size(), 0x40);
}

#[test]
fn test_contains_region() {
    let a = region(0x1000, 0x300);
    let b = region(0x1100, 0x100);
    assert!(a.contains(b));
    assert!(!b.contains(a));
}

#[test]
fn test_contains_address() {
    let region = region(0x1000, 0x100);
    assert!(region.contains_address(PA::from_value(0x1000)));
    assert!(region.contains_address(PA::from_value(0x10FF)));
    assert!(!region.contains_address(PA::from_value(0x1100)));
}

#[test]
fn test_iter_pages_exact_multiple() {
    let start_va = VA::from_value(0x10000);
    let num_pages = 3;
    let region = VirtMemoryRegion::new(start_va, num_pages * PAGE_SIZE);

    let pages: Vec<VA> = region.iter_pages();

    assert_eq!(pages.len(), num_pages);

    assert_eq!(pages[0], VA::from_value(0x10000));
    assert_eq!(pages[1], VA::from_value(0x11000));
    assert_eq!(pages[2], VA::from_value(0x12000));
}

#[test]
fn test_iter_pages_single_page() {
    let start_va = VA::from_value(0x20000);
    let region = VirtMemoryRegion::new(start_va, PAGE_SIZE);

    let mut iter = region.iter_pages().into_iter();

    assert_eq!(iter.next(), Some(start_va));
    assert_eq!(iter.next(), None);
}

#[test]
fn test_iter_pages_empty_region() {
    let start_va = VA::from_value(0x30000);

    let region = VirtMemoryRegion::new(start_va, 0);

    assert_eq!(region.iter_pages().len(), 0);
}

#[test]
fn test_iter_pages_size_not_a_multiple_of_page_size() {
    let start_va = VA::from_value(0x40000);
    let num_pages = 5;
    let size = num_pages * PAGE_SIZE + 123;
    let region = VirtMemoryRegion::new(start_va, size);

    assert_eq!(region.iter_pages().len(), num_pages);

    assert_eq!(
        region.iter_pages().last(),
        Some(&start_va.add_pages(num_pages - 1))
    );
}

#[test]
fn test_iter_pages_large_count() {
    let start_va = VA::from_value(0x5_0000_0000);
    let num_pages = 1000;
    let region = VirtMemoryRegion::new(start_va, num_pages * PAGE_SIZE);

    assert_eq!(region.iter_pages().len(), num_pages);
}

#[test]
fn test_punch_hole_middle() {
    // Region: [0x1000 ... 0x5000) (size 0x4000)
    // Hole:   [0x2000 ... 0x3000)
    // Expect: Left [0x1000, 0x2000), Right [0x3000, 0x5000)
    let main = region(0x1000, 0x4000);
    let hole = region(0x2000, 0x1000);

    let (left, right) = main.punch_hole(hole);

    assert_eq!(left, Some(region(0x1000, 0x1000)));
    assert_eq!(right, Some(region(0x3000, 0x2000)));
}

#[test]
fn test_punch_hole_consumes_start() {
    // Region: [0x2000 ... 0x4000)
    // Hole:   [0x1000 ... 0x3000) (Overlaps the beginning)
    // Expect: Left None, Right [0x3000, 0x4000)
    let main = region(0x2000, 0x2000);
    let hole = region(0x1000, 0x2000);

    let (left, right) = main.punch_hole(hole);

    assert_eq!(left, None);
    assert_eq!(right, Some(region(0x3000, 0x1000)));
}

#[test]
fn test_punch_hole_consumes_end() {
    // Region: [0x1000 ... 0x3000)
    // Hole:   [0x2000 ... 0x4000) (Overlaps the end)
    // Expect: Left [0x1000, 0x2000), Right None
    let main = region(0x1000, 0x2000);
    let hole = region(0x2000, 0x2000);

    let (left, right) = main.punch_hole(hole);

    assert_eq!(left, Some(region(0x1000, 0x1000)));
    assert_eq!(right, None);
}

#[test]
fn test_punch_hole_exact_match() {
    // Region: [0x1000 ... 0x2000)
    // Hole:   [0x1000 ... 0x2000)
    // Expect: None, None
    let main = region(0x1000, 0x1000);
    let hole = region(0x1000, 0x1000);

    let (left, right) = main.punch_hole(hole);

    assert_eq!(left, None);
    assert_eq!(right, None);
}

#[test]
fn test_punch_hole_fully_contained() {
    // Region: [0x2000 ... 0x3000)
    // Hole:   [0x1000 ... 0x4000) (Swallows the region entirely)
    // Expect: None, None
    let main = region(0x2000, 0x1000);
    let hole = region(0x1000, 0x3000);

    let (left, right) = main.punch_hole(hole);

    assert_eq!(left, None);
    assert_eq!(right, None);
}

#[test]
fn test_punch_hole_touching_edges() {
    // Case A: Hole ends exactly where region starts
    // Region: [0x2000 ... 0x3000)
    // Hole:   [0x1000 ... 0x2000)
    // Result: Region is to the right of the hole.
    let main = region(0x2000, 0x1000);
    let hole = region(0x1000, 0x1000);
    assert_eq!(main.punch_hole(hole), (None, Some(main)));

    // Case B: Hole starts exactly where region ends
    // Region: [0x1000 ... 0x2000)
    // Hole:   [0x2000 ... 0x3000)
    // Result: Region is to the left of the hole.
    let main = region(0x1000, 0x1000);
    let hole = region(0x2000, 0x1000);
    assert_eq!(main.punch_hole(hole), (Some(main), None));
}

#[test]
fn test_punch_hole_disjoint() {
    // Hole is completely far away (after)
    // Region: [0x1000 ... 0x2000)
    // Hole:   [0x5000 ... 0x6000)
    // Result: Region is to the left of the hole.
    let main = region(0x1000, 0x1000);
    let hole = region(0x5000, 0x1000);
    assert_eq!(main.punch_hole(hole), (Some(main), None));

    // Hole is completely far away (before)
    // Region: [0x5000 ... 0x6000)
    // Hole:   [0x1000 ... 0x2000)
    // Result: Region is to the right of the hole.
    let main = region(0x5000, 0x1000);
    let hole = region(0x1000, 0x1000);
    assert_eq!(main.punch_hole(hole), (None, Some(main)));
}

#[test]
fn regions_are_compared() {
    let (a, b, c) = (region(0x1000, 0x1000), region(0x1800, 0x1000), region(0x2000, 0x800));
    assert!(a.overlaps(b));
    assert!(!a.overlaps(c));
    assert!(a.is_before(c));
    assert!(c.is_after(a));
    assert_eq!(a.intersection(b), Some(region(0x1800, 0x800)));
    assert_eq!(a.intersection(c), None);
    assert_eq!(PhysMemoryRegion::empty().size(), 0);
}

#[test]
fn regions_are_resized_and_aligned() {
    let a = region(0x1234, 0x1000);
    assert_eq!(a.end_address().value(), 0x2234);
    assert_eq!(a.end_address_inclusive().value(), 0x2233);
    assert_eq!(a.with_size(5), region(0x1234, 5));
    assert_eq!(a.with_start_address(PA::from_value(0x10)), region(0x10, 0x1000));
    assert!(!a.is_page_aligned());
    assert_eq!(a.align_to_page_boundary(), region(0x1000, 0x2000));
    assert_eq!(region(0x1000, 0).add_pages(2), region(0x3000, 0));
    let mappable = a.to_mappable_region();
    assert_eq!(mappable.region(), region(0x1000, 0x2000));
    assert_eq!(mappable.offset(), 0x234);
}

#[test]
fn regions_are_translated() {
    let a = region(0x1000, 0x2000);
    let virt = a.map_via::<IdentityTranslator>();
    assert_eq!(virt, VirtMemoryRegion::new(VA::from_value(0x1000), 0x2000));
    assert_eq!(virt.map_via::<IdentityTranslator>(), a);
    let pfns: Vec<usize> = a.iter_pfns().iter().map(|pfn| pfn.value()).collect();
    assert_eq!(pfns, [1, 2]);
}

#[test]
fn empty_regions_overlap_nothing() {
    let outer = PhysMemoryRegion::new(PA::from_value(0x1000), 0x1000);
    let empty = PhysMemoryRegion::new(PA::from_value(0x1800), 0);
    assert!(!outer.overlaps(empty));
    assert!(!empty.overlaps(outer));
    assert!(!empty.overlaps(empty));
    assert!(outer.intersection(empty).is_none());
}

#[test]
fn empty_hole_keeps_everything() {
    let (left, right) = region(0x1000, 0x1000).punch_hole(region(0x1800, 0));
    let (left, right) = (left.unwrap(), right.unwrap());
    assert_eq!((left.start_address().value(), left.size()), (0x1000, 0x800));
    assert_eq!((right.start_address().value(), right.size()), (0x1800, 0x800));
}
