use libkernel::memory::address::{IdentityTranslator, PA, TVA, UA, VA};
use libkernel::memory::page::PageFrame;
use libkernel::memory::proc_vm::pg_offset::PageOffsetTranslator;
use libkernel::memory::PAGE_SIZE;

const TEST_ADDR: usize = 0x1000;
const NON_ALIGNED_ADDR: usize = 0x1234;

#[test]
fn test_va_creation_and_value() {
    let va = VA::from_value(TEST_ADDR);
    assert_eq!(va.value(), TEST_ADDR);
}

#[test]
fn test_pa_creation_and_value() {
    let pa = PA::from_value(TEST_ADDR);
    assert_eq!(pa.value(), TEST_ADDR);
}

#[test]
fn test_page_alignment() {
    let aligned_va = VA::from_value(0x2000);
    let unaligned_va = VA::from_value(0x2001);

    assert!(aligned_va.is_page_aligned());
    assert!(!unaligned_va.is_page_aligned());
}

#[test]
fn test_add_pages() {
    let base = VA::from_value(0x1000);
    let added = base.add_pages(2);
    assert_eq!(added.value(), 0x1000 + 2 * PAGE_SIZE);
}

#[test]
fn test_align_down() {
    let addr = VA::from_value(NON_ALIGNED_ADDR);
    let aligned = addr.align(0x1000);
    assert_eq!(aligned.value(), NON_ALIGNED_ADDR & !0xfff);
}

#[test]
fn test_align_up() {
    let addr = VA::from_value(NON_ALIGNED_ADDR);
    let aligned = addr.align_up(0x1000);
    let expected = (NON_ALIGNED_ADDR + 0xfff) & !0xfff;
    assert_eq!(aligned.value(), expected);
}

#[test]
fn test_identity_translation_va_to_pa() {
    let va = VA::from_value(TEST_ADDR);
    let pa = va.to_pa::<IdentityTranslator>();
    assert_eq!(pa.value(), TEST_ADDR);
}

#[test]
fn test_identity_translation_pa_to_va() {
    let pa = PA::from_value(TEST_ADDR);
    let va = pa.to_va::<IdentityTranslator>();
    assert_eq!(va.value(), TEST_ADDR);
}

#[test]
fn addresses_are_moved_by_bytes_and_objects() {
    let va = VA::from_value(0x1000);
    assert_eq!(va.add_bytes(3).value(), 0x1003);
    assert_eq!(va.sub_bytes(0x10).value(), 0xff0);
    let typed: TVA<u64> = va.cast();
    assert_eq!(typed.add_objs(3).value(), 0x1018);
    assert_eq!(typed.add_objs(3).sub_objs(1).value(), 0x1010);
    assert_eq!(typed.to_untyped(), va);
    assert!(UA::null().is_null());
    assert!(!va.is_null());
}

#[test]
fn addresses_lie_in_pages() {
    let va = VA::from_value(0x5678);
    assert_eq!(va.page_aligned().value(), 0x5000);
    assert_eq!(va.page_offset(), 0x678);
    assert_eq!(va.page_region().start_address().value(), 0x5000);
    assert_eq!(va.page_region().size(), PAGE_SIZE);
    assert_eq!(PA::from_value(0x5678).to_pfn(), PageFrame::from_pfn(5));
    assert_eq!(va.align(1).value(), 0x5678);
    assert_eq!(VA::from_value(0x6000).align_up(0x1000).value(), 0x6000);
}

#[test]
fn page_frames_are_numbered() {
    let frame = PageFrame::from_pfn(3);
    assert_eq!(frame.value(), 3);
    assert_eq!(frame.pa().value(), 0x3000);
    assert_eq!(frame.as_phys_range().start_address().value(), 0x3000);
    assert_eq!(frame.as_phys_range().size(), PAGE_SIZE);
    assert_eq!(frame.add_pages(2).pa().value(), 0x5000);
}

#[test]
fn page_offset_translation_is_a_constant_distance() {
    let pa = PA::from_value(0x2000);
    let va = pa.to_va::<PageOffsetTranslator<0x8000_0000>>();
    assert_eq!(va.value(), 0x8000_2000);
    assert_eq!(va.to_pa::<PageOffsetTranslator<0x8000_0000>>(), pa);
}
