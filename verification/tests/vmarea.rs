use libkernel::fs::InodeHandle;
use libkernel::memory::address::VA;
use libkernel::memory::proc_vm::vmarea::{
    AccessKind, FaultValidation, ProgramHeader, VMAPermissions, VMArea, VMAreaKind, VMFileMapping,
    PF_R, PF_W, PF_X, PROGRAM_HEADER_SIZE,
};
use libkernel::memory::region::VirtMemoryRegion;
use libkernel::memory::PAGE_SIZE;

fn create_test_vma(vaddr: usize, memsz: usize, file_offset: u64, filesz: u64) -> VMArea {
    VMArea::new(
        VirtMemoryRegion::new(VA::from_value(vaddr), memsz),
        VMAreaKind::File(VMFileMapping {
            file: InodeHandle::new(1),
            offset: file_offset,
            len: filesz,
        }),
        VMAPermissions::rw(),
    )
}

#[test]
fn simple_aligned_segment() {
    // A segment that is perfectly aligned to page boundaries.
    let vma = create_test_vma(0x20000, 0x2000, 0x4000, 0x2000);

    // Fault in the first page
    let fault_addr = VA::from_value(0x20500);
    let result = vma.resolve_fault(fault_addr).expect("Should resolve");

    assert_eq!(result.file_offset, 0x4000);
    assert_eq!(result.page_offset, 0);
    assert_eq!(result.read_len, PAGE_SIZE);

    // Fault in the second page
    let fault_addr = VA::from_value(0x21500);
    let result = vma.resolve_fault(fault_addr).expect("Should resolve");

    assert_eq!(result.file_offset, 0x5000);
    assert_eq!(result.page_offset, 0);
    assert_eq!(result.read_len, PAGE_SIZE);
}

#[test]
fn unaligned_segment() {
    // vaddr and file offset are not page-aligned, but are congruent modulo
    // the page size. vaddr starts 0xf00 bytes into page 0x40000. filesz
    // (0x300) is smaller than a page.
    let vma = create_test_vma(0x40100, 0x300, 0x5100, 0x300);

    // Fault anywhere in this small segment
    let fault_addr = VA::from_value(0x40280);
    let result = vma.resolve_fault(fault_addr).expect("Should resolve");

    // The handler needs to map page 0x40000.
    // The read must start from the true file offset (p_offset).
    assert_eq!(result.file_offset, 0x5100);
    // The data must be written 0xf00 bytes into the destination page.
    assert_eq!(result.page_offset, 0x100);
    // We only read the number of bytes specified in filesz.
    assert_eq!(result.read_len, 0x300);
}

#[test]
fn unaligned_segment_spanning_pages() {
    // An unaligned segment that is large enough to span multiple pages.
    // Starts at 0x40F00, size 0x800. Ends at 0x41700. Covers the last 0x100
    // bytes of page 0x40000 and the first 0x700 of page 0x41000.
    let vma = create_test_vma(0x40F00, 0x800, 0x5F00, 0x800);

    let fault_addr1 = VA::from_value(0x40F80);
    let result1 = vma
        .resolve_fault(fault_addr1)
        .expect("Should resolve first page");
    assert_eq!(result1.file_offset, 0x5F00, "File offset for first page");
    assert_eq!(result1.page_offset, 0xF00, "Page offset for first page");
    assert_eq!(result1.read_len, 0x100, "Read length for first page");

    let fault_addr2 = VA::from_value(0x41200);
    let result2 = vma
        .resolve_fault(fault_addr2)
        .expect("Should resolve second page");
    // The read should start where the first one left off: 0x5F00 + 0x100
    assert_eq!(result2.file_offset, 0x6000, "File offset for second page");
    assert_eq!(result2.page_offset, 0, "Page offset for second page");
    // The remaining bytes of the file need to be read. 0x800 - 0x100
    assert_eq!(result2.read_len, 0x700, "Read length for second page");
}

#[test]
fn mixed_data_bss_page() {
    // A segment where the data ends partway through a page, and BSS begins.
    // filesz = 0x1250 (one full page, and 0x250 bytes into the second page)
    // memsz = 0x3000 (lots of BSS)
    let vma = create_test_vma(0x30000, 0x3000, 0x8000, 0x1250);

    let fault_addr_data = VA::from_value(0x30100);
    let result_data = vma
        .resolve_fault(fault_addr_data)
        .expect("Should resolve full data page");
    assert_eq!(result_data.file_offset, 0x8000);
    assert_eq!(result_data.page_offset, 0);
    assert_eq!(result_data.read_len, 0x1000);

    let fault_addr_mixed_data = VA::from_value(0x31100);
    let result_mixed = vma
        .resolve_fault(fault_addr_mixed_data)
        .expect("Should resolve mixed page");
    assert_eq!(result_mixed.file_offset, 0x9000);
    assert_eq!(result_mixed.page_offset, 0);
    assert_eq!(
        result_mixed.read_len, 0x250,
        "Should only read the remaining file bytes"
    );

    // Fault in the *BSS* part of the same mixed page. This should trigger
    // the exact same read operation.
    let fault_addr_mixed_bss = VA::from_value(0x31800);
    let result_mixed_2 = vma
        .resolve_fault(fault_addr_mixed_bss)
        .expect("Should resolve mixed page from BSS fault");
    assert_eq!(result_mixed_2.file_offset, 0x9000);
    assert_eq!(result_mixed_2.page_offset, 0);
    assert_eq!(result_mixed_2.read_len, 0x250);
}

#[test]
fn pure_bss_fault() {
    // Using the same VMA as the mixed test, but faulting in a page that is
    // entirely BSS.
    let vma = create_test_vma(0x30000, 0x3000, 0x8000, 0x1250);
    let fault_addr = VA::from_value(0x32100); // 0x30000 + 0x1250 is the start of BSS.

    let result = vma.resolve_fault(fault_addr);
    assert!(result.is_none(), "Pure BSS fault should return None");
}

#[test]
fn anonymous_mapping() {
    // An anonymous VMA should never result in a file read.
    let vma = VMArea::new(
        VirtMemoryRegion::new(VA::from_value(0x50000), 0x1000),
        VMAreaKind::Anon,
        VMAPermissions::rw(),
    );
    let fault_addr = VA::from_value(0x50500);

    let result = vma.resolve_fault(fault_addr);
    assert!(result.is_none(), "Anonymous VMA fault should return None");
}

#[test]
fn shrink_anonymous_vma() {
    // Easy case: Standard shrinking of an anonymous region
    let vma = VMArea::new(
        VirtMemoryRegion::new(VA::from_value(0x5000), 0x4000),
        VMAreaKind::Anon,
        VMAPermissions::rw(),
    );

    // Shrink to the middle.
    let new_region = VirtMemoryRegion::new(VA::from_value(0x6000), 0x1000);
    let result = vma.shrink_to(new_region);

    assert_eq!(result.region, new_region);
    assert!(matches!(result.kind, VMAreaKind::Anon));
}

#[test]
fn shrink_file_vma_from_front() {
    // Scenario: [  File (0x4000)  ]
    // Cut:      xx[ File (0x1000) ]
    // Expect: Offset increases, Length decreases

    let vma = create_test_vma(0x1000, 0x4000, 0x0, 0x4000);
    let new_region = VirtMemoryRegion::new(VA::from_value(0x4000), 0x1000);

    let result = vma.shrink_to(new_region);

    assert_eq!(result.region, new_region);
    match result.kind {
        VMAreaKind::File(vmfile_mapping) => {
            assert_eq!(vmfile_mapping.len, 0x1000);
            assert_eq!(vmfile_mapping.offset, 0x3000);
        }
        _ => panic!("Expected File VMA"),
    }
}

#[test]
fn shrink_file_vma_from_end() {
    // Scenario: [  File (0x4000)  ]
    // Cut:      [ File (0x2000) ]xx

    let vma = create_test_vma(0x1000, 0x4000, 0x0, 0x4000);
    let new_region = VirtMemoryRegion::new(VA::from_value(0x1000), 0x2000);

    let result = vma.shrink_to(new_region);

    assert_eq!(result.region, new_region);

    match result.kind {
        VMAreaKind::File(vmfile_mapping) => {
            // Offset shouldn't change
            assert_eq!(vmfile_mapping.offset, 0x0);
            assert_eq!(vmfile_mapping.len, 0x2000);
        }
        _ => panic!("Expected File VMA"),
    }
}

#[test]
fn shrink_file_vma_both_sides() {
    // Scenario: [   File (0x4000)   ]
    // Cut:      xx[ File (0x1000) ]xx
    let vma = create_test_vma(0x1000, 0x4000, 0x0, 0x4000);
    let new_region = VirtMemoryRegion::new(VA::from_value(0x2000), 0x1000);

    let result = vma.shrink_to(new_region);

    match result.kind {
        VMAreaKind::File(vmfile_mapping) => {
            assert_eq!(vmfile_mapping.offset, 0x1000);
            assert_eq!(vmfile_mapping.len, 0x1000);
        }
        _ => panic!("Expected File VMA"),
    }
}

#[test]
fn shrink_mixed_vma_past_file_boundary_becomes_anon() {
    // Scenario: [ File (0x2000) | Anon (0x2000) ]
    // Cut front by 0x3000.    xx[ Anon (0x1000) ]

    let vma = create_test_vma(0x1000, 0x4000, 0x0, 0x2000);

    let new_region = VirtMemoryRegion::new(VA::from_value(0x4000), 0x1000);

    let result = vma.shrink_to(new_region);

    assert_eq!(result.region, new_region);
    assert!(
        matches!(result.kind, VMAreaKind::Anon),
        "Should have converted to Anon because we skipped the file part"
    );
}

#[test]
fn shrink_mixed_vma_keep_file_part() {
    // Scenario: [ File (0x2000) | Anon (0x2000) ]
    // cut:      xx[ File(0x1000)| Anon (0x2000) ]
    let vma = create_test_vma(0x1000, 0x4000, 0x0, 0x2000);
    let new_region = VirtMemoryRegion::new(VA::from_value(0x2000), 0x3000);

    let result = vma.shrink_to(new_region);

    match result.kind {
        VMAreaKind::File(mapping) => {
            assert_eq!(mapping.offset, 0x1000);
            assert_eq!(mapping.len, 0x1000);
        }
        _ => panic!("Expected File VMA"),
    }
}

#[test]
fn shrink_mixed_vma_from_end_remove_anon_part() {
    // Scenario: [ File (0x2000) | Anon (0x2000) ]
    // Cut:      [ File (0x2000) ]xx
    let vma = create_test_vma(0x1000, 0x4000, 0x0, 0x2000);
    let new_region = VirtMemoryRegion::new(VA::from_value(0x1000), 0x2000);

    let result = vma.shrink_to(new_region);

    match result.kind {
        VMAreaKind::File(mapping) => {
            assert_eq!(mapping.offset, 0x0);
            assert_eq!(mapping.len, 0x2000);
        }
        _ => panic!("Expected File VMA"),
    }
}

#[test]
fn shrink_mixed_vma_exact_boundary() {
    // Scenario: [ File (0x2000) | Anon (0x2000) ]
    // Cut:                   xxx[ Anon (0x2000) ]

    let vma = create_test_vma(0x1000, 0x4000, 0x0, 0x2000);
    let new_region = VirtMemoryRegion::new(VA::from_value(0x3000), 0x1000);

    let result = vma.shrink_to(new_region);

    assert!(matches!(result.kind, VMAreaKind::Anon));
}

/// The bytes of a loadable segment's program header, in the given byte order.
fn header_bytes(flags: u32, values: [u64; 6], big_endian: bool) -> Vec<u8> {
    let mut bytes = Vec::new();
    for word in [1u32, flags] {
        bytes.extend(if big_endian { word.to_be_bytes() } else { word.to_le_bytes() });
    }
    for value in values {
        bytes.extend(if big_endian { value.to_be_bytes() } else { value.to_le_bytes() });
    }
    bytes
}

#[test]
fn program_headers_are_decoded() {
    // Offset, virtual address, physical address, file size, memory size, alignment.
    let values = [0x1100, 0x40_0100, 7, 0x2345, 0x3456, 0x1000];
    for big_endian in [false, true] {
        let mut bytes = header_bytes(PF_R | PF_X, values, big_endian);
        assert_eq!(bytes.len(), PROGRAM_HEADER_SIZE);
        bytes.push(0xff);
        let header = ProgramHeader::from_bytes(&bytes, big_endian).unwrap();
        assert_eq!(
            header,
            ProgramHeader {
                flags: PF_R | PF_X,
                offset: 0x1100,
                vaddr: 0x40_0100,
                filesz: 0x2345,
                memsz: 0x3456,
            }
        );
        assert!(ProgramHeader::from_bytes(&bytes[..55], big_endian).is_none());
    }
}

#[test]
fn segments_become_page_aligned_areas() {
    let header = ProgramHeader {
        flags: PF_R | PF_W,
        offset: 0x1100,
        vaddr: 0x2100,
        filesz: 0x200,
        memsz: 0x1000,
    };
    let file = InodeHandle::new(3);
    let vma = VMArea::from_pheader(file, header, Some(0x10_0000));
    assert_eq!(vma.region, VirtMemoryRegion::new(VA::from_value(0x10_2000), 0x2000));
    assert_eq!(
        *vma.kind(),
        VMAreaKind::File(VMFileMapping {
            file,
            offset: 0x1000,
            len: 0x300
        })
    );
    assert_eq!(vma.permissions(), VMAPermissions::rw());
    assert!(vma.is_file_backed());
    let vma = VMArea::from_pheader(file, ProgramHeader { flags: PF_X, ..header }, None);
    assert_eq!(vma.region().start_address().value(), 0x2000);
    assert!(vma.permissions().execute && !vma.permissions().read && !vma.permissions().write);
}

#[test]
fn accesses_are_validated() {
    let mut vma = create_test_vma(0x1000, 0x1000, 0, 0x1000);
    assert_eq!(vma.validate_fault(VA::from_value(0x1fff), AccessKind::Write), FaultValidation::Valid);
    assert_eq!(
        vma.validate_fault(VA::from_value(0x1000), AccessKind::Execute),
        FaultValidation::PermissionDenied
    );
    assert_eq!(
        vma.validate_fault(VA::from_value(0x2000), AccessKind::Read),
        FaultValidation::NotPresent
    );
    assert!(vma.contains_address(VA::from_value(0x1000)));
    assert!(!vma.contains_address(VA::from_value(0x2000)));
    vma.set_name("heap".to_string());
    assert_eq!(vma.name, "heap");
}

#[test]
fn file_mappings_describe_themselves() {
    let file = InodeHandle::new(9);
    match VMAreaKind::new_file(file, 0x2000, 0x10) {
        VMAreaKind::File(mapping) => {
            assert_eq!(mapping.file(), file);
            assert_eq!(mapping.offset(), 0x2000);
            assert_eq!(mapping.file_len(), 0x10);
        }
        VMAreaKind::Anon => panic!("Expected a file"),
    }
    assert_eq!(VMAreaKind::new_anon(), VMAreaKind::Anon);
}
