use libkernel::error::{KernelError, Result};
use libkernel::fs::InodeHandle;
use libkernel::memory::address::VA;
use libkernel::memory::page::PageFrame;
use libkernel::memory::paging::permissions::PtePermissions;
use libkernel::memory::proc_vm::address_space::{PageInfo, Record, UserAddressSpace};
use libkernel::memory::proc_vm::memory_map::{
    AddressRequest, MemoryMap, RemapDestination, MMAP_BASE,
};
use libkernel::memory::proc_vm::vmarea::{
    AccessKind, VMAPermissions, VMArea, VMAreaKind, VMFileMapping,
};
use libkernel::memory::proc_vm::ProcessVM;
use libkernel::memory::region::VirtMemoryRegion;
use libkernel::memory::PAGE_SIZE;

/// Represents a single operation performed on the mock page table.
#[derive(Debug, PartialEq, Eq, Clone)]
pub enum MockPageTableOp {
    UnmapRange {
        region: VirtMemoryRegion,
    },
    ProtectRange {
        region: VirtMemoryRegion,
        perms: PtePermissions,
    },
}

pub struct MockAddressSpace {
    pub ops_log: Vec<MockPageTableOp>,
}

impl UserAddressSpace for MockAddressSpace {
    fn steps(&self) -> Record {
        unreachable!("Not called")
    }

    fn new() -> Result<Self> {
        Ok(Self {
            ops_log: Vec::new(),
        })
    }

    fn activate(&self) {
        unreachable!("Not called")
    }
    fn deactivate(&self) {
        unreachable!("Not called")
    }

    fn map_page(&mut self, _page: PageFrame, _va: VA, _perms: PtePermissions) -> Result<()> {
        panic!("Should be called by the demand-pager");
    }

    fn unmap(&mut self, va: VA) -> Result<PageFrame> {
        let region = VirtMemoryRegion::new(va, PAGE_SIZE);
        self.ops_log.push(MockPageTableOp::UnmapRange { region });
        // Return a dummy page, as the caller doesn't use it.
        Ok(PageFrame::from_pfn(0))
    }

    fn protect_range(&mut self, va_range: VirtMemoryRegion, perms: PtePermissions) -> Result<()> {
        self.ops_log.push(MockPageTableOp::ProtectRange {
                region: va_range,
                perms,
            });
        Ok(())
    }

    fn unmap_range(&mut self, va_range: VirtMemoryRegion) -> Result<Vec<PageFrame>> {
        self.ops_log.push(MockPageTableOp::UnmapRange { region: va_range });
        Ok(Vec::new())
    }

    fn translate(&mut self, _va: VA) -> Option<PageInfo> {
        None
    }

    fn protect_and_clone_region(
        &mut self,
        _region: VirtMemoryRegion,
        _other: &mut Self,
        _perms: PtePermissions,
    ) -> Result<()>
    where
        Self: Sized,
    {
        unreachable!("Not called")
    }

    fn remap(
        &mut self,
        _va: VA,
        _new_page: PageFrame,
        _perms: PtePermissions,
    ) -> Result<PageFrame> {
        unreachable!("Not called")
    }
}

// Helper to create a file.
fn new_inode() -> InodeHandle {
    InodeHandle::new(1)
}

// Creates a file-backed VMA for testing.
fn create_file_vma(
    start: usize,
    size: usize,
    perms: VMAPermissions,
    offset: u64,
    inode: InodeHandle,
) -> VMArea {
    VMArea::new(
        VirtMemoryRegion::new(VA::from_value(start), size),
        VMAreaKind::File(VMFileMapping {
            file: inode,
            offset,
            len: size as u64,
        }),
        perms,
    )
}

// Creates an anonymous VMA for testing.
fn create_anon_vma(start: usize, size: usize, perms: VMAPermissions) -> VMArea {
    VMArea::new(
        VirtMemoryRegion::new(VA::from_value(start), size),
        VMAreaKind::Anon,
        perms,
    )
}

/// Asserts that a VMA with the given properties exists.
fn assert_vma_exists(pvm: &MemoryMap<MockAddressSpace>, start: usize, size: usize) {
    let vma = pvm
        .find_vma(VA::from_value(start))
        .expect("VMA not found at start address");
    assert_eq!(
        vma.region.start_address().value(),
        start,
        "VMA start address mismatch"
    );
    assert_eq!(vma.region.size(), size, "VMA size mismatch");
}

fn assert_vma_perms(pvm: &MemoryMap<MockAddressSpace>, start: usize, perms: VMAPermissions) {
    let vma = pvm
        .find_vma(VA::from_value(start))
        .expect("VMA not found for permission check");
    assert_eq!(
        vma.permissions(),
        perms,
        "VMA permissions mismatch at {:#x}",
        start
    );
}

fn assert_ops_log_protect(
    pvm: &mut MemoryMap<MockAddressSpace>,
    expected_region: VirtMemoryRegion,
    expected_perms: VMAPermissions,
) {
    let log = &pvm.address_space_mut().ops_log;
    let found = log.iter().any(|op| match op {
        MockPageTableOp::ProtectRange { region, perms } => {
            *region == expected_region && *perms == expected_perms.into()
        }
        _ => false,
    });
    assert!(
        found,
        "Did not find ProtectRange op for {:?} with {:?}",
        expected_region, expected_perms
    );
}

#[test]
fn test_mmap_any_empty() {
    let mut pvm: MemoryMap<MockAddressSpace> = MemoryMap::new().unwrap();
    let size = 3 * PAGE_SIZE;
    let addr = pvm
        .mmap(
            AddressRequest::Any,
            size,
            VMAPermissions::rw(),
            VMAreaKind::Anon,
            String::new(),
        )
        .unwrap();

    assert_eq!(addr.value(), MMAP_BASE - size);
    assert_eq!(pvm.vma_count(), 1);
    assert_vma_exists(&pvm, MMAP_BASE - size, size);
    assert!(pvm.address_space_mut().ops_log.is_empty());
}

#[test]
fn test_mmap_any_with_existing() {
    let mut pvm: MemoryMap<MockAddressSpace> = MemoryMap::new().unwrap();
    let size = 2 * PAGE_SIZE;
    let existing_addr = MMAP_BASE - 5 * PAGE_SIZE;

    pvm.insert_and_merge(create_anon_vma(existing_addr, size, VMAPermissions::rw()));

    // This should find the gap above the existing VMA.
    let new_addr = pvm
        .mmap(
            AddressRequest::Any,
            size,
            VMAPermissions::ro(),
            VMAreaKind::Anon,
            String::new(),
        )
        .unwrap();

    assert_eq!(new_addr.value(), MMAP_BASE - size);
    assert_eq!(pvm.vma_count(), 2);

    // This should find the gap below the existing VMA.
    let bottom_addr = pvm
        .mmap(
            AddressRequest::Any,
            size,
            VMAPermissions::ro(), // different permissions to prevent merge.
            VMAreaKind::Anon,
            String::new(),
        )
        .unwrap();
    assert_eq!(bottom_addr.value(), existing_addr - size);
    assert_eq!(pvm.vma_count(), 3);

    assert_vma_exists(&pvm, existing_addr, 2 * PAGE_SIZE);
    assert_vma_exists(&pvm, MMAP_BASE - 2 * PAGE_SIZE, 2 * PAGE_SIZE);
    assert_vma_exists(&pvm, MMAP_BASE - 7 * PAGE_SIZE, 2 * PAGE_SIZE);
    assert!(pvm.address_space_mut().ops_log.is_empty());
}

#[test]
fn test_mmap_hint_free() {
    let mut pvm: MemoryMap<MockAddressSpace> = MemoryMap::new().unwrap();
    let size = PAGE_SIZE;
    let hint_addr = VA::from_value(MMAP_BASE - 10 * PAGE_SIZE);

    let addr = pvm
        .mmap(
            AddressRequest::Hint(hint_addr),
            size,
            VMAPermissions::rw(),
            VMAreaKind::Anon,
            String::new(),
        )
        .unwrap();

    assert_eq!(addr, hint_addr);
    assert_vma_exists(&pvm, hint_addr.value(), size);
    assert!(pvm.address_space_mut().ops_log.is_empty());
}

#[test]
fn test_mmap_hint_taken() {
    let mut pvm: MemoryMap<MockAddressSpace> = MemoryMap::new().unwrap();
    let size = 2 * PAGE_SIZE;
    let hint_addr = VA::from_value(MMAP_BASE - 10 * PAGE_SIZE);

    // Occupy the space where the hint is.
    pvm.insert_and_merge(create_anon_vma(
        hint_addr.value(),
        size,
        VMAPermissions::rw(),
    ));

    // The mmap should ignore the hint and find a new spot at the top.
    let new_addr = pvm
        .mmap(
            AddressRequest::Hint(hint_addr),
            size,
            VMAPermissions::rw(),
            VMAreaKind::Anon,
            String::new(),
        )
        .unwrap();

    assert_ne!(new_addr, hint_addr);
    assert_eq!(new_addr.value(), MMAP_BASE - size);
    assert_eq!(pvm.vma_count(), 2);
    assert!(pvm.address_space_mut().ops_log.is_empty());
}

#[test]
fn test_mmap_fixed_clobber_complete_overlap() {
    let mut pvm: MemoryMap<MockAddressSpace> = MemoryMap::new().unwrap();
    let addr = MMAP_BASE - 10 * PAGE_SIZE;

    // Old VMA, read-only
    pvm.insert_and_merge(create_anon_vma(addr, 3 * PAGE_SIZE, VMAPermissions::ro()));

    // New VMA, completely overwrites the old one
    let mapped_addr = pvm
        .mmap(
            AddressRequest::Fixed {
                address: VA::from_value(addr),
                permit_overlap: true,
            },
            3 * PAGE_SIZE,
            VMAPermissions::rw(),
            VMAreaKind::Anon,
            String::new(),
        )
        .unwrap();

    assert_eq!(mapped_addr.value(), addr);

    assert_eq!(pvm.vma_count(), 1);
    let vma = pvm.find_vma(VA::from_value(addr)).unwrap();
    assert!(vma.permissions().write); // Check it's the new VMA
    assert_vma_exists(&pvm, addr, 3 * PAGE_SIZE);
    assert_eq!(
        pvm.address_space_mut().ops_log,
        &[MockPageTableOp::ProtectRange {
            region: VirtMemoryRegion::new(VA::from_value(addr), 3 * PAGE_SIZE),
            perms: PtePermissions::rw(true)
        }]
    );
}

#[test]
fn test_mmap_fixed_clobber_partial_end() {
    let mut pvm: MemoryMap<MockAddressSpace> = MemoryMap::new().unwrap();
    let addr = MMAP_BASE - 10 * PAGE_SIZE;

    pvm.insert_and_merge(create_anon_vma(addr, 5 * PAGE_SIZE, VMAPermissions::ro()));

    // New VMA overwrites the end of the old one.
    let new_addr = addr + 3 * PAGE_SIZE;
    let new_size = 2 * PAGE_SIZE;
    pvm.mmap(
        AddressRequest::Fixed {
            address: VA::from_value(new_addr),
            permit_overlap: true,
        },
        new_size,
        VMAPermissions::rw(),
        VMAreaKind::Anon,
        String::new(),
    )
    .unwrap();

    assert_eq!(pvm.vma_count(), 2);
    assert_vma_exists(&pvm, addr, 3 * PAGE_SIZE); // Original is truncated
    assert_vma_exists(&pvm, new_addr, new_size); // New VMA exists
    assert_eq!(
        pvm.address_space_mut().ops_log,
        &[MockPageTableOp::ProtectRange {
            region: VirtMemoryRegion::new(VA::from_value(new_addr), 2 * PAGE_SIZE),
            perms: PtePermissions::rw(true),
        }]
    );
}

#[test]
fn test_mmap_fixed_clobber_partial_end_spill() {
    let mut pvm: MemoryMap<MockAddressSpace> = MemoryMap::new().unwrap();
    let addr = MMAP_BASE - 10 * PAGE_SIZE;

    pvm.insert_and_merge(create_anon_vma(addr, 5 * PAGE_SIZE, VMAPermissions::ro()));

    // New VMA overwrites the end of the old one.
    let new_addr = addr + 3 * PAGE_SIZE;
    let new_size = 4 * PAGE_SIZE;
    pvm.mmap(
        AddressRequest::Fixed {
            address: VA::from_value(new_addr),
            permit_overlap: true,
        },
        new_size,
        VMAPermissions::rw(),
        VMAreaKind::Anon,
        String::new(),
    )
    .unwrap();

    assert_eq!(pvm.vma_count(), 2);
    assert_vma_exists(&pvm, addr, 3 * PAGE_SIZE); // Original is truncated
    assert_vma_exists(&pvm, new_addr, new_size); // New VMA exists

    // Ensure protect region is just the overlapping region.
    assert_eq!(
        pvm.address_space_mut().ops_log,
        &[MockPageTableOp::ProtectRange {
            region: VirtMemoryRegion::new(VA::from_value(new_addr), 2 * PAGE_SIZE),
            perms: PtePermissions::rw(true),
        }]
    );
}

#[test]
fn test_mmap_fixed_no_clobber_fails() {
    let mut pvm: MemoryMap<MockAddressSpace> = MemoryMap::new().unwrap();
    let addr = MMAP_BASE - 10 * PAGE_SIZE;

    pvm.insert_and_merge(create_anon_vma(addr, 5 * PAGE_SIZE, VMAPermissions::ro()));

    let new_addr = addr + 3 * PAGE_SIZE;
    let new_size = 2 * PAGE_SIZE;
    assert!(
        pvm.mmap(
            AddressRequest::Fixed {
                address: VA::from_value(new_addr),
                permit_overlap: false,
            },
            new_size,
            VMAPermissions::rw(),
            VMAreaKind::Anon,
            String::new(),
        )
        .is_err()
    );
}

#[test]
fn test_mmap_fixed_clobber_punch_hole() {
    let mut pvm: MemoryMap<MockAddressSpace> = MemoryMap::new().unwrap();
    let addr = MMAP_BASE - 10 * PAGE_SIZE;

    // A large VMA
    pvm.insert_and_merge(create_anon_vma(addr, 10 * PAGE_SIZE, VMAPermissions::rw()));

    // A new VMA is mapped right in the middle.
    let new_addr = addr + 3 * PAGE_SIZE;
    let new_size = 4 * PAGE_SIZE;
    // Use different perms to prevent merging.
    pvm.mmap(
        AddressRequest::Fixed {
            address: VA::from_value(new_addr),
            permit_overlap: true,
        },
        new_size,
        VMAPermissions::ro(),
        VMAreaKind::Anon,
        String::new(),
    )
    .unwrap();

    assert_eq!(pvm.vma_count(), 3);
    // Left part of the original VMA
    assert_vma_exists(&pvm, addr, 3 * PAGE_SIZE);
    // The new VMA
    assert_vma_exists(&pvm, new_addr, new_size);
    // Right part of the original VMA
    assert_vma_exists(&pvm, new_addr + new_size, 3 * PAGE_SIZE);
    assert_eq!(
        pvm.address_space_mut().ops_log,
        &[MockPageTableOp::ProtectRange {
            region: VirtMemoryRegion::new(VA::from_value(new_addr), new_size),
            perms: PtePermissions::ro(true),
        }]
    );
}

#[test]
fn test_merge_with_previous_and_next() {
    let mut pvm: MemoryMap<MockAddressSpace> = MemoryMap::new().unwrap();
    let perms = VMAPermissions::rw();
    let addr1 = MMAP_BASE - 20 * PAGE_SIZE;
    let addr2 = addr1 + 5 * PAGE_SIZE;
    let addr3 = addr2 + 5 * PAGE_SIZE;

    pvm.insert_and_merge(create_anon_vma(addr1, 5 * PAGE_SIZE, perms));
    pvm.insert_and_merge(create_anon_vma(addr3, 5 * PAGE_SIZE, perms));

    assert_eq!(pvm.vma_count(), 2);

    // Insert the middle part, which should merge with both.
    pvm.insert_and_merge(create_anon_vma(addr2, 5 * PAGE_SIZE, perms));

    assert_eq!(pvm.vma_count(), 1);
    assert_vma_exists(&pvm, addr1, 15 * PAGE_SIZE);
    assert!(pvm.address_space_mut().ops_log.is_empty());
}

#[test]
fn test_merge_with_smaller_region() {
    let mut pvm: MemoryMap<MockAddressSpace> = MemoryMap::new().unwrap();
    let perms = VMAPermissions::rw();
    let addr = MMAP_BASE - 20 * PAGE_SIZE;

    pvm.insert_and_merge(create_anon_vma(addr, 5 * PAGE_SIZE, perms));
    pvm.insert_and_merge(create_anon_vma(addr + 5 * PAGE_SIZE, PAGE_SIZE, perms));

    assert_eq!(pvm.vma_count(), 1);
    assert_vma_exists(&pvm, addr, 6 * PAGE_SIZE);
}

#[test]
fn test_merge_with_same_sz_region() {
    let mut pvm: MemoryMap<MockAddressSpace> = MemoryMap::new().unwrap();
    let perms = VMAPermissions::rw();
    let addr = MMAP_BASE - 20 * PAGE_SIZE;

    pvm.insert_and_merge(create_anon_vma(addr, 5 * PAGE_SIZE, perms));
    pvm.insert_and_merge(create_anon_vma(addr + 5 * PAGE_SIZE, 5 * PAGE_SIZE, perms));

    assert_eq!(pvm.vma_count(), 1);
    assert_vma_exists(&pvm, addr, 10 * PAGE_SIZE);
}

#[test]
fn test_merge_with_larger_region() {
    let mut pvm: MemoryMap<MockAddressSpace> = MemoryMap::new().unwrap();
    let perms = VMAPermissions::rw();
    let addr = MMAP_BASE - 20 * PAGE_SIZE;

    pvm.insert_and_merge(create_anon_vma(addr, 5 * PAGE_SIZE, perms));
    pvm.insert_and_merge(create_anon_vma(addr + 5 * PAGE_SIZE, 10 * PAGE_SIZE, perms));

    assert_eq!(pvm.vma_count(), 1);
    assert_vma_exists(&pvm, addr, 15 * PAGE_SIZE);
}

#[test]
fn test_merge_file_backed_contiguous() {
    let mut pvm: MemoryMap<MockAddressSpace> = MemoryMap::new().unwrap();
    let perms = VMAPermissions::rw();
    let inode = new_inode();
    let addr1 = MMAP_BASE - 10 * PAGE_SIZE;
    let size1 = 2 * PAGE_SIZE;
    let offset1 = 0;

    let addr2 = addr1 + size1;
    let size2 = 3 * PAGE_SIZE;
    let offset2 = offset1 + size1 as u64;

    // Insert two contiguous, file-backed VMAs. They should merge.
    pvm.insert_and_merge(create_file_vma(
        addr1,
        size1,
        perms,
        offset1,
        inode,
    ));
    pvm.insert_and_merge(create_file_vma(
        addr2,
        size2,
        perms,
        offset2,
        inode,
    ));

    assert_eq!(pvm.vma_count(), 1);
    assert_vma_exists(&pvm, addr1, size1 + size2);
    let vma = pvm.find_vma(VA::from_value(addr1)).unwrap();
    match &vma.kind {
        VMAreaKind::File(fm) => assert_eq!(fm.offset, offset1),
        _ => panic!("Expected file-backed VMA"),
    }
    assert!(pvm.address_space_mut().ops_log.is_empty());
}

#[test]
fn test_no_merge_file_backed_non_contiguous() {
    let mut pvm: MemoryMap<MockAddressSpace> = MemoryMap::new().unwrap();
    let perms = VMAPermissions::rw();
    let inode = new_inode();
    let addr1 = MMAP_BASE - 10 * PAGE_SIZE;
    let size1 = 2 * PAGE_SIZE;
    let offset1 = 0;

    let addr2 = addr1 + size1;
    let size2 = 3 * PAGE_SIZE;
    let offset2 = offset1 + size1 as u64 + 123; // Non-contiguous offset!

    pvm.insert_and_merge(create_file_vma(
        addr1,
        size1,
        perms,
        offset1,
        inode,
    ));
    pvm.insert_and_merge(create_file_vma(
        addr2,
        size2,
        perms,
        offset2,
        inode,
    ));

    assert_eq!(pvm.vma_count(), 2); // Should not merge
    assert_vma_exists(&pvm, addr1, size1);
    assert_vma_exists(&pvm, addr2, size2);
    assert!(pvm.address_space_mut().ops_log.is_empty());
}

#[test]
fn test_munmap_full_vma() {
    let mut pvm: MemoryMap<MockAddressSpace> = MemoryMap::new().unwrap();
    let addr = MMAP_BASE - 10 * PAGE_SIZE;
    let size = 5 * PAGE_SIZE;
    let region = VirtMemoryRegion::new(VA::from_value(addr), size);
    pvm.insert_and_merge(create_anon_vma(addr, size, VMAPermissions::rw()));

    assert_eq!(pvm.vma_count(), 1);
    pvm.munmap(region).unwrap();
    assert!(pvm.iter_vmas().is_empty());
    assert_eq!(
        pvm.address_space_mut().ops_log,
        &[MockPageTableOp::UnmapRange { region: region }]
    );
}

#[test]
fn test_munmap_truncate_start() {
    let mut pvm: MemoryMap<MockAddressSpace> = MemoryMap::new().unwrap();
    let addr = MMAP_BASE - 10 * PAGE_SIZE;
    let size = 5 * PAGE_SIZE;
    pvm.insert_and_merge(create_anon_vma(addr, size, VMAPermissions::rw()));

    let unmap_size = 2 * PAGE_SIZE;

    let region = VirtMemoryRegion::new(VA::from_value(addr), unmap_size);
    pvm.munmap(region).unwrap();

    assert_eq!(pvm.vma_count(), 1);
    let new_start = addr + unmap_size;
    let new_size = size - unmap_size;
    assert_vma_exists(&pvm, new_start, new_size);
    assert_eq!(
        pvm.address_space_mut().ops_log,
        &[MockPageTableOp::UnmapRange { region: region }]
    );
}

#[test]
fn test_munmap_truncate_end() {
    let mut pvm: MemoryMap<MockAddressSpace> = MemoryMap::new().unwrap();
    let addr = MMAP_BASE - 10 * PAGE_SIZE;
    let size = 5 * PAGE_SIZE;
    pvm.insert_and_merge(create_anon_vma(addr, size, VMAPermissions::rw()));

    // Unmap the last two pages
    let unmap_size = 2 * PAGE_SIZE;
    let region = VirtMemoryRegion::new(VA::from_value(addr + (size - unmap_size)), unmap_size);
    pvm.munmap(region).unwrap();

    assert_eq!(pvm.vma_count(), 1);
    let new_size = size - unmap_size;
    assert_vma_exists(&pvm, addr, new_size);
    assert_eq!(
        pvm.address_space_mut().ops_log,
        &[MockPageTableOp::UnmapRange { region: region }]
    );
}

#[test]
fn test_munmap_punch_hole() {
    let mut pvm: MemoryMap<MockAddressSpace> = MemoryMap::new().unwrap();
    let addr = MMAP_BASE - 10 * PAGE_SIZE;
    let size = 10 * PAGE_SIZE;
    pvm.insert_and_merge(create_anon_vma(addr, size, VMAPermissions::rw()));

    // Unmap a 4-page hole in the middle
    let unmap_start = addr + 3 * PAGE_SIZE;
    let unmap_size = 4 * PAGE_SIZE;
    let region = VirtMemoryRegion::new(VA::from_value(unmap_start), unmap_size);
    pvm.munmap(region).unwrap();

    assert_eq!(pvm.vma_count(), 2);
    // Left part
    assert_vma_exists(&pvm, addr, 3 * PAGE_SIZE);
    // Right part
    let right_start = unmap_start + unmap_size;
    let right_size = 3 * PAGE_SIZE;
    assert_vma_exists(&pvm, right_start, right_size);
    assert_eq!(
        pvm.address_space_mut().ops_log,
        &[MockPageTableOp::UnmapRange { region: region }]
    );
}

#[test]
fn test_munmap_over_multiple_vmas() {
    let mut pvm: MemoryMap<MockAddressSpace> = MemoryMap::new().unwrap();
    let addr1 = MMAP_BASE - 20 * PAGE_SIZE;
    let addr2 = addr1 + 5 * PAGE_SIZE;
    let addr3 = addr2 + 5 * PAGE_SIZE;

    pvm.insert_and_merge(create_anon_vma(addr1, 3 * PAGE_SIZE, VMAPermissions::rw()));
    pvm.insert_and_merge(create_anon_vma(addr2, 3 * PAGE_SIZE, VMAPermissions::rw()));
    pvm.insert_and_merge(create_anon_vma(addr3, 3 * PAGE_SIZE, VMAPermissions::rw()));
    assert_eq!(pvm.vma_count(), 3);

    // Unmap from the middle of the first VMA to the middle of the last one.
    let unmap_start = addr1 + PAGE_SIZE;
    let unmap_end = addr3 + 2 * PAGE_SIZE;
    let unmap_len = unmap_end - unmap_start;
    let region = VirtMemoryRegion::new(VA::from_value(unmap_start), unmap_len);

    pvm.munmap(region).unwrap();
    assert_eq!(pvm.vma_count(), 2);

    // First VMA is truncated at the end
    assert_vma_exists(&pvm, addr1, PAGE_SIZE);
    // Last VMA is truncated at the start
    assert_vma_exists(&pvm, unmap_end, PAGE_SIZE);
    assert_eq!(
        pvm.address_space_mut().ops_log,
        &[
            MockPageTableOp::UnmapRange {
                region: VirtMemoryRegion::new(VA::from_value(addr1 + PAGE_SIZE), 2 * PAGE_SIZE)
            },
            MockPageTableOp::UnmapRange {
                region: VirtMemoryRegion::new(VA::from_value(addr2), 3 * PAGE_SIZE)
            },
            MockPageTableOp::UnmapRange {
                region: VirtMemoryRegion::new(VA::from_value(addr3), 2 * PAGE_SIZE)
            },
        ]
    );
}

#[test]
fn mprotect_full_vma() {
    let mut pvm: MemoryMap<MockAddressSpace> = MemoryMap::new().unwrap();
    let start = MMAP_BASE - 4 * PAGE_SIZE;
    let size = 4 * PAGE_SIZE;

    pvm.insert_and_merge(create_anon_vma(start, size, VMAPermissions::rw()));

    // Protect entire region to RO
    let region = VirtMemoryRegion::new(VA::from_value(start), size);
    pvm.mprotect(region, VMAPermissions::ro()).unwrap();

    assert_eq!(pvm.vma_count(), 1); // Should still be 1 VMA
    assert_vma_exists(&pvm, start, size);
    assert_vma_perms(&pvm, start, VMAPermissions::ro());
    assert_ops_log_protect(&mut pvm, region, VMAPermissions::ro());
}

#[test]
fn test_mprotect_split_middle() {
    let mut pvm: MemoryMap<MockAddressSpace> = MemoryMap::new().unwrap();
    let start = 0x10000;
    let size = 3 * PAGE_SIZE; // [0x10000, 0x11000, 0x12000]

    pvm.insert_and_merge(create_anon_vma(start, size, VMAPermissions::rw()));

    let protect_start = start + PAGE_SIZE;
    let protect_len = PAGE_SIZE;
    let region = VirtMemoryRegion::new(VA::from_value(protect_start), protect_len);

    pvm.mprotect(region, VMAPermissions::ro()).unwrap();

    // Should now be 3 VMAs: RW - RO - RW
    assert_eq!(pvm.vma_count(), 3);

    // Left
    assert_vma_exists(&pvm, start, PAGE_SIZE);
    assert_vma_perms(&pvm, start, VMAPermissions::rw());

    // Middle
    assert_vma_exists(&pvm, protect_start, PAGE_SIZE);
    assert_vma_perms(&pvm, protect_start, VMAPermissions::ro());

    // Right
    assert_vma_exists(&pvm, start + 2 * PAGE_SIZE, PAGE_SIZE);
    assert_vma_perms(&pvm, start + 2 * PAGE_SIZE, VMAPermissions::rw());

    assert_ops_log_protect(&mut pvm, region, VMAPermissions::ro());
}

#[test]
fn test_mprotect_split_start() {
    let mut pvm: MemoryMap<MockAddressSpace> = MemoryMap::new().unwrap();
    let start = 0x20000;
    let size = 2 * PAGE_SIZE;

    pvm.insert_and_merge(create_anon_vma(start, size, VMAPermissions::rw()));

    let region = VirtMemoryRegion::new(VA::from_value(start), PAGE_SIZE);
    pvm.mprotect(region, VMAPermissions::ro()).unwrap();

    // Should be 2 VMAs: RO - RW
    assert_eq!(pvm.vma_count(), 2);

    assert_vma_exists(&pvm, start, PAGE_SIZE);
    assert_vma_perms(&pvm, start, VMAPermissions::ro());

    assert_vma_exists(&pvm, start + PAGE_SIZE, PAGE_SIZE);
    assert_vma_perms(&pvm, start + PAGE_SIZE, VMAPermissions::rw());

    assert_ops_log_protect(&mut pvm, region, VMAPermissions::ro());
}

#[test]
fn test_mprotect_split_end() {
    let mut pvm: MemoryMap<MockAddressSpace> = MemoryMap::new().unwrap();
    let start = 0x30000;
    let size = 2 * PAGE_SIZE;

    pvm.insert_and_merge(create_anon_vma(start, size, VMAPermissions::rw()));

    let region = VirtMemoryRegion::new(VA::from_value(start + PAGE_SIZE), PAGE_SIZE);
    pvm.mprotect(region, VMAPermissions::ro()).unwrap();

    // Should be 2 VMAs: RW - RO
    assert_eq!(pvm.vma_count(), 2);

    assert_vma_exists(&pvm, start, PAGE_SIZE);
    assert_vma_perms(&pvm, start, VMAPermissions::rw());

    assert_vma_exists(&pvm, start + PAGE_SIZE, PAGE_SIZE);
    assert_vma_perms(&pvm, start + PAGE_SIZE, VMAPermissions::ro());

    assert_ops_log_protect(&mut pvm, region, VMAPermissions::ro());
}

#[test]
fn test_mprotect_file_backed_split() {
    let mut pvm: MemoryMap<MockAddressSpace> = MemoryMap::new().unwrap();
    let start = 0x40000;
    let size = 3 * PAGE_SIZE;
    let file_offset = 0x1000;
    let inode = new_inode();

    // VMA: [0x40000 - 0x43000), File Offset: 0x1000
    pvm.insert_and_merge(create_file_vma(
        start,
        size,
        VMAPermissions::rw(),
        file_offset,
        inode,
    ));

    // Protect Middle Page [0x41000 - 0x42000)
    let region = VirtMemoryRegion::new(VA::from_value(start + PAGE_SIZE), PAGE_SIZE);
    pvm.mprotect(region, VMAPermissions::ro()).unwrap();

    // Left VMA: 0x40000, Len 0x1000, Offset 0x1000
    let left = pvm.find_vma(VA::from_value(start)).unwrap();
    if let VMAreaKind::File(f) = &left.kind {
        assert_eq!(f.offset, 0x1000);
        assert_eq!(f.len, PAGE_SIZE as u64);
    } else {
        panic!("Left VMA lost file backing");
    }

    // Middle VMA: 0x41000, Len 0x1000, Offset 0x2000 (0x1000 + 0x1000)
    let middle = pvm.find_vma(VA::from_value(start + PAGE_SIZE)).unwrap();
    assert_eq!(middle.permissions(), VMAPermissions::ro());
    if let VMAreaKind::File(f) = &middle.kind {
        assert_eq!(f.offset, 0x2000);
        assert_eq!(f.len, PAGE_SIZE as u64);
    } else {
        panic!("Middle VMA lost file backing");
    }

    // Right VMA: 0x42000, Len 0x1000, Offset 0x3000 (0x1000 + 0x2000)
    let right = pvm.find_vma(VA::from_value(start + 2 * PAGE_SIZE)).unwrap();
    if let VMAreaKind::File(f) = &right.kind {
        assert_eq!(f.offset, 0x3000);
        assert_eq!(f.len, PAGE_SIZE as u64);
    } else {
        panic!("Right VMA lost file backing");
    }

    assert_ops_log_protect(&mut pvm, region, VMAPermissions::ro());
}

#[test]
fn test_mprotect_merge_restoration() {
    // Ensures that if we split permissions, then restore them, the VMAs
    // merge back together.
    let mut pvm: MemoryMap<MockAddressSpace> = MemoryMap::new().unwrap();
    let start = 0x50000;
    let size = 2 * PAGE_SIZE;

    pvm.insert_and_merge(create_anon_vma(start, size, VMAPermissions::rw()));

    // Split.
    let region1 = VirtMemoryRegion::new(VA::from_value(start), PAGE_SIZE);
    pvm.mprotect(region1, VMAPermissions::ro()).unwrap();
    assert_eq!(pvm.vma_count(), 2);

    // Restore back to RW
    pvm.mprotect(region1, VMAPermissions::rw()).unwrap();

    // 3. Should merge back to 1 VMA
    assert_eq!(
        pvm.vma_count(),
        1,
        "VMAs failed to merge back after permissions restored"
    );
    assert_vma_exists(&pvm, start, size);
    assert_vma_perms(&pvm, start, VMAPermissions::rw());
}

fn setup_vm() -> ProcessVM<MockAddressSpace> {
    let text_vma = VMArea {
        region: VirtMemoryRegion::new(VA::from_value(0x1000), PAGE_SIZE),
        kind: VMAreaKind::Anon, // Simplification for test
        permissions: VMAPermissions::rx(),
        name: String::new(),
    };

    ProcessVM::from_vma(text_vma).unwrap()
}

#[test]
fn test_initial_state() {
    // Given: a newly created ProcessVM
    let mut vm = setup_vm();

    let initial_brk_start = VA::from_value(0x1000 + PAGE_SIZE);
    assert_eq!(vm.brk_region().start_address(), initial_brk_start);
    assert_eq!(vm.brk_region().size(), 0);
    assert_eq!(vm.current_brk(), initial_brk_start);

    // And the break region itself should not be mapped
    assert!(vm.mm_mut().find_vma(initial_brk_start).is_none());
}

#[test]
fn test_brk_first_growth() {
    // Given: a VM with a zero-sized heap
    let mut vm = setup_vm();
    let initial_brk_start = vm.brk_region().start_address();
    let brk_addr = initial_brk_start.add_bytes(1);

    let new_brk = vm.resize_brk(brk_addr).unwrap();

    // The new break should be page-aligned
    let expected_brk_end = brk_addr.align_up(PAGE_SIZE);
    assert_eq!(new_brk, brk_addr);
    assert_eq!(vm.current_brk(), expected_brk_end);
    assert_eq!(vm.brk_region().size(), PAGE_SIZE);

    // And a new VMA for the heap should now exist with RW permissions
    let heap_vma = vm.mm_mut().find_vma(initial_brk_start)
        .expect("Heap VMA should exist");
    assert_eq!(heap_vma.region.start_address(), initial_brk_start);
    assert_eq!(heap_vma.region.end_address(), expected_brk_end);
    assert_eq!(heap_vma.permissions, VMAPermissions::rw());
}

#[test]
fn test_brk_subsequent_growth() {
    // Given: a VM with an existing heap
    let mut vm = setup_vm();
    let initial_brk_start = vm.brk_region().start_address();
    vm.resize_brk(initial_brk_start.add_bytes(1)).unwrap(); // First growth
    assert_eq!(vm.brk_region().size(), PAGE_SIZE);

    // When: we grow the break again
    let current = vm.current_brk();
    let new_brk = vm.resize_brk(current.add_pages(1)).unwrap();

    // Then: the break should be extended
    let expected_brk_end = initial_brk_start.add_pages(2);
    assert_eq!(new_brk, expected_brk_end);
    assert_eq!(vm.current_brk(), expected_brk_end);
    assert_eq!(vm.brk_region().size(), 2 * PAGE_SIZE);

    // And the single heap VMA should be larger, not a new one
    let heap_vma = vm.mm_mut().find_vma(initial_brk_start).unwrap();
    assert_eq!(heap_vma.region.end_address(), expected_brk_end);
    assert_eq!(vm.mm_mut().vma_count(), 2); // Text VMA + one Heap VMA
}

#[test]
fn test_brk_shrink() {
    // Given: a VM with a 3-page heap
    let mut vm = setup_vm();
    let initial_brk_start = vm.brk_region().start_address();
    vm.resize_brk(initial_brk_start.add_pages(3)).unwrap();
    assert_eq!(vm.brk_region().size(), 3 * PAGE_SIZE);

    // When: we shrink the break by one page
    let new_brk_addr = initial_brk_start.add_pages(2);
    let new_brk = vm.resize_brk(new_brk_addr).unwrap();

    // Then: the break should be updated
    assert_eq!(new_brk, new_brk_addr);
    assert_eq!(vm.current_brk(), new_brk_addr);
    assert_eq!(vm.brk_region().size(), 2 * PAGE_SIZE);

    // And the memory for the shrunken page should now be unmapped
    assert!(vm.mm_mut().find_vma(new_brk_addr.add_bytes(1)).is_none());
    // But the remaining heap should still be mapped
    assert!(vm.mm_mut().find_vma(initial_brk_start).is_some());
}

#[test]
fn test_brk_shrink_to_zero() {
    // Given: a VM with a 2-page heap
    let mut vm = setup_vm();
    let initial_brk_start = vm.brk_region().start_address();
    vm.resize_brk(initial_brk_start.add_pages(2)).unwrap();

    // When: we shrink the break all the way back to its start
    let new_brk = vm.resize_brk(initial_brk_start).unwrap();

    // Then: the break should be zero-sized again
    assert_eq!(new_brk, initial_brk_start);
    assert_eq!(vm.current_brk(), initial_brk_start);
    assert_eq!(vm.brk_region().size(), 0);

    // And the heap VMA should be completely gone
    assert!(vm.mm_mut().find_vma(initial_brk_start).is_none());
    assert_eq!(vm.mm_mut().vma_count(), 1); // Only the text VMA remains
}

#[test]
fn test_brk_no_op() {
    // Given: a VM with a 2-page heap
    let mut vm = setup_vm();
    let initial_brk_start = vm.brk_region().start_address();
    let current_brk_end = vm.resize_brk(initial_brk_start.add_pages(2)).unwrap();

    // When: we resize the break to its current end
    let new_brk = vm.resize_brk(current_brk_end).unwrap();

    // Then: nothing should change
    assert_eq!(new_brk, current_brk_end);
    assert_eq!(vm.brk_region().size(), 2 * PAGE_SIZE);
    assert_eq!(vm.mm_mut().vma_count(), 2);
}

#[test]
fn test_brk_invalid_shrink_below_start() {
    let mut vm = setup_vm();
    let initial_brk_start = vm.brk_region().start_address();
    vm.resize_brk(initial_brk_start.add_pages(1)).unwrap();
    let original_len = vm.brk_region().size();

    // We try to shrink the break below its starting point
    let result = vm.resize_brk(VA::from_value(initial_brk_start.value() - 1));

    // It should fail with an InvalidValue error
    assert!(matches!(result, Err(KernelError::InvalidValue)));

    // And the state of the break should not have changed
    assert_eq!(vm.brk_region().start_address(), initial_brk_start);
    assert_eq!(vm.brk_region().size(), original_len);
}

#[test]
fn test_brk_growth_collision() {
    // Given: a VM with another mapping right where the heap would grow
    let mut vm = setup_vm();
    let initial_brk_start = vm.brk_region().start_address();
    let obstacle_addr = initial_brk_start.add_pages(2);

    let obstacle_vma = VMArea {
        region: VirtMemoryRegion::new(obstacle_addr, PAGE_SIZE),
        kind: VMAreaKind::Anon,
        permissions: VMAPermissions::ro(),
        name: String::new(),
    };
    vm.mm_mut().insert_and_merge(obstacle_vma);
    assert_eq!(vm.mm_mut().vma_count(), 2);

    // When: we try to grow the break past the obstacle
    let result = vm.resize_brk(initial_brk_start.add_pages(3));

    // Then: the mmap should fail, resulting in an error
    // The specific error comes from the mmap implementation.
    assert!(matches!(result, Err(KernelError::InvalidValue)));

    // And the break should not have grown at all
    assert_eq!(vm.brk_region().size(), 0);
    assert_eq!(vm.current_brk(), initial_brk_start);
}

/// An address space with a page table, which can be told to fail.
struct PagedSpace {
    pages: std::collections::BTreeMap<usize, PageInfo>,
    fail_map_at: Option<usize>,
    fail_unmap: bool,
}

impl UserAddressSpace for PagedSpace {
    fn steps(&self) -> Record {
        unreachable!("Not called")
    }

    fn new() -> Result<Self> {
        Ok(PagedSpace {
            pages: std::collections::BTreeMap::new(),
            fail_map_at: None,
            fail_unmap: false,
        })
    }

    fn activate(&self) {}

    fn deactivate(&self) {}

    fn map_page(&mut self, page: PageFrame, va: VA, perms: PtePermissions) -> Result<()> {
        if self.fail_map_at == Some(va.value()) {
            return Err(KernelError::NoMemory);
        }
        self.pages.insert(va.value(), PageInfo { pfn: page, perms });
        Ok(())
    }

    fn unmap(&mut self, va: VA) -> Result<PageFrame> {
        match self.pages.remove(&va.value()) {
            Some(info) => Ok(info.pfn),
            None => Err(KernelError::Fault),
        }
    }

    fn remap(&mut self, va: VA, new_page: PageFrame, perms: PtePermissions) -> Result<PageFrame> {
        let old = self.unmap(va)?;
        self.map_page(new_page, va, perms)?;
        Ok(old)
    }

    fn protect_range(&mut self, va_range: VirtMemoryRegion, perms: PtePermissions) -> Result<()> {
        for page in va_range.iter_pages() {
            if let Some(info) = self.pages.get_mut(&page.value()) {
                info.perms = perms;
            }
        }
        Ok(())
    }

    fn unmap_range(&mut self, va_range: VirtMemoryRegion) -> Result<Vec<PageFrame>> {
        if self.fail_unmap {
            return Err(KernelError::Fault);
        }
        let mut freed = Vec::new();
        for page in va_range.iter_pages() {
            if let Some(info) = self.pages.remove(&page.value()) {
                freed.push(info.pfn);
            }
        }
        Ok(freed)
    }

    fn translate(&mut self, va: VA) -> Option<PageInfo> {
        self.pages.get(&va.value()).copied()
    }

    fn protect_and_clone_region(
        &mut self,
        region: VirtMemoryRegion,
        other: &mut Self,
        perms: PtePermissions,
    ) -> Result<()> {
        for page in region.iter_pages() {
            if let Some(info) = self.pages.get_mut(&page.value()) {
                info.perms = perms;
                other.pages.insert(page.value(), *info);
            }
        }
        Ok(())
    }
}

const MAPPED: usize = 0x10_0000;

/// A map with four writable pages at `MAPPED`, of which the first and the third are
/// mapped.
fn paged_map() -> MemoryMap<PagedSpace> {
    let mut map: MemoryMap<PagedSpace> = MemoryMap::new().unwrap();
    map.insert_and_merge(create_anon_map_vma(MAPPED, 4));
    let perms = PtePermissions::rw(true);
    let space = map.address_space_mut();
    space
        .map_page(PageFrame::from_pfn(70), VA::from_value(MAPPED), perms)
        .unwrap();
    space
        .map_page(
            PageFrame::from_pfn(72),
            VA::from_value(MAPPED + 2 * PAGE_SIZE),
            perms,
        )
        .unwrap();
    map
}

fn create_anon_map_vma(start: usize, pages: usize) -> VMArea {
    create_anon_vma(start, pages * PAGE_SIZE, VMAPermissions::rw())
}

fn frames_at(map: &mut MemoryMap<PagedSpace>) -> Vec<(usize, usize)> {
    map.address_space_mut()
        .pages
        .iter()
        .map(|(va, info)| (*va, info.pfn.value()))
        .collect()
}

fn areas(map: &MemoryMap<PagedSpace>) -> Vec<(usize, usize)> {
    map.iter_vmas()
        .iter()
        .map(|vma| (vma.region.start_address().value(), vma.region.size() / PAGE_SIZE))
        .collect()
}

#[test]
fn mremap_moves_mapped_pages() {
    let mut map = paged_map();
    let target = 0x80_0000;
    let r = map.mremap(
        VA::from_value(MAPPED),
        4 * PAGE_SIZE,
        3 * PAGE_SIZE,
        RemapDestination::Fixed(VA::from_value(target)),
    );
    // The fourth page was not mapped, so no frame is left over.
    assert_eq!(r, Ok((VA::from_value(target), vec![])));
    assert_eq!(areas(&map), [(target, 3)]);
    assert_eq!(
        frames_at(&mut map),
        [(target, 70), (target + 2 * PAGE_SIZE, 72)]
    );
}

#[test]
fn mremap_gives_the_frames_that_do_not_fit() {
    let mut map = paged_map();
    let target = 0x80_0000;
    let r = map.mremap(
        VA::from_value(MAPPED),
        4 * PAGE_SIZE,
        2 * PAGE_SIZE,
        RemapDestination::Fixed(VA::from_value(target)),
    );
    assert_eq!(r, Ok((VA::from_value(target), vec![PageFrame::from_pfn(72)])));
    assert_eq!(frames_at(&mut map), [(target, 70)]);
}

#[test]
fn failed_move_is_undone() {
    let mut map = paged_map();
    let target = 0x80_0000;
    map.address_space_mut().fail_map_at = Some(target + 2 * PAGE_SIZE);
    let r = map.mremap(
        VA::from_value(MAPPED),
        4 * PAGE_SIZE,
        4 * PAGE_SIZE,
        RemapDestination::Fixed(VA::from_value(target)),
    );
    assert_eq!(r, Err(KernelError::NoMemory));
    assert_eq!(areas(&map), [(MAPPED, 4)]);
    assert_eq!(
        frames_at(&mut map),
        [(MAPPED, 70), (MAPPED + 2 * PAGE_SIZE, 72)]
    );
}

#[test]
fn mremap_shrinks_and_grows_in_place() {
    let mut map = paged_map();
    let here = VA::from_value(MAPPED);
    let r = map.mremap(here, 4 * PAGE_SIZE, 2 * PAGE_SIZE, RemapDestination::InPlaceOnly);
    assert_eq!(r, Ok((here, vec![PageFrame::from_pfn(72)])));
    assert_eq!(areas(&map), [(MAPPED, 2)]);

    // Lengths are rounded up to whole pages.
    let r = map.mremap(here, 2 * PAGE_SIZE, 2 * PAGE_SIZE + 1, RemapDestination::InPlaceOnly);
    assert_eq!(r, Ok((here, vec![])));
    assert_eq!(areas(&map), [(MAPPED, 3)]);
    let r = map.mremap(here, 3 * PAGE_SIZE, 3 * PAGE_SIZE, RemapDestination::MayMove);
    assert_eq!(r, Ok((here, vec![])));

    // Another mapping is in the way.
    map.insert_and_merge(create_anon_vma(
        MAPPED + 3 * PAGE_SIZE,
        PAGE_SIZE,
        VMAPermissions::ro(),
    ));
    let r = map.mremap(here, 3 * PAGE_SIZE, 4 * PAGE_SIZE, RemapDestination::InPlaceOnly);
    assert_eq!(r, Err(KernelError::NoMemory));
    let r = map.mremap(here, 3 * PAGE_SIZE, 4 * PAGE_SIZE, RemapDestination::MayMove);
    let moved = VA::from_value(MMAP_BASE - 4 * PAGE_SIZE);
    assert_eq!(r, Ok((moved, vec![])));
    assert_eq!(
        areas(&map),
        [(MAPPED + 3 * PAGE_SIZE, 1), (moved.value(), 4)]
    );
}

#[test]
fn mremap_refuses_bad_requests() {
    let mut map = paged_map();
    let here = VA::from_value(MAPPED);
    let any = RemapDestination::MayMove;
    let page = PAGE_SIZE;
    assert_eq!(map.mremap(VA::from_value(MAPPED + 1), page, page, any), Err(KernelError::InvalidValue));
    assert_eq!(map.mremap(here, 0, page, any), Err(KernelError::InvalidValue));
    assert_eq!(map.mremap(here, page, 0, any), Err(KernelError::InvalidValue));
    assert_eq!(map.mremap(VA::from_value(0x1000), page, page, any), Err(KernelError::Fault));
    assert_eq!(map.mremap(here, 5 * page, page, any), Err(KernelError::Fault));
    let unaligned = RemapDestination::Fixed(VA::from_value(0x80_0001));
    assert_eq!(map.mremap(here, page, page, unaligned), Err(KernelError::InvalidValue));
    let overlapping = RemapDestination::Fixed(VA::from_value(MAPPED + page));
    assert_eq!(map.mremap(here, page, page, overlapping), Err(KernelError::InvalidValue));
}

#[test]
fn failing_address_space_is_reported() {
    let mut map = paged_map();
    map.address_space_mut().fail_unmap = true;
    let part = VirtMemoryRegion::new(VA::from_value(MAPPED), PAGE_SIZE);
    assert_eq!(map.munmap(part), Err(KernelError::Fault));
    let r = map.mremap(
        VA::from_value(MAPPED),
        4 * PAGE_SIZE,
        PAGE_SIZE,
        RemapDestination::InPlaceOnly,
    );
    assert_eq!(r, Err(KernelError::Fault));
}

#[test]
fn munmap_gives_the_frames() {
    let mut map = paged_map();
    // The end is rounded up to a whole page.
    let part = VirtMemoryRegion::new(VA::from_value(MAPPED + PAGE_SIZE), PAGE_SIZE + 1);
    assert_eq!(map.munmap(part), Ok(vec![PageFrame::from_pfn(72)]));
    assert_eq!(areas(&map), [(MAPPED, 1), (MAPPED + 3 * PAGE_SIZE, 1)]);
    let nothing = VirtMemoryRegion::new(VA::from_value(MAPPED), 0);
    assert_eq!(map.munmap(nothing), Err(KernelError::InvalidValue));
    let unaligned = VirtMemoryRegion::new(VA::from_value(MAPPED + 1), PAGE_SIZE);
    assert_eq!(map.munmap(unaligned), Err(KernelError::InvalidValue));
}

#[test]
fn fixed_mapping_requests_are_checked() {
    let mut map = paged_map();
    let request = |address: usize, permit_overlap: bool| AddressRequest::Fixed {
        address: VA::from_value(address),
        permit_overlap,
    };
    let mut mmap = |request: AddressRequest, len: usize| {
        map.mmap(request, len, VMAPermissions::rw(), VMAreaKind::Anon, String::new())
    };
    assert_eq!(mmap(AddressRequest::Any, 0), Err(KernelError::InvalidValue));
    assert_eq!(mmap(request(0x1001, true), PAGE_SIZE), Err(KernelError::InvalidValue));
    assert_eq!(mmap(request(MAPPED, false), PAGE_SIZE), Err(KernelError::InvalidValue));
    assert_eq!(mmap(request(MAPPED, true), PAGE_SIZE), Ok(VA::from_value(MAPPED)));
    // There is no gap of that size.
    assert_eq!(mmap(AddressRequest::Any, MMAP_BASE), Err(KernelError::NoMemory));
}

#[test]
fn clone_shares_pages_copy_on_write() {
    let mut map = paged_map();
    map.insert_and_merge(create_anon_vma(0x1000, PAGE_SIZE, VMAPermissions::rx()));
    map.address_space_mut()
        .map_page(
            PageFrame::from_pfn(1),
            VA::from_value(0x1000),
            PtePermissions::rx(true),
        )
        .unwrap();
    let mut copy = map.clone_as_cow().unwrap();
    assert_eq!(areas(&copy), areas(&map));
    assert_eq!(frames_at(&mut copy), frames_at(&mut map));
    for map in [&mut map, &mut copy] {
        let pages = &map.address_space_mut().pages;
        assert!(pages[&MAPPED].perms.is_cow());
        assert!(!pages[&MAPPED].perms.is_write());
        assert!(!pages[&0x1000].perms.is_cow());
        assert!(pages[&0x1000].perms.is_execute());
    }
}

#[test]
fn map_from_vmas_keeps_the_last_of_a_start() {
    let map: MemoryMap<PagedSpace> = MemoryMap::from_vmas(vec![
        create_anon_map_vma(0x5000, 1),
        create_anon_map_vma(0x1000, 1),
        create_anon_map_vma(0x5000, 2),
    ])
    .unwrap();
    assert_eq!(areas(&map), [(0x1000, 1), (0x5000, 2)]);
}

#[test]
fn faults_are_checked_against_the_vma() {
    let text = create_anon_vma(0x1000, PAGE_SIZE, VMAPermissions::rx());
    let vm: ProcessVM<PagedSpace> = ProcessVM::from_vma(text).unwrap();
    let addr = VA::from_value(0x1800);
    assert!(vm.find_vma_for_fault(addr, AccessKind::Read).is_some());
    assert!(vm.find_vma_for_fault(addr, AccessKind::Execute).is_some());
    assert!(vm.find_vma_for_fault(addr, AccessKind::Write).is_none());
    let outside = VA::from_value(0x2000);
    assert!(vm.find_vma_for_fault(outside, AccessKind::Read).is_none());
}

#[test]
fn heap_follows_the_last_mapping() {
    let map: MemoryMap<PagedSpace> = MemoryMap::from_vmas(vec![
        create_anon_map_vma(0x5000, 2),
        create_anon_map_vma(0x1000, 1),
    ])
    .unwrap();
    let mut vm = ProcessVM::from_map(map);
    assert_eq!(vm.current_brk().value(), 0x7000);
    assert_eq!(vm.resize_brk(VA::from_value(0x7001)), Ok(VA::from_value(0x7001)));
    let copy = vm.clone_as_cow().unwrap();
    assert_eq!(copy.brk_region(), vm.brk_region());

    let empty: ProcessVM<PagedSpace> = ProcessVM::empty().unwrap();
    assert_eq!(empty.current_brk().value(), 0);
    let space = PagedSpace::new().unwrap();
    let vm = ProcessVM::from_vma_and_address_space(create_anon_map_vma(0x3000, 1), space);
    assert_eq!(vm.current_brk().value(), 0x4000);
}

/// An address space of which no other can be created.
struct LastSpace;

impl UserAddressSpace for LastSpace {
    fn steps(&self) -> Record {
        unreachable!("Not called")
    }

    fn new() -> Result<Self> {
        Err(KernelError::NoMemory)
    }

    fn activate(&self) {}

    fn deactivate(&self) {}

    fn map_page(&mut self, _page: PageFrame, _va: VA, _perms: PtePermissions) -> Result<()> {
        Err(KernelError::Fault)
    }

    fn unmap(&mut self, _va: VA) -> Result<PageFrame> {
        Err(KernelError::Fault)
    }

    fn remap(&mut self, _va: VA, _page: PageFrame, _perms: PtePermissions) -> Result<PageFrame> {
        Err(KernelError::Fault)
    }

    fn protect_range(&mut self, _range: VirtMemoryRegion, _perms: PtePermissions) -> Result<()> {
        Err(KernelError::Fault)
    }

    fn unmap_range(&mut self, _range: VirtMemoryRegion) -> Result<Vec<PageFrame>> {
        Err(KernelError::Fault)
    }

    fn translate(&mut self, _va: VA) -> Option<PageInfo> {
        None
    }

    fn protect_and_clone_region(
        &mut self,
        _region: VirtMemoryRegion,
        _other: &mut Self,
        _perms: PtePermissions,
    ) -> Result<()> {
        Err(KernelError::Fault)
    }
}

#[test]
fn failure_to_create_an_address_space_is_passed_on() {
    let vma = create_anon_map_vma(0x3000, 1);
    let failure = Some(KernelError::NoMemory);
    assert_eq!(MemoryMap::<LastSpace>::new().err(), failure);
    assert_eq!(MemoryMap::<LastSpace>::from_vmas(vec![vma.clone()]).err(), failure);
    assert_eq!(ProcessVM::<LastSpace>::from_vma(vma.clone()).err(), failure);
    assert_eq!(ProcessVM::<LastSpace>::empty().err(), failure);

    let mut vm = ProcessVM::from_vma_and_address_space(vma, LastSpace);
    assert_eq!(vm.clone_as_cow().err(), failure);
    assert_eq!(vm.mm_mut().clone_as_cow().err(), failure);
    assert_eq!(vm.mm_mut().vma_count(), 1);
}

#[test]
fn mappings_above_the_base_do_not_raise_the_search() {
    let mut pvm: MemoryMap<MockAddressSpace> = MemoryMap::new().unwrap();
    pvm.insert_and_merge(create_anon_vma(
        MMAP_BASE + 4 * PAGE_SIZE,
        PAGE_SIZE,
        VMAPermissions::rw(),
    ));
    let address = pvm
        .mmap(
            AddressRequest::Any,
            PAGE_SIZE,
            VMAPermissions::ro(),
            VMAreaKind::Anon,
            String::new(),
        )
        .unwrap();
    assert_eq!(address.value(), 0x3FFF_FFFF_F000);

    // A mapping that reaches over the base is in the way as far as it lies below.
    let mut pvm: MemoryMap<MockAddressSpace> = MemoryMap::new().unwrap();
    pvm.insert_and_merge(create_anon_vma(
        MMAP_BASE - PAGE_SIZE,
        3 * PAGE_SIZE,
        VMAPermissions::rw(),
    ));
    let address = pvm
        .mmap(
            AddressRequest::Any,
            PAGE_SIZE,
            VMAPermissions::ro(),
            VMAreaKind::Anon,
            String::new(),
        )
        .unwrap();
    assert_eq!(address.value(), MMAP_BASE - 2 * PAGE_SIZE);
}

/// Offset and length in the file of the mapping at the address.
fn file_part(pvm: &MemoryMap<MockAddressSpace>, address: usize) -> (u64, u64) {
    match &pvm.find_vma(VA::from_value(address)).unwrap().kind {
        VMAreaKind::File(f) => (f.offset, f.len),
        _ => panic!("Expected file-backed VMA"),
    }
}

#[test]
fn unmapping_a_hole_keeps_the_file_offsets() {
    let mut pvm: MemoryMap<MockAddressSpace> = MemoryMap::new().unwrap();
    let start = 0x40000;
    pvm.insert_and_merge(create_file_vma(
        start,
        4 * PAGE_SIZE,
        VMAPermissions::rw(),
        0x1000,
        new_inode(),
    ));
    pvm.munmap(VirtMemoryRegion::new(VA::from_value(start + PAGE_SIZE), PAGE_SIZE))
        .unwrap();
    assert_eq!(file_part(&pvm, start), (0x1000, 0x1000));
    assert_eq!(file_part(&pvm, start + 2 * PAGE_SIZE), (0x3000, 0x2000));
}

#[test]
fn merged_file_mappings_cover_both_parts() {
    let mut pvm: MemoryMap<MockAddressSpace> = MemoryMap::new().unwrap();
    let start = 0x40000;
    for page in 0..3 {
        pvm.insert_and_merge(create_file_vma(
            start + page * PAGE_SIZE,
            PAGE_SIZE,
            VMAPermissions::rw(),
            (page * PAGE_SIZE) as u64,
            new_inode(),
        ));
    }
    assert_eq!(pvm.vma_count(), 1);
    assert_eq!(file_part(&pvm, start), (0, 0x3000));
}

#[test]
fn mprotect_beyond_a_vma_drops_it() {
    let mut pvm: MemoryMap<MockAddressSpace> = MemoryMap::new().unwrap();
    let start = 0x40000;
    let other = start + 8 * PAGE_SIZE;
    pvm.insert_and_merge(create_anon_vma(start, 2 * PAGE_SIZE, VMAPermissions::rw()));
    pvm.insert_and_merge(create_anon_vma(other, PAGE_SIZE, VMAPermissions::rw()));
    let region = VirtMemoryRegion::new(VA::from_value(start + PAGE_SIZE), 2 * PAGE_SIZE);
    assert_eq!(pvm.mprotect(region, VMAPermissions::ro()), Err(KernelError::NoMemory));
    assert_eq!(pvm.vma_count(), 1);
    assert!(pvm.find_vma(VA::from_value(start)).is_none());
    assert_vma_exists(&pvm, other, PAGE_SIZE);
    assert_vma_perms(&pvm, other, VMAPermissions::rw());
    assert!(pvm.address_space_mut().ops_log.is_empty());
}

#[test]
fn the_highest_gap_that_is_large_enough_is_taken() {
    let mut pvm: MemoryMap<MockAddressSpace> = MemoryMap::new().unwrap();
    // Gaps of one page and of three pages below the base.
    for pages in [2, 6] {
        pvm.insert_and_merge(create_anon_vma(
            MMAP_BASE - pages * PAGE_SIZE,
            PAGE_SIZE,
            VMAPermissions::rw(),
        ));
    }
    for (pages, below) in [(2, 4), (1, 1), (1, 5), (1, 7)] {
        let address = pvm
            .mmap(
                AddressRequest::Any,
                pages * PAGE_SIZE,
                VMAPermissions::ro(),
                VMAreaKind::Anon,
                String::new(),
            )
            .unwrap();
        assert_eq!(address.value(), MMAP_BASE - below * PAGE_SIZE);
    }
    assert_eq!(
        pvm.mmap(
            AddressRequest::Any,
            MMAP_BASE,
            VMAPermissions::ro(),
            VMAreaKind::Anon,
            String::new(),
        ),
        Err(KernelError::NoMemory)
    );
}
