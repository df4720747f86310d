//! Virtual Memory Areas (VMAs) within a process's address space.
//!
//! A [`VMArea`] is a contiguous range of virtual memory with a uniform set of
//! properties, such as permissions and backing source. A process's memory map is
//! a set of these VMAs.
//!
//! A VMA can be either:
//! - File-backed ([`VMAreaKind::File`]): executable code and initialised data
//!   from files, most notably ELF binaries.
//! - Anonymous ([`VMAreaKind::Anon`]): demand-zeroed memory like the process
//!   stack, heap, and BSS sections.
use object::read::elf::ProgramHeader as _;
use vstd::prelude::*;

use crate::fs::InodeHandle;
use crate::memory::address::{
    aligned_down, aligned_down_is_floor, aligned_up, aligned_up_is_ceiling, VA,
};
use crate::memory::region::{imax, imin, VirtMemoryRegion};
use crate::memory::PAGE_SIZE;

verus! {

/// The permissions assigned to a VMA.
#[derive(Clone, Copy, Debug, PartialEq, Eq, Structural)]
pub struct VMAPermissions {
    /// Whether the VMA can be read.
    pub read: bool,
    /// Whether the VMA can be written.
    pub write: bool,
    /// Whether the VMA can be executed.
    pub execute: bool,
}

impl VMAPermissions {
    /// Read and write.
    pub fn rw() -> (r: Self)
        ensures
            r == (VMAPermissions { read: true, write: true, execute: false }),
    {
        Self { read: true, write: true, execute: false }
    }

    /// Read and execute.
    pub fn rx() -> (r: Self)
        ensures
            r == (VMAPermissions { read: true, write: false, execute: true }),
    {
        Self { read: true, write: false, execute: true }
    }

    /// Read only.
    pub fn ro() -> (r: Self)
        ensures
            r == (VMAPermissions { read: true, write: false, execute: false }),
    {
        Self { read: true, write: false, execute: false }
    }

    /// Whether an access of the given kind is permitted.
    pub open spec fn permits(self, kind: AccessKind) -> bool {
        match kind {
            AccessKind::Read => self.read,
            AccessKind::Write => self.write,
            AccessKind::Execute => self.execute,
        }
    }
}

/// The kind of access that occurred during a page fault.
#[derive(Clone, Copy, Debug, PartialEq, Eq, Structural)]
pub enum AccessKind {
    /// The CPU attempted to read the faulting address.
    Read,
    /// The CPU attempted to write to the faulting address.
    Write,
    /// The CPU attempted to execute the instruction at the faulting address.
    Execute,
}

/// The result of checking a memory access against a [`VMArea`].
#[derive(Clone, Copy, Debug, PartialEq, Eq, Structural)]
pub enum FaultValidation {
    /// The address is within the VMA, and the access is permitted.
    Valid,
    /// The address is not within the VMA.
    NotPresent,
    /// The address is within the VMA, but the access is not permitted.
    PermissionDenied,
}

/// A read operation from a file that satisfies a page fault.
#[derive(Clone, Copy, Debug, PartialEq, Eq, Structural)]
pub struct VMAFileRead {
    /// The absolute offset into the backing file to start reading from.
    pub file_offset: u64,
    /// The offset into the destination page where the data goes.
    pub page_offset: usize,
    /// The number of bytes to read from the file and write to the page.
    pub read_len: usize,
    /// The file that backs the VMA.
    pub inode: InodeHandle,
}

/// A mapping to the region of a file that backs a [`VMArea`]: the `len` bytes
/// at `offset` hold the initialised data of the memory segment.
#[derive(Clone, Copy, Debug, PartialEq, Eq, Structural)]
pub struct VMFileMapping {
    /// The file.
    pub file: InodeHandle,
    /// Where the data starts in the file.
    pub offset: u64,
    /// The length of the data.
    pub len: u64,
}

impl VMFileMapping {
    /// Returns the handle of the file.
    pub fn file(&self) -> (r: InodeHandle)
        ensures
            r == self.file,
    {
        self.file
    }

    /// Returns the starting offset of the mapping's data within the file.
    pub fn offset(&self) -> (r: u64)
        ensures
            r == self.offset,
    {
        self.offset
    }

    /// Returns the length of the mapping's data within the file.
    pub fn file_len(&self) -> (r: u64)
        ensures
            r == self.len,
    {
        self.len
    }
}

/// The backing source of a [`VMArea`].
#[derive(Clone, Copy, Debug, PartialEq, Eq, Structural)]
pub enum VMAreaKind {
    /// The VMA is backed by a file. The part of it that extends beyond the
    /// mapping's length is zero-filled.
    File(VMFileMapping),
    /// The VMA is an anonymous, demand-zeroed mapping.
    Anon,
}

impl VMAreaKind {
    /// An anonymous backing.
    pub fn new_anon() -> (r: Self)
        ensures
            r == VMAreaKind::Anon,
    {
        Self::Anon
    }

    /// A file backing.
    pub fn new_file(file: InodeHandle, offset: u64, len: u64) -> (r: Self)
        ensures
            r == VMAreaKind::File(VMFileMapping { file, offset, len }),
    {
        Self::File(VMFileMapping { file, offset, len })
    }
}

/// The segment is executable.
pub const PF_X: u32 = 1;

/// The segment is writable.
pub const PF_W: u32 = 2;

/// The segment is readable.
pub const PF_R: u32 = 4;

/// The size of a 64-bit ELF program header in bytes.
pub const PROGRAM_HEADER_SIZE: usize = 56;

/// The fields of a 64-bit ELF program header that loading it takes.
#[derive(Clone, Copy, Debug, PartialEq, Eq, Structural)]
pub struct ProgramHeader {
    /// Segment flags: a combination of [`PF_X`], [`PF_W`] and [`PF_R`].
    pub flags: u32,
    /// Segment file offset.
    pub offset: u64,
    /// Segment virtual address.
    pub vaddr: u64,
    /// Segment size in the file.
    pub filesz: u64,
    /// Segment size in memory.
    pub memsz: u64,
}

/// The value of the bytes, the least significant one first.
pub open spec fn little_endian(bytes: Seq<u8>) -> nat
    decreases bytes.len(),
{
    if bytes.len() == 0 {
        0
    } else {
        bytes[0] as nat + 256 * little_endian(bytes.skip(1))
    }
}

/// The value of the `len` bytes at `at`, in the given byte order.
pub open spec fn field(bytes: Seq<u8>, at: int, len: int, big_endian: bool) -> nat {
    let part = bytes.subrange(at, at + len);
    if big_endian {
        little_endian(part.reverse())
    } else {
        little_endian(part)
    }
}

/// Decodes a 64-bit ELF program header by `object::pod::from_bytes` on
/// `object::elf::ProgramHeader64` and its field accessors `p_flags`, `p_offset`,
/// `p_vaddr`, `p_filesz` and `p_memsz`.
///
/// Claimed: the cast fails exactly on data that is shorter than the header, which
/// has no alignment; each accessor gives the value of its field in the byte
/// order, and the fields lie where the ELF format puts them.
#[verifier::external_body]
fn decode_program_header(data: &[u8], big_endian: bool) -> (r: Option<ProgramHeader>)
    ensures
        r is Some <==> data@.len() >= PROGRAM_HEADER_SIZE,
        r matches Some(h) ==> {
            &&& h.flags == field(data@, 4, 4, big_endian)
            &&& h.offset == field(data@, 8, 8, big_endian)
            &&& h.vaddr == field(data@, 16, 8, big_endian)
            &&& h.filesz == field(data@, 32, 8, big_endian)
            &&& h.memsz == field(data@, 40, 8, big_endian)
        },
{
    let e = <object::Endianness as object::Endian>::from_big_endian(big_endian)?;
    let (h, _) = object::pod::from_bytes::<object::elf::ProgramHeader64<object::Endianness>>(data)
        .ok()?;
    Some(
        ProgramHeader {
            flags: h.p_flags(e).0,
            offset: h.p_offset(e),
            vaddr: h.p_vaddr(e),
            filesz: h.p_filesz(e),
            memsz: h.p_memsz(e),
        },
    )
}

impl ProgramHeader {
    /// Decodes the program header at the head of `data`; `None` if the data is
    /// too short.
    pub fn from_bytes(data: &[u8], big_endian: bool) -> (r: Option<Self>)
        ensures
            r is Some <==> data@.len() >= PROGRAM_HEADER_SIZE,
            r matches Some(h) ==> {
                &&& h.flags == field(data@, 4, 4, big_endian)
                &&& h.offset == field(data@, 8, 8, big_endian)
                &&& h.vaddr == field(data@, 16, 8, big_endian)
                &&& h.filesz == field(data@, 32, 8, big_endian)
                &&& h.memsz == field(data@, 40, 8, big_endian)
            },
    {
        decode_program_header(data, big_endian)
    }
}

/// A Virtual Memory Area (VMA): a contiguous region of virtual memory within a
/// process's address space that shares a common set of properties.
#[derive(Debug, PartialEq)]
pub struct VMArea {
    /// The virtual address range.
    pub region: VirtMemoryRegion,
    /// The backing source.
    pub kind: VMAreaKind,
    /// The memory permissions.
    pub permissions: VMAPermissions,
    /// What the mapping is called; no part of what it does.
    pub name: String,
}

impl Clone for VMArea {
    fn clone(&self) -> (r: Self)
        ensures
            r == *self,
    {
        VMArea {
            region: self.region,
            kind: self.kind,
            permissions: self.permissions,
            name: self.name.clone(),
        }
    }
}

impl VMArea {
    /// The first address.
    pub open spec fn start(self) -> int {
        self.region.start()
    }

    /// The first address after the VMA.
    pub open spec fn end(self) -> int {
        self.region.end()
    }

    /// The region is made of whole pages, and all offsets into a backing file
    /// are machine words.
    pub open spec fn wf(self) -> bool {
        &&& self.region.fits()
        &&& self.region.start() % PAGE_SIZE as int == 0
        &&& self.region.len() % PAGE_SIZE as int == 0
        &&& self.kind matches VMAreaKind::File(m) ==> m.offset + self.region.len() <= u64::MAX
    }

    /// The same VMA on another region.
    pub open spec fn on(self, region: VirtMemoryRegion) -> VMArea {
        VMArea { region, ..self }
    }

    /// The same VMA with other permissions.
    pub open spec fn permitting(self, permissions: VMAPermissions) -> VMArea {
        VMArea { permissions, ..self }
    }

    /// Creates a new, unnamed `VMArea`.
    pub fn new(region: VirtMemoryRegion, kind: VMAreaKind, permissions: VMAPermissions) -> (r: Self)
        ensures
            r.region == region,
            r.kind == kind,
            r.permissions == permissions,
            r.name@ == Seq::<char>::empty(),
    {
        Self { region, kind, permissions, name: String::new() }
    }

    /// Sets what the mapping is called.
    pub fn set_name(&mut self, name: String)
        ensures
            *final(self) == (VMArea { name, ..*old(self) }),
    {
        self.name = name;
    }

    /// Creates a file-backed `VMArea` from an ELF program header.
    ///
    /// A segment that does not start at a page boundary is extended down to one,
    /// and the offset and size of the file data with it. `address_bias` is added
    /// to the address of the segment.
    pub fn from_pheader(f: InodeHandle, hdr: ProgramHeader, address_bias: Option<usize>) -> (r:
        VMArea)
        requires
            hdr.memsz <= usize::MAX,
            hdr.vaddr + bias(address_bias) + hdr.memsz + PAGE_SIZE - 1 <= usize::MAX,
            (hdr.vaddr + bias(address_bias)) % PAGE_SIZE as int <= hdr.offset,
            hdr.filesz + (hdr.vaddr + bias(address_bias)) % PAGE_SIZE as int <= u64::MAX,
        ensures
            r.region == VirtMemoryRegion::between(
                aligned_down(hdr.vaddr + bias(address_bias), PAGE_SIZE as int),
                aligned_up(hdr.vaddr + bias(address_bias) + hdr.memsz, PAGE_SIZE as int),
            ),
            r.kind matches VMAreaKind::File(m) && {
                &&& m.file == f
                &&& m.offset == hdr.offset - (hdr.vaddr + bias(address_bias)) % PAGE_SIZE as int
                &&& m.len == hdr.filesz + (hdr.vaddr + bias(address_bias)) % PAGE_SIZE as int
            },
            r.permissions.read == (hdr.flags & PF_R != 0),
            r.permissions.write == (hdr.flags & PF_W != 0),
            r.permissions.execute == (hdr.flags & PF_X != 0),
            r.name@ == Seq::<char>::empty(),
            r.start() % PAGE_SIZE as int == 0,
            r.end() % PAGE_SIZE as int == 0,
            r.start() <= hdr.vaddr + bias(address_bias) < r.start() + PAGE_SIZE,
            r.end() - PAGE_SIZE < hdr.vaddr + bias(address_bias) + hdr.memsz <= r.end(),
            forall|i: int|
                0 <= i < hdr.filesz ==> #[trigger] r.source(hdr.vaddr + bias(address_bias) + i)
                    == Some((f, hdr.offset + i)),
            forall|i: int|
                hdr.filesz <= i ==> #[trigger] r.source(hdr.vaddr + bias(address_bias) + i) is None,
    {
        proof {
            aligned_down_is_floor(hdr.vaddr + bias(address_bias), PAGE_SIZE as int);
            aligned_up_is_ceiling(hdr.vaddr + bias(address_bias) + hdr.memsz, PAGE_SIZE as int);
        }
        let address_bias: usize = match address_bias {
            Some(b) => b,
            None => 0,
        };

        let permissions = VMAPermissions {
            read: hdr.flags & PF_R != 0,
            write: hdr.flags & PF_W != 0,
            execute: hdr.flags & PF_X != 0,
        };

        let mappable_region = VirtMemoryRegion::new(
            VA::from_value(hdr.vaddr as usize + address_bias),
            hdr.memsz as usize,
        ).to_mappable_region();

        Self {
            region: mappable_region.region(),
            kind: VMAreaKind::File(
                VMFileMapping {
                    file: f,
                    offset: hdr.offset - mappable_region.offset() as u64,
                    len: hdr.filesz + mappable_region.offset() as u64,
                },
            ),
            permissions,
            name: String::new(),
        }
    }

    /// What [`VMArea::validate_fault`] says of an access.
    pub open spec fn verdict(self, addr: int, kind: AccessKind) -> FaultValidation {
        if !self.region.has(addr) {
            FaultValidation::NotPresent
        } else if self.permissions.permits(kind) {
            FaultValidation::Valid
        } else {
            FaultValidation::PermissionDenied
        }
    }

    /// Checks whether a page fault is valid for this VMA: whether the faulting
    /// address is within the VMA's bounds, and whether the kind of access is
    /// permitted.
    pub fn validate_fault(&self, addr: VA, kind: AccessKind) -> (r: FaultValidation)
        requires
            self.region.fits(),
        ensures
            r == self.verdict(addr.addr() as int, kind),
            r is NotPresent <==> !(self.start() <= addr.addr() < self.end()),
            r is Valid ==> (match kind {
                AccessKind::Read => self.permissions.read,
                AccessKind::Write => self.permissions.write,
                AccessKind::Execute => self.permissions.execute,
            }),
            r is PermissionDenied ==> !(match kind {
                AccessKind::Read => self.permissions.read,
                AccessKind::Write => self.permissions.write,
                AccessKind::Execute => self.permissions.execute,
            }),
    {
        if !self.contains_address(addr) {
            return FaultValidation::NotPresent;
        }
        let permissions_ok = match kind {
            AccessKind::Read => self.permissions.read,
            AccessKind::Write => self.permissions.write,
            AccessKind::Execute => self.permissions.execute,
        };

        if permissions_ok {
            FaultValidation::Valid
        } else {
            FaultValidation::PermissionDenied
        }
    }

    /// Returns a reference to the kind of backing of this VMA.
    pub fn kind(&self) -> (r: &VMAreaKind)
        ensures
            *r == self.kind,
    {
        &self.kind
    }

    /// How far into the file data the page of `addr` starts; 0 for the page in
    /// which the VMA starts, and for pages below it.
    pub open spec fn page_lead(self, addr: int) -> int {
        imax(aligned_down(addr, PAGE_SIZE as int) - self.start(), 0)
    }

    /// Where in the page of `addr` the file data goes: behind the part of the
    /// VMA's first page that lies before the VMA.
    pub open spec fn page_gap(self, addr: int) -> int {
        if aligned_down(addr, PAGE_SIZE as int) == aligned_down(self.start(), PAGE_SIZE as int) {
            self.start() % PAGE_SIZE as int
        } else {
            0
        }
    }

    /// The number of bytes of file data in the page of `addr`.
    pub open spec fn page_data(self, addr: int) -> int {
        match self.kind {
            VMAreaKind::Anon => 0,
            VMAreaKind::File(m) => imin(
                imax(m.len - self.page_lead(addr), 0),
                PAGE_SIZE - self.page_gap(addr),
            ),
        }
    }

    /// Resolves a page fault within this VMA.
    ///
    /// Returns the read that fills the faulting page from the file, where the page
    /// holds any file data; the caller zeroes the page first. Returns `None` where
    /// the VMA is anonymous or the page holds no file data: such a page is
    /// zero-filled.
    pub fn resolve_fault(&self, faulting_addr: VA) -> (r: Option<VMAFileRead>)
        requires
            self.kind matches VMAreaKind::File(m) ==> {
                &&& self.start() % PAGE_SIZE as int <= m.offset
                &&& m.offset + m.len <= u64::MAX
                &&& m.offset - self.start() % PAGE_SIZE as int + imax(
                    aligned_down(faulting_addr.addr() as int, PAGE_SIZE as int) - aligned_down(
                        self.start(),
                        PAGE_SIZE as int,
                    ),
                    0,
                ) <= u64::MAX
            },
        ensures
            r is Some <==> self.page_data(faulting_addr.addr() as int) > 0,
            r matches Some(read) ==> {
                &&& self.kind matches VMAreaKind::File(m)
                &&& read.inode == m.file
                &&& read.file_offset == m.offset + self.page_lead(faulting_addr.addr() as int)
                &&& read.page_offset == self.page_gap(faulting_addr.addr() as int)
                &&& read.read_len == self.page_data(faulting_addr.addr() as int)
            },
    {
        let mapping = match &self.kind {
            VMAreaKind::Anon => return None,
            VMAreaKind::File(mapping) => mapping,
        };

        let vma_start_addr = self.region.start_address();
        let p_offset: u64 = mapping.offset();
        let p_filesz: u64 = mapping.file_len();
        let vaddr_page_offset: u64 = vma_start_addr.page_offset() as u64;

        // The virtual address where the page-aligned mapping starts, and the file
        // offset that corresponds to it.
        let map_start_vaddr: u64 = vma_start_addr.page_aligned().value() as u64;
        let map_start_foffset: u64 = p_offset - vaddr_page_offset;

        let fault_page_vaddr: u64 = faulting_addr.page_aligned().value() as u64;

        let fault_page_offset_in_map: u64 = fault_page_vaddr.saturating_sub(map_start_vaddr);
        let file_offset_for_page_start: u64 = map_start_foffset + fault_page_offset_in_map;

        let page_write_offset: u64 = if fault_page_vaddr == map_start_vaddr {
            vaddr_page_offset
        } else {
            0
        };

        // The data starts at the later of the page's start and the segment's start.
        let read_start_file_offset: u64 = if file_offset_for_page_start >= p_offset {
            file_offset_for_page_start
        } else {
            p_offset
        };
        let read_end_file_offset: u64 = p_offset + p_filesz;

        let read_len: u64 = read_end_file_offset.saturating_sub(read_start_file_offset);

        // The read cannot exceed what is left in the page.
        let page_left: u64 = PAGE_SIZE as u64 - page_write_offset;
        let final_read_len: u64 = if read_len <= page_left {
            read_len
        } else {
            page_left
        };

        if final_read_len == 0 {
            return None;
        }
        Some(
            VMAFileRead {
                file_offset: read_start_file_offset,
                page_offset: page_write_offset as usize,
                read_len: final_read_len as usize,
                inode: mapping.file,
            },
        )
    }

    /// Returns the memory permissions.
    pub fn permissions(&self) -> (r: VMAPermissions)
        ensures
            r == self.permissions,
    {
        self.permissions
    }

    /// Checks whether the address lies in this VMA.
    pub fn contains_address(&self, addr: VA) -> (r: bool)
        requires
            self.region.fits(),
        ensures
            r == self.region.has(addr.addr() as int),
    {
        self.region.contains_address(addr)
    }

    /// Where in which file the contents of the address come from, if they come from
    /// a file.
    pub open spec fn source(self, addr: int) -> Option<(InodeHandle, int)> {
        match self.kind {
            VMAreaKind::Anon => None,
            VMAreaKind::File(m) => if addr - self.start() < m.len {
                Some((m.file, m.offset + (addr - self.start())))
            } else {
                None
            },
        }
    }

    /// Whether this VMA can be merged with `other`, if that is next to it: the
    /// permissions are identical, and both are anonymous or `other` continues
    /// this one in the same file, whose data fill this one.
    pub open spec fn mergeable(self, other: VMArea) -> bool {
        &&& self.permissions == other.permissions
        &&& match (self.kind, other.kind) {
            (VMAreaKind::Anon, VMAreaKind::Anon) => true,
            (VMAreaKind::File(a), VMAreaKind::File(b)) => a.file == b.file && b.offset == a.offset
                + self.region.len() && self.region.len() <= a.len,
            _ => false,
        }
    }

    /// Checks whether this VMA can be merged with an adjacent one.
    pub(crate) fn can_merge_with(&self, other: &VMArea) -> (r: bool)
        requires
            self.wf(),
        ensures
            r == self.mergeable(*other),
    {
        if self.permissions != other.permissions {
            return false;
        }
        match (&self.kind, &other.kind) {
            (VMAreaKind::Anon, VMAreaKind::Anon) => true,
            (VMAreaKind::File(self_map), VMAreaKind::File(other_map)) => {
                let same_file = self_map.file == other_map.file;
                let contiguous_offset = other_map.offset == self_map.offset
                    + self.region.size() as u64;

                same_file && contiguous_offset && self.region.size() as u64 <= self_map.len
            },
            _ => false,
        }
    }

    /// This VMA together with one that continues it.
    pub open spec fn joined(self, next: VMArea) -> VMArea {
        VMArea {
            region: VirtMemoryRegion::between(self.start(), self.end() + next.region.len()),
            kind: match (self.kind, next.kind) {
                (VMAreaKind::File(a), VMAreaKind::File(b)) => VMAreaKind::File(
                    VMFileMapping {
                        len: (self.region.len() + imin(b.len as int, next.region.len())) as u64,
                        ..a
                    },
                ),
                _ => self.kind,
            },
            ..self
        }
    }

    /// Extends this VMA by one that continues it.
    pub(crate) fn join(&mut self, next: &VMArea)
        requires
            old(self).wf(),
            next.wf(),
            old(self).end() == next.start(),
            old(self).mergeable(*next),
        ensures
            *final(self) == old(self).joined(*next),
    {
        let size: u64 = self.region.size() as u64;
        let next_size: u64 = next.region.size() as u64;
        if let VMAreaKind::File(mapping) = self.kind {
            if let VMAreaKind::File(next_mapping) = next.kind {
                let next_len: u64 = if next_mapping.len <= next_size {
                    next_mapping.len
                } else {
                    next_size
                };
                self.kind =
                VMAreaKind::File(
                    VMFileMapping {
                        file: mapping.file,
                        offset: mapping.offset,
                        len: size + next_len,
                    },
                );
            }
        }
        self.region.expand_by(next.region.size());
    }

    /// Returns the same VMA on another region.
    #[must_use]
    pub(crate) fn clone_with_new_region(&self, new_region: VirtMemoryRegion) -> (r: Self)
        ensures
            r == self.on(new_region),
    {
        let mut clone = self.clone();
        clone.region = new_region;
        clone
    }

    /// Returns `true` if the VMA is backed by a file.
    pub fn is_file_backed(&self) -> (r: bool)
        ensures
            r == (self.kind is File),
    {
        match self.kind {
            VMAreaKind::File(_) => true,
            VMAreaKind::Anon => false,
        }
    }

    /// The backing of the part of this VMA that lies at `region`: the file data
    /// that falls in it, or none.
    pub open spec fn kind_within(self, region: VirtMemoryRegion) -> VMAreaKind {
        match self.kind {
            VMAreaKind::Anon => VMAreaKind::Anon,
            VMAreaKind::File(m) => {
                let skipped = region.start() - self.start();
                let len = imin(imax(m.len - skipped, 0), region.len());
                if len == 0 {
                    VMAreaKind::Anon
                } else {
                    VMAreaKind::File(
                        VMFileMapping {
                            file: m.file,
                            offset: (m.offset + skipped) as u64,
                            len: len as u64,
                        },
                    )
                }
            },
        }
    }

    /// The part of this VMA that lies at `region`.
    pub open spec fn shrunk(self, region: VirtMemoryRegion) -> VMArea {
        VMArea { region, kind: self.kind_within(region), ..self }
    }

    /// Shrinks this VMA to `new_region`, a part of its own, recalculating the
    /// offsets of file mappings.
    #[must_use]
    pub fn shrink_to(&self, new_region: VirtMemoryRegion) -> (r: Self)
        requires
            self.region.fits(),
            self.region.covers(new_region),
            self.kind matches VMAreaKind::File(m) ==> m.offset + (new_region.start() - self.start())
                <= u64::MAX,
        ensures
            r == self.shrunk(new_region),
    {
        let mut new_vma = self.clone_with_new_region(new_region);

        if let VMAreaKind::File(mapping) = self.kind {
            let start_offset: u64 = (new_region.start_address().value()
                - self.region.start_address().value()) as u64;
            let left: u64 = mapping.len.saturating_sub(start_offset);
            let size: u64 = new_region.size() as u64;
            let new_sz: u64 = if left <= size {
                left
            } else {
                size
            };

            if new_sz == 0 {
                // The region lies past the file mapping.
                new_vma.kind = VMAreaKind::Anon;
            } else {
                new_vma.kind =
                VMAreaKind::File(
                    VMFileMapping {
                        file: mapping.file,
                        offset: mapping.offset + start_offset,
                        len: new_sz,
                    },
                );
            }
        }
        new_vma
    }

    /// Returns the virtual memory region managed by this VMA.
    pub fn region(&self) -> (r: VirtMemoryRegion)
        ensures
            r == self.region,
    {
        self.region
    }
}

/// The bias, or 0.
pub open spec fn bias(address_bias: Option<usize>) -> usize {
    match address_bias {
        Some(b) => b,
        None => 0,
    }
}

/// A page fault reads from the file exactly what the page holds of it: the byte
/// at `addr` comes from the file if and only if it is within the file data, and
/// then from the same distance into the data as it is into the VMA. What is read fits into
/// the page, and for anonymous memory nothing is read.
pub proof fn fault_reads_the_byte(vma: VMArea, addr: int)
    requires
        vma.region.has(addr),
        vma.region.fits(),
    ensures
        ({
            let page = aligned_down(addr, PAGE_SIZE as int);
            let at = addr - page - vma.page_gap(addr);
            &&& vma.source(addr) is Some <==> 0 <= at < vma.page_data(addr)
            &&& 0 <= at < vma.page_data(addr) ==> {
                let m = vma.kind->File_0;
                vma.source(addr) == Some((m.file, m.offset + vma.page_lead(addr) + at))
            }
            &&& vma.kind matches VMAreaKind::File(m) ==> {
                &&& addr - vma.start() < m.len <==> 0 <= at < vma.page_data(addr)
                &&& 0 <= at < vma.page_data(addr) ==> m.offset + vma.page_lead(addr) + at
                    == m.offset + (addr - vma.start())
            }
            &&& 0 <= vma.page_gap(addr)
            &&& 0 <= vma.page_data(addr)
            &&& vma.page_gap(addr) + vma.page_data(addr) <= PAGE_SIZE
            &&& vma.kind is Anon ==> vma.page_data(addr) == 0
        }),
{
}

/// The contents of an address come from the file at the same distance into the file data
/// as the address has into the VMA, as far as there is file data.
pub proof fn contents_come_in_order(vma: VMArea, n: int)
    requires
        0 <= n < vma.region.len(),
    ensures
        match vma.kind {
            VMAreaKind::Anon => vma.source(vma.start() + n) is None,
            VMAreaKind::File(m) => {
                &&& n < m.len ==> vma.source(vma.start() + n) == Some((m.file, m.offset + n))
                &&& n >= m.len ==> vma.source(vma.start() + n) is None
            },
        },
{
}

/// A part of a VMA has the same contents and permissions as the VMA.
pub proof fn shrinking_keeps_the_contents(vma: VMArea, region: VirtMemoryRegion, addr: int)
    requires
        vma.wf(),
        vma.region.covers(region),
        region.has(addr),
    ensures
        vma.shrunk(region).region == region,
        vma.shrunk(region).source(addr) == vma.source(addr),
        vma.shrunk(region).permissions == vma.permissions,
        vma.shrunk(region).name == vma.name,
{
}

/// VMAs that can be merged have the same permissions, and the merged one has at each address
/// the contents that the one of the two had that it came from.
pub proof fn joining_keeps_the_contents(a: VMArea, b: VMArea, addr: int)
    requires
        a.wf(),
        b.wf(),
        a.end() == b.start(),
        a.mergeable(b),
    ensures
        a.joined(b).start() == a.start(),
        a.joined(b).end() == b.end(),
        a.joined(b).permissions == a.permissions,
        a.joined(b).permissions == b.permissions,
        a.joined(b).name == a.name,
        a.region.has(addr) ==> a.joined(b).source(addr) == a.source(addr),
        b.region.has(addr) ==> a.joined(b).source(addr) == b.source(addr),
{
}

/// Anonymous memory can be merged with anonymous memory of the same permissions, and file data
/// with what continues it in the file.
pub proof fn what_continues_can_be_merged(a: VMArea, b: VMArea)
    requires
        a.wf(),
        b.wf(),
        a.end() == b.start(),
        a.permissions == b.permissions,
        a.region.len() > 0,
        b.region.len() > 0,
    ensures
        a.kind is Anon && b.kind is Anon ==> a.mergeable(b),
        a.kind is Anon != b.kind is Anon ==> !a.mergeable(b),
        a.source(a.end() - 1) is Some && b.source(b.start()) is Some ==> (a.mergeable(b)
            <==> b.source(b.start()) == Some(
            (a.source(a.end() - 1)->Some_0.0, a.source(a.end() - 1)->Some_0.1 + 1),
        )),
{
}

/// Shrinking in two steps is shrinking in one, as long as file data is left.
pub proof fn shrink_twice(vma: VMArea, outer: VirtMemoryRegion, inner: VirtMemoryRegion)
    requires
        vma.wf(),
        vma.region.covers(outer),
        outer.covers(inner),
        vma.shrunk(outer).kind is File || vma.kind is Anon,
    ensures
        vma.shrunk(outer).shrunk(inner) == vma.shrunk(inner),
{
}

} // verus!
