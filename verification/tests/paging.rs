use std::collections::HashMap;

use libkernel::error::{KernelError, MapError, Result};
use libkernel::memory::address::{IdentityTranslator, PA, VA};
use libkernel::memory::allocators::smalloc::region_list::RegionList;
use libkernel::memory::allocators::smalloc::Smalloc;
use libkernel::memory::paging::permissions::PtePermissions;
use libkernel::memory::paging::smalloc_page_allocator::SmallocPageAlloc;
use libkernel::memory::paging::tear_down::{
    EntryKind, RecursiveTeardownWalker, TeardownAction, TeardownContext, TeardownEntry,
    TeardownRecord,
};
use libkernel::memory::paging::walk::{translate, walk, LeafVisit, Translation, WalkContext};
use libkernel::memory::paging::{
    describe, index_at, Descriptor, NullTlbInvalidator, PaMapper, PageAllocator, PageTableEntry,
    PageTableMapper, PgTable, PgTableArray, TableMapper, Tables,
};
use libkernel::memory::region::{PhysMemoryRegion, VirtMemoryRegion};
use libkernel::memory::PAGE_SIZE;

/// A descriptor in the style of common hardware: bit 0 says that it is in use, bit 1 that
/// it leads to a table, bit 2 that it maps memory, and bit 3 that the memory is writable.
#[derive(Clone, Copy, Debug, PartialEq)]
struct Desc(u64);

impl PageTableEntry for Desc {
    type RawDescriptor = u64;

    fn raw(self) -> u64 {
        self.0
    }

    fn of_raw(v: u64) -> Self {
        Desc(v)
    }

    fn valid(self) -> bool {
        self.0 & 1 != 0
    }

    fn invalid_raw() -> u64 {
        0
    }

    fn shift() -> usize {
        21
    }

    fn map_shift() -> usize {
        21
    }

    fn raw_invalid() -> u64 {
        0
    }

    fn is_valid(self) -> bool {
        self.0 & 1 != 0
    }

    fn as_raw(self) -> u64 {
        self.0
    }

    fn from_raw(v: u64) -> Self {
        Desc(v)
    }
}

impl TableMapper for Desc {
    fn next_table(self) -> Option<PA> {
        self.next_table_address()
    }

    fn next_table_address(self) -> Option<PA> {
        if self.0 & 3 == 3 {
            Some(PA::from_value((self.0 & !0xfff) as usize))
        } else {
            None
        }
    }

    fn new_next_table(pa: PA) -> Self {
        Desc(pa.value() as u64 | 3)
    }
}

impl PaMapper for Desc {
    type MemoryType = ();

    fn mapping(self) -> Option<(PA, PtePermissions)> {
        None
    }

    fn mappable(_region: PhysMemoryRegion, _va: usize) -> bool {
        false
    }

    fn new_map_pa(page_address: PA, _memory_type: (), perms: PtePermissions) -> Self {
        Desc(page_address.value() as u64 | 5 | if perms.is_write() { 8 } else { 0 })
    }

    fn could_map(region: PhysMemoryRegion, va: VA) -> bool {
        region.is_page_aligned() && va.is_page_aligned()
    }

    fn mapped_address(self) -> Option<PA> {
        if self.0 & 7 == 5 {
            Some(PA::from_value((self.0 & !0xfff) as usize))
        } else {
            None
        }
    }

    fn permissions(self) -> Option<PtePermissions> {
        match self.mapped_address() {
            Some(_) if self.0 & 8 != 0 => Some(PtePermissions::rw(true)),
            Some(_) => Some(PtePermissions::ro(true)),
            None => None,
        }
    }
}

#[test]
fn entries_are_described() {
    let table = PA::from_value(0x5000);
    assert!(matches!(describe(Desc::new_next_table(table)), Descriptor::Table(pa) if pa == table));
    let block = Desc::new_map_pa(PA::from_value(0x20_0000), (), PtePermissions::rw(true));
    assert!(matches!(
        describe(block),
        Descriptor::Mapped(pa, perms) if pa.value() == 0x20_0000 && perms == PtePermissions::rw(true)
    ));
    assert!(matches!(describe(Desc(1)), Descriptor::Reserved));
    assert!(matches!(describe(Desc::invalid()), Descriptor::Invalid));
}

#[test]
fn indices_come_from_address_bits() {
    let va = VA::from_value(0x40_3456);
    assert_eq!(index_at(va, 12), 3);
    assert_eq!(index_at(va, 21), 2);
    assert_eq!(index_at(va, 30), 0);
    assert_eq!(index_at(VA::from_value(513 << 12), 12), 1);
}

#[test]
fn table_array_holds_descriptors() {
    let mut table: PgTableArray<Desc> = PgTableArray::new();
    let va = VA::from_value(7 << 21);
    assert_eq!(PgTableArray::<Desc>::pg_index(va), 7);
    assert_eq!(table.get_desc(va), Desc(0));
    table.set_desc(va, Desc(0x1003), &NullTlbInvalidator {});
    assert_eq!(table.get_idx(7), Desc(0x1003));
    assert_eq!(table.get_desc(va), Desc(0x1003));
    assert_eq!(table.get_idx(8), Desc(0));
    assert_eq!(PgTableArray::<Desc>::default().get_idx(511), Desc(0));
}

/// Page tables by address and index. Entries that are not listed are invalid.
struct Memory {
    entries: HashMap<(usize, usize), Descriptor>,
    broken: Option<usize>,
}

impl Memory {
    fn read(&self, table: PA, index: usize) -> Result<Descriptor> {
        if self.broken == Some(table.value()) {
            return Err(KernelError::Fault);
        }
        Ok(self
            .entries
            .get(&(table.value(), index))
            .copied()
            .unwrap_or(Descriptor::Invalid))
    }
}

impl PageTableMapper for Memory {
    fn tables(&self) -> Tables {
        unreachable!("Not called")
    }

    fn read_entry(&mut self, table: PA, index: usize) -> Result<Descriptor> {
        self.read(table, index)
    }
}

const ROOT: usize = 0x1000;

/// Two levels above the last one: the root covers 1 GiB per entry, its tables 2 MiB.
fn shifts() -> Vec<usize> {
    vec![30, 21]
}

/// A root with two tables. The first one has two tables of the last level and a block, the
/// second one a table of the last level.
fn memory() -> Memory {
    let entries = [
        ((ROOT, 0), Descriptor::Table(PA::from_value(0x2000))),
        ((ROOT, 2), Descriptor::Table(PA::from_value(0x3000))),
        ((0x2000, 0), Descriptor::Table(PA::from_value(0x4000))),
        ((0x2000, 1), Descriptor::Table(PA::from_value(0x5000))),
        (
            (0x2000, 5),
            Descriptor::Mapped(PA::from_value(0x20_0000), PtePermissions::rw(false)),
        ),
        ((0x3000, 511), Descriptor::Table(PA::from_value(0x6000))),
        ((0x3000, 7), Descriptor::Reserved),
    ];
    Memory {
        entries: entries.into_iter().collect(),
        broken: None,
    }
}

fn found(visits: &Vec<LeafVisit>) -> Vec<(usize, usize, usize)> {
    visits
        .iter()
        .map(|v| {
            (
                v.table.value(),
                v.region.start_address().value(),
                v.region.size(),
            )
        })
        .collect()
}

fn region(start: usize, end: usize) -> VirtMemoryRegion {
    VirtMemoryRegion::from_start_end_address(VA::from_value(start), VA::from_value(end))
}

#[test]
fn walk_visits_the_leaf_tables() {
    let mut memory = memory();
    let mut visits = Vec::new();
    let root = PA::from_value(ROOT);

    // Three pages around the border of two tables.
    let part = region(0x1f_f000, 0x20_2000);
    assert_eq!(walk(&mut memory, &shifts(), 0, root, part, &mut visits), Ok(()));
    assert_eq!(
        found(&visits),
        [(0x4000, 0x1f_f000, 0x1000), (0x5000, 0x20_0000, 0x2000)]
    );

    // Holes are left out.
    visits.clear();
    let hole = region(0x60_0000, 0x80_0000);
    assert_eq!(walk(&mut memory, &shifts(), 0, root, hole, &mut visits), Ok(()));
    assert!(visits.is_empty());

    // From one entry of the root to another.
    let mut memory_without_block = memory;
    memory_without_block.entries.remove(&(0x2000, 5));
    memory_without_block.entries.remove(&(0x3000, 7));
    let wide = region(0x20_0000, 3 << 30);
    let walked = walk(&mut memory_without_block, &shifts(), 0, root, wide, &mut visits);
    assert_eq!(walked, Ok(()));
    assert_eq!(
        found(&visits),
        [
            (0x5000, 0x20_0000, 0x20_0000),
            (0x6000, (2 << 30) + (511 << 21), 1 << 21)
        ]
    );
}

#[test]
fn walk_stops_at_blocks_and_faults() {
    let mut memory = memory();
    let mut visits = Vec::new();
    let root = PA::from_value(ROOT);
    let all = region(0, 3 << 30);
    assert_eq!(
        walk(&mut memory, &shifts(), 0, root, all, &mut visits),
        Err(KernelError::MappingError(MapError::NotL3Mapped))
    );
    // What was found before stays.
    assert_eq!(visits.len(), 2);

    memory.broken = Some(0x3000);
    visits.clear();
    let second = region(2 << 30, 3 << 30);
    assert_eq!(
        walk(&mut memory, &shifts(), 0, root, second, &mut visits),
        Err(KernelError::Fault)
    );
}

#[test]
fn walk_context_gives_the_mapper() {
    let mut memory = memory();
    let ctx = WalkContext {
        mapper: &mut memory,
        invalidator: &NullTlbInvalidator {},
    };
    let mut visits = Vec::new();
    let part = region(0, 0x1000);
    assert!(walk(ctx.mapper, &shifts(), 0, PA::from_value(ROOT), part, &mut visits).is_ok());
    assert_eq!(found(&visits), [(0x4000, 0, 0x1000)]);
}

#[test]
fn translation_follows_the_tables() {
    let mut memory = memory();
    let root = PA::from_value(ROOT);
    let mut look = |va: usize| translate(&mut memory, &shifts(), 0, root, VA::from_value(va));
    assert!(matches!(look(0x1000), Ok(Translation::Leaf(pa)) if pa.value() == 0x4000));
    assert!(matches!(look(0x20_0000), Ok(Translation::Leaf(pa)) if pa.value() == 0x5000));
    assert!(matches!(
        look((5 << 21) + 17),
        Ok(Translation::Block(pa, size, perms))
            if pa.value() == 0x20_0000 && size == 1 << 21 && perms == PtePermissions::rw(false)
    ));
    assert!(matches!(look(1 << 30), Ok(Translation::Unmapped)));
    assert!(matches!(
        look((2 << 30) + (7 << 21)),
        Err(KernelError::MappingError(MapError::InvalidDescriptor))
    ));
}

/// Tears the tables down, with a rule for what to do, and takes notes.
struct Undertaker {
    memory: Memory,
    rule: fn(&TeardownEntry) -> TeardownAction,
    notes: Vec<String>,
}

impl TeardownContext for Undertaker {
    fn steps(&self) -> TeardownRecord {
        unreachable!("Not called")
    }

    fn tables(&self) -> Tables {
        unreachable!("Not called")
    }

    fn read_entry(&mut self, table: PA, index: usize) -> Result<Descriptor> {
        self.memory.read(table, index)
    }

    fn clear_entry(&mut self, table: PA, index: usize) -> Result<()> {
        if self.memory.broken == Some(table.value()) {
            return Err(KernelError::Fault);
        }
        self.notes.push(format!("clear {:x} {}", table.value(), index));
        self.memory.entries.remove(&(table.value(), index));
        Ok(())
    }

    fn control(&mut self, entry: &TeardownEntry) -> TeardownAction {
        (self.rule)(entry)
    }

    fn deallocate(&mut self, region: PhysMemoryRegion) {
        self.notes
            .push(format!("free {:x}+{:x}", region.start_address().value(), region.size()));
    }

    fn tear_down_leaf(&mut self, table: PA, base_va: VA, depth: u8) -> Result<()> {
        self.notes
            .push(format!("leaf {:x} {:x} {}", table.value(), base_va.value(), depth));
        Ok(())
    }
}

fn tear_down_all(rule: fn(&TeardownEntry) -> TeardownAction, broken: Option<usize>) -> (Result<()>, Vec<String>) {
    let mut memory = memory();
    memory.broken = broken;
    let mut walker = RecursiveTeardownWalker::new(Undertaker {
        memory,
        rule,
        notes: Vec::new(),
    });
    let r = walker.tear_down(&shifts(), 0, PA::from_value(ROOT), VA::from_value(0), 0);
    (r, walker.into_inner().notes)
}

#[test]
fn tear_down_frees_children_first() {
    let (r, notes) = tear_down_all(|_| TeardownAction::Free, None);
    assert_eq!(r, Ok(()));
    assert_eq!(
        notes,
        [
            "leaf 4000 0 2",
            "free 4000+1000",
            "leaf 5000 200000 2",
            "free 5000+1000",
            "free 200000+200000",
            "free 2000+1000",
            "leaf 6000 bfe00000 2",
            "free 6000+1000",
            "free 3000+1000",
        ]
    );
}

#[test]
fn tear_down_clears_before_it_frees() {
    let (r, notes) = tear_down_all(
        |entry| match entry.kind {
            EntryKind::Mapping(_) => TeardownAction::FreeAndClear,
            _ if entry.depth == 1 && entry.region.start_address().value() == 0x2000 => {
                TeardownAction::FreeAndClear
            }
            // Subtrees that are skipped are not walked.
            _ => TeardownAction::Skip,
        },
        None,
    );
    assert_eq!(r, Ok(()));
    assert_eq!(
        notes,
        [
            "clear 2000 5",
            "free 200000+200000",
            "clear 1000 0",
            "free 2000+1000",
        ]
    );
}

#[test]
fn tear_down_stops_at_tables_that_cannot_be_read() {
    let (r, notes) = tear_down_all(|_| TeardownAction::Free, Some(0x3000));
    assert_eq!(r, Err(KernelError::Fault));
    // The table that could not be read is not freed.
    assert_eq!(notes.last().unwrap(), "free 2000+1000");
}

#[test]
fn page_tables_come_from_the_early_allocator() {
    let mut smalloc: Smalloc<IdentityTranslator> = Smalloc::new(
        RegionList::new(16, 0x10_0000),
        RegionList::new(16, 0x20_0000),
    );
    smalloc
        .add_memory(PhysMemoryRegion::new(PA::from_value(0x8123), 0x3000))
        .unwrap();
    let mut alloc = SmallocPageAlloc::new(&mut smalloc);
    assert_eq!(alloc.allocate_page_table(), Ok(PA::from_value(0x9000)));
    assert_eq!(alloc.allocate_page_table(), Ok(PA::from_value(0xa000)));
    assert_eq!(alloc.allocate_page_table(), Err(KernelError::NoMemory));
    assert_eq!(smalloc.res.get(0).size(), 2 * PAGE_SIZE);
}
