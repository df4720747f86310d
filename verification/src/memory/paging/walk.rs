//! Page-table walking functionality
//!
//! The tables of a hierarchy are described by the shifts of the levels above the
//! last one, from the root on: an entry of a table with shift `s` covers two to the
//! power of `s` bytes. What is done with the tables of the last level is up to the
//! architecture.
use vstd::arithmetic::power2::pow2;
use vstd::prelude::*;

use crate::error::{KernelError, MapError, Result};
use crate::memory::address::{aligned_down, aligned_down_is_floor, MemKind, Physical, Virtual, PA, VA};
use crate::memory::page::{lemma_one_shl, lemma_pow2_is_pow2};
use crate::memory::paging::permissions::PtePermissions;
use crate::memory::paging::{
    entry_index, index_at, Descriptor, PageTableMapper, TLBInvalidator, Tables,
    DESCRIPTORS_PER_PAGE,
};
use crate::memory::region::{imax, imin, VirtMemoryRegion};

verus! {

/// A virtual address kind that can be translated through page tables.
pub trait Translatable: MemKind {
    /// The physical-side kind this translates into.
    type Phys: MemKind;
}

impl Translatable for Virtual {
    type Phys = Physical;
}

/// A collection of context required to modify page tables.
pub struct WalkContext<'a, PM, I: TLBInvalidator> {
    /// The mapper used to temporarily access page tables by physical address.
    pub mapper: &'a mut PM,
    /// The TLB invalidator invoked after modifying page table entries.
    pub invalidator: &'a I,
}

/// A table of the last level, and the part of the walked region that it covers.
#[derive(Clone, Copy)]
pub struct LeafVisit {
    pub table: PA,
    pub region: VirtMemoryRegion,
}

/// The tables and parts of regions, as numbers.
pub open spec fn visited(visits: Seq<LeafVisit>) -> Seq<(usize, int, int)> {
    Seq::new(
        visits.len(),
        |i: int|
            (visits[i].table.addr(), visits[i].region.start(), visits[i].region.end()),
    )
}

/// The first address that the table covers that has an entry for the address.
pub open spec fn table_base(va: int, shift: nat) -> int {
    aligned_down(va, pow2(shift + 9) as int)
}

/// The first address that the entry covers.
pub open spec fn entry_start(va: int, shift: nat, index: int) -> int {
    table_base(va, shift) + index * pow2(shift)
}

/// The end of what the entry covers.
pub open spec fn entry_end(va: int, shift: nat, index: int) -> int {
    imin(entry_start(va, shift, index) + pow2(shift), usize::MAX as int)
}

/// The tables of the last level that hold the entries for a region, with the parts of
/// the region that they cover; and how the walk ends.
pub open spec fn plan(
    t: Tables,
    shifts: Seq<usize>,
    level: int,
    table: usize,
    start: int,
    end: int,
) -> (Seq<(usize, int, int)>, Result<()>)
    decreases shifts.len() - level, DESCRIPTORS_PER_PAGE + 1,
{
    if level >= shifts.len() {
        (seq![(table, start, end)], Ok(()))
    } else {
        let shift = shifts[level] as nat;
        plan_from(
            t,
            shifts,
            level,
            table,
            start,
            end,
            entry_index(start, shift),
            entry_index(imax(end - 1, start), shift),
        )
    }
}

/// The part of [`plan`] that belongs to the entries from `index` to `last`.
pub open spec fn plan_from(
    t: Tables,
    shifts: Seq<usize>,
    level: int,
    table: usize,
    start: int,
    end: int,
    index: int,
    last: int,
) -> (Seq<(usize, int, int)>, Result<()>)
    decreases shifts.len() - level, imax(last - index + 1, 0),
{
    if index > last || level >= shifts.len() {
        (Seq::empty(), Ok(()))
    } else {
        let shift = shifts[level] as nat;
        match t.read(table, index) {
            Err(e) => (Seq::empty(), Err(e)),
            Ok(Descriptor::Table(next)) => {
                let (v, r) = plan(
                    t,
                    shifts,
                    level + 1,
                    next.addr(),
                    imax(start, entry_start(start, shift, index)),
                    imin(end, entry_end(start, shift, index)),
                );
                match r {
                    Err(e) => (v, Err(e)),
                    Ok(_) => {
                        let (w, s) = plan_from(
                            t,
                            shifts,
                            level,
                            table,
                            start,
                            end,
                            index + 1,
                            last,
                        );
                        (v + w, s)
                    },
                }
            },
            // Permit sparse mappings.
            Ok(Descriptor::Invalid) => plan_from(
                t,
                shifts,
                level,
                table,
                start,
                end,
                index + 1,
                last,
            ),
            Ok(_) => (Seq::empty(), Err(KernelError::MappingError(MapError::NotL3Mapped))),
        }
    }
}

/// The shifts leave room for the addresses of a whole table.
pub open spec fn shifts_ok(shifts: Seq<usize>) -> bool {
    forall|i: int| 0 <= i < shifts.len() ==> (#[trigger] shifts[i]) + 9 < usize::BITS
}

/// The addresses of a table and its entries.
pub(super) proof fn lemma_entry(va: int, shift: usize, index: int)
    requires
        0 <= va <= usize::MAX,
        shift + 9 < usize::BITS,
        0 <= index < DESCRIPTORS_PER_PAGE,
    ensures
        pow2((shift + 9) as nat) == DESCRIPTORS_PER_PAGE * pow2(shift as nat),
        0 < pow2(shift as nat),
        0 <= table_base(va, shift as nat) <= va < table_base(va, shift as nat) + pow2(
            (shift + 9) as nat,
        ),
        table_base(va, shift as nat) + pow2((shift + 9) as nat) <= usize::MAX + 1,
        0 <= index * pow2(shift as nat),
        index * pow2(shift as nat) + pow2(shift as nat) <= pow2((shift + 9) as nat),
        entry_index(va, shift as nat) == (va - table_base(va, shift as nat)) / pow2(
            shift as nat,
        ) as int,
        0 <= entry_index(va, shift as nat) < DESCRIPTORS_PER_PAGE,
        entry_start(va, shift as nat, entry_index(va, shift as nat)) <= va < entry_start(
            va,
            shift as nat,
            entry_index(va, shift as nat),
        ) + pow2(shift as nat),
{
    let s = shift as nat;
    let c = pow2(s) as int;
    vstd::arithmetic::power2::lemma_pow2_pos(s);
    vstd::arithmetic::power2::lemma_pow2_adds(s, 9);
    vstd::arithmetic::power2::lemma2_to64();
    let whole = pow2(s + 9) as int;
    assert(whole == 512 * c) by (nonlinear_arith)
        requires
            whole == c * 512,
    ;
    aligned_down_is_floor(va, whole);
    let base = table_base(va, s);
    let q = base / whole;
    vstd::arithmetic::div_mod::lemma_fundamental_div_mod(base, whole);
    // The address space is a whole number of tables.
    let rest = (usize::BITS - (s + 9)) as nat;
    vstd::arithmetic::power2::lemma_pow2_adds(s + 9, rest);
    vstd::arithmetic::power2::lemma_pow2_pos(rest);
    vstd::arithmetic::power2::lemma2_to64_rest();
    let tables = pow2(rest) as int;
    assert(whole * tables == usize::MAX + 1);
    assert(base >= 0) by {
        assert(0int % whole == 0) by {
            vstd::arithmetic::div_mod::lemma_small_mod(0, whole as nat);
        }
        assert(0 <= va);
    }
    assert(base + whole <= usize::MAX + 1) by (nonlinear_arith)
        requires
            base == whole * q,
            base <= usize::MAX,
            whole * tables == usize::MAX + 1,
            whole > 0,
    ;
    assert(0 <= index * c && index * c + c <= 512 * c) by (nonlinear_arith)
        requires
            0 <= index,
            index + 1 <= 512,
            c > 0,
    ;
    // The index of the address.
    let d = va - base;
    assert(base == (512 * q) * c) by (nonlinear_arith)
        requires
            base == whole * q,
            whole == 512 * c,
    ;
    let k = d / c;
    vstd::arithmetic::div_mod::lemma_fundamental_div_mod(d, c);
    vstd::arithmetic::div_mod::lemma_mod_bound(d, c);
    assert(0 <= k < 512) by (nonlinear_arith)
        requires
            d == c * k + d % c,
            0 <= d % c < c,
            0 <= d < 512 * c,
            c > 0,
    ;
    assert(va == (512 * q + k) * c + d % c) by (nonlinear_arith)
        requires
            va == base + d,
            base == (512 * q) * c,
            d == c * k + d % c,
    ;
    vstd::arithmetic::div_mod::lemma_fundamental_div_mod_converse(va, c, 512 * q + k, d % c);
    assert((512 * q + k) % 512 == k);
    assert(k * c == c * k) by (nonlinear_arith);
}

/// The part of a region that an entry covers is a region.
pub(super) proof fn lemma_part(start: int, end: int, shift: usize, index: int)
    requires
        0 <= start <= end <= usize::MAX,
        shift + 9 < usize::BITS,
        entry_index(start, shift as nat) <= index <= entry_index(imax(end - 1, start), shift as nat),
    ensures
        ({
            let s = shift as nat;
            let low = imax(start, entry_start(start, s, index));
            let high = imin(end, entry_end(start, s, index));
            &&& 0 <= entry_start(start, s, index) <= usize::MAX
            &&& start <= low
            &&& high <= end
            &&& low <= high
        }),
{
    let s = shift as nat;
    let c = pow2(s) as int;
    let x = imax(end - 1, start);
    lemma_entry(start, shift, 0);
    lemma_entry(x, shift, 0);
    lemma_entry(start, shift, index);
    let base = table_base(start, s);
    let es = entry_start(start, s, index);
    let first = entry_index(start, s);
    assert(index * c >= first * c) by (nonlinear_arith)
        requires
            index >= first,
            c > 0,
    ;
    // The entry does not start after the last address.
    assert(es <= x) by {
        let last = entry_index(x, s);
        assert(index * c <= last * c) by (nonlinear_arith)
            requires
                index <= last,
                c > 0,
        ;
        if table_base(x, s) == base {
        } else {
            let whole = pow2(s + 9) as int;
            aligned_down_is_floor(x, whole);
            aligned_down_is_floor(start, whole);
            assert(base <= table_base(x, s));
            assert(table_base(x, s) >= base + whole) by {
                let (a, b) = (base / whole, table_base(x, s) / whole);
                vstd::arithmetic::div_mod::lemma_fundamental_div_mod(base, whole);
                vstd::arithmetic::div_mod::lemma_fundamental_div_mod(table_base(x, s), whole);
                assert(b >= a + 1) by (nonlinear_arith)
                    requires
                        whole * a < whole * b,
                        whole > 0,
                ;
                assert(whole * b >= whole * a + whole) by (nonlinear_arith)
                    requires
                        b >= a + 1,
                        whole > 0,
                ;
            }
        }
    }
}

/// Finds the tables of the last level that hold the entries for the region, with the
/// parts of the region that they cover, in ascending order, and adds them to
/// `visits`.
///
/// `table` is a table of the given level. Parts of the region that are not mapped are
/// left out. A block mapping ends the walk with
/// [`NotL3Mapped`](MapError::NotL3Mapped), and so does a table that cannot be
/// accessed with the error of the mapper; what was found before stays in `visits`.
pub fn walk<PM: PageTableMapper>(
    mapper: &mut PM,
    shifts: &Vec<usize>,
    level: usize,
    table: PA,
    region: VirtMemoryRegion,
    visits: &mut Vec<LeafVisit>,
) -> (r: Result<()>)
    requires
        shifts_ok(shifts@),
        level <= shifts@.len(),
        region.fits(),
    ensures
        final(mapper).tables() == old(mapper).tables(),
        ({
            let (found, end) = plan(
                old(mapper).tables(),
                shifts@,
                level as int,
                table.addr(),
                region.start(),
                region.end(),
            );
            &&& visited(final(visits)@) == visited(old(visits)@) + found
            &&& r == end
        }),
    decreases shifts@.len() - level,
{
    let ghost t = mapper.tables();
    let ghost v0 = visited(visits@);
    let ghost (start, end) = (region.start(), region.end());
    proof {
        VirtMemoryRegion::bounds(region, region);
    }
    if level >= shifts.len() {
        visits.push(LeafVisit { table, region });
        assert(visited(visits@) =~= v0 + seq![(table.addr(), start, end)]);
        return Ok(());
    }
    let shift: usize = shifts[level];
    let ghost s = shift as nat;
    proof {
        assert(shifts@[level as int] + 9 < usize::BITS);
        lemma_one_shl(shift);
        lemma_one_shl((shift + 9) as usize);
        lemma_pow2_is_pow2((shift + 9) as nat);
        lemma_entry(start, shift, 0);
    }
    let table_coverage: usize = 1usize << shift;
    let start_idx: usize = index_at(region.start_address(), shift);
    let end_idx: usize = index_at(region.end_address_inclusive(), shift);

    // Calculate the base address of the *entire* table.
    let table_base_va = region.start_address().align(1usize << (shift + 9));

    let levels: usize = shifts.len();
    let mut idx: usize = start_idx;
    assert(visited(visits@) =~= v0 + Seq::empty());
    let ghost mut done: Seq<(usize, int, int)> = Seq::empty();
    let ghost all = plan(t, shifts@, level as int, table.addr(), start, end);
    assert(done + all.0 =~= all.0);
    while idx <= end_idx
        invariant
            shifts_ok(shifts@),
            level < levels,
            levels == shifts@.len(),
            shift == shifts@[level as int],
            shift + 9 < usize::BITS,
            s == shift as nat,
            region.fits(),
            start == region.start(),
            end == region.end(),
            0 <= start <= end <= usize::MAX,
            start_idx == entry_index(start, s),
            end_idx == entry_index(imax(end - 1, start), s),
            end_idx < DESCRIPTORS_PER_PAGE,
            start_idx <= idx,
            idx <= DESCRIPTORS_PER_PAGE,
            table_base_va.addr() == table_base(start, s),
            table_coverage == pow2(s),
            mapper.tables() == t,
            t == old(mapper).tables(),
            v0 == visited(old(visits)@),
            all == plan(t, shifts@, level as int, table.addr(), start, end),
            visited(visits@) == v0 + done,
            ({
                let (rest, e) = plan_from(
                    t,
                    shifts@,
                    level as int,
                    table.addr(),
                    start,
                    end,
                    idx as int,
                    end_idx as int,
                );
                all.0 == done + rest && all.1 == e
            }),
        decreases DESCRIPTORS_PER_PAGE + 1 - idx,
    {
        let ghost step = plan_from(
            t,
            shifts@,
            level as int,
            table.addr(),
            start,
            end,
            idx as int,
            end_idx as int,
        );
        proof {
            lemma_entry(start, shift, idx as int);
            lemma_part(start, end, shift, idx as int);
        }
        let desc = match mapper.read_entry(table, idx) {
            Ok(desc) => desc,
            Err(e) => {
                assert(all.0 =~= done);
                return Err(e);
            },
        };
        match desc {
            Descriptor::Table(next) => {
                let entry_va: usize = table_base_va.value() + idx * table_coverage;
                let entry_end_va: usize = entry_va.saturating_add(table_coverage);
                let sub_start: usize = if region.start_address().value() < entry_va {
                    entry_va
                } else {
                    region.start_address().value()
                };
                let sub_end: usize = if region.end_address().value() < entry_end_va {
                    region.end_address().value()
                } else {
                    entry_end_va
                };
                let sub_region = VirtMemoryRegion::from_start_end_address(
                    VA::from_value(sub_start),
                    VA::from_value(sub_end),
                );
                let ghost (v, r) = plan(
                    t,
                    shifts@,
                    level + 1,
                    next.addr(),
                    sub_start as int,
                    sub_end as int,
                );
                match walk(mapper, shifts, level + 1, next, sub_region, visits) {
                    Ok(_) => {
                        proof {
                            let rest = plan_from(
                                t,
                                shifts@,
                                level as int,
                                table.addr(),
                                start,
                                end,
                                idx + 1,
                                end_idx as int,
                            ).0;
                            assert(v0 + done + v =~= v0 + (done + v));
                            assert(done + (v + rest) =~= (done + v) + rest);
                            done = done + v;
                        }
                    },
                    Err(e) => {
                        assert(v0 + done + v =~= v0 + (done + v));
                        return Err(e);
                    },
                }
            },
            Descriptor::Invalid => {
                // Permit sparse mappings.
            },
            _ => {
                assert(all.0 =~= done);
                return Err(KernelError::MappingError(MapError::NotL3Mapped));
            },
        }
        idx = idx + 1;
    }
    assert(all.0 =~= done);
    Ok(())
}

/// What a translation comes to.
#[derive(Clone, Copy)]
pub enum Translation {
    /// The address lies in a block of the given size, at the given physical address,
    /// with the given permissions.
    Block(PA, usize, PtePermissions),
    /// The address is described by a table of the last level.
    Leaf(PA),
    /// The address is not mapped.
    Unmapped,
}

/// What the tables say of an address.
pub open spec fn translation(
    t: Tables,
    shifts: Seq<usize>,
    level: int,
    table: usize,
    va: int,
) -> Result<Translation>
    decreases shifts.len() - level,
{
    if level >= shifts.len() {
        Ok(Translation::Leaf(PA::at(table)))
    } else {
        let shift = shifts[level] as nat;
        match t.read(table, entry_index(va, shift)) {
            Err(e) => Err(e),
            Ok(Descriptor::Table(next)) => translation(t, shifts, level + 1, next.addr(), va),
            Ok(Descriptor::Mapped(pa, perms)) => Ok(
                Translation::Block(pa, pow2(shift) as usize, perms),
            ),
            Ok(Descriptor::Reserved) => Err(
                KernelError::MappingError(MapError::InvalidDescriptor),
            ),
            Ok(Descriptor::Invalid) => Ok(Translation::Unmapped),
        }
    }
}

/// Looks up an address. `table` is a table of the given level.
///
/// An entry that is in use but is neither a table nor a mapping is an
/// [`InvalidDescriptor`](MapError::InvalidDescriptor).
pub fn translate<PM: PageTableMapper>(
    mapper: &mut PM,
    shifts: &Vec<usize>,
    level: usize,
    table: PA,
    va: VA,
) -> (r: Result<Translation>)
    requires
        shifts_ok(shifts@),
        level <= shifts@.len(),
    ensures
        final(mapper).tables() == old(mapper).tables(),
        r == translation(
            old(mapper).tables(),
            shifts@,
            level as int,
            table.addr(),
            va.addr() as int,
        ),
    decreases shifts@.len() - level,
{
    if level >= shifts.len() {
        proof {
            PA::at_addr(table, table.addr());
        }
        return Ok(Translation::Leaf(table));
    }
    let shift: usize = shifts[level];
    proof {
        assert(shifts@[level as int] + 9 < usize::BITS);
        lemma_one_shl(shift);
    }
    let desc = match mapper.read_entry(table, index_at(va, shift)) {
        Ok(desc) => desc,
        Err(e) => return Err(e),
    };
    match desc {
        Descriptor::Table(next) => translate(mapper, shifts, level + 1, next, va),
        Descriptor::Mapped(pa, perms) => Ok(Translation::Block(pa, 1usize << shift, perms)),
        Descriptor::Reserved => Err(KernelError::MappingError(MapError::InvalidDescriptor)),
        Descriptor::Invalid => Ok(Translation::Unmapped),
    }
}

} // verus!
