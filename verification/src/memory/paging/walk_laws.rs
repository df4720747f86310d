//! What a walk finds.
use vstd::arithmetic::power2::pow2;
use vstd::prelude::*;

use crate::error::{KernelError, MapError, Result};
use crate::memory::address::{aligned_down, aligned_down_is_floor, PA};
use crate::memory::paging::walk::{
    entry_end, entry_start, lemma_entry, lemma_part, plan, plan_from, shifts_ok, table_base,
    translation, Translation,
};
use crate::memory::paging::{entry_index, Descriptor, Tables, DESCRIPTORS_PER_PAGE};
use crate::memory::region::{imax, imin};

verus! {

/// Each entry covers as much as a table of the next level.
pub open spec fn nested(shifts: Seq<usize>) -> bool {
    forall|i: int| 0 <= i < shifts.len() - 1 ==> #[trigger] shifts[i] == shifts[i + 1] + 9
}

/// The found tables are those that the address is described by.
pub open spec fn finds(
    found: Seq<(usize, int, int)>,
    t: Tables,
    shifts: Seq<usize>,
    level: int,
    table: usize,
    va: int,
) -> bool {
    &&& forall|i: int|
        0 <= i < found.len() && (#[trigger] found[i]).1 <= va < found[i].2 ==> translation(
            t,
            shifts,
            level,
            table,
            va,
        ) == Ok::<Translation, KernelError>(Translation::Leaf(PA::at(found[i].0)))
    &&& match translation(t, shifts, level, table, va) {
        Ok(Translation::Leaf(_)) => exists|i: int|
            0 <= i < found.len() && (#[trigger] found[i]).1 <= va < found[i].2,
        Ok(Translation::Unmapped) => true,
        _ => false,
    }
}

/// The parts lie between the two addresses.
pub open spec fn parts_between(found: Seq<(usize, int, int)>, low: int, high: int) -> bool {
    forall|i: int| 0 <= i < found.len() ==> low <= (#[trigger] found[i]).1 <= found[i].2 <= high
}

/// The region lies in what one table of the level covers.
pub open spec fn in_one_table(shifts: Seq<usize>, level: int, start: int, end: int) -> bool {
    level < shifts.len() ==> table_base(start, shifts[level] as nat) == table_base(
        end - 1,
        shifts[level] as nat,
    )
}

/// An address of the region is covered by the entry exactly if it lies in the part of
/// the region that belongs to the entry.
proof fn lemma_covered(start: int, end: int, shift: usize, index: int, va: int)
    requires
        0 <= start < end <= usize::MAX,
        shift + 9 < usize::BITS,
        table_base(start, shift as nat) == table_base(end - 1, shift as nat),
        entry_index(start, shift as nat) <= index <= entry_index(end - 1, shift as nat),
        start <= va < end,
    ensures
        ({
            let s = shift as nat;
            let low = imax(start, entry_start(start, s, index));
            let high = imin(end, entry_end(start, s, index));
            &&& low < high
            &&& entry_index(va, s) == index <==> low <= va < high
            &&& entry_index(start, s) <= entry_index(va, s) <= entry_index(end - 1, s)
        }),
{
    let s = shift as nat;
    let c = pow2(s) as int;
    let whole = pow2(s + 9) as int;
    let base = table_base(start, s);
    let x = end - 1;
    lemma_entry(start, shift, index);
    lemma_entry(x, shift, index);
    lemma_entry(va, shift, index);
    lemma_part(start, end, shift, index);
    // The address is in the same table.
    aligned_down_is_floor(va, whole);
    aligned_down_is_floor(start, whole);
    aligned_down_is_floor(x, whole);
    assert(base <= table_base(va, s) <= table_base(x, s));
    let (first, k, last) = (entry_index(start, s), entry_index(va, s), entry_index(x, s));
    let es = entry_start(start, s, index);
    let kc = k * c;
    assert(es == base + index * c);
    assert(base + k * c <= va < base + k * c + c);
    assert(base + first * c <= start < base + first * c + c);
    assert(base + last * c <= x < base + last * c + c);
    assert(first <= k) by (nonlinear_arith)
        requires
            base + first * c <= start,
            start <= va,
            va < base + k * c + c,
            c > 0,
    ;
    assert(k <= last) by (nonlinear_arith)
        requires
            base + k * c <= va,
            va <= x,
            x < base + last * c + c,
            c > 0,
    ;
    assert(index * c >= first * c) by (nonlinear_arith)
        requires
            index >= first,
            c > 0,
    ;
    assert(index * c <= last * c) by (nonlinear_arith)
        requires
            index <= last,
            c > 0,
    ;
    if es <= va < es + c {
        assert(k == index) by (nonlinear_arith)
            requires
                base + index * c <= va < base + index * c + c,
                base + k * c <= va < base + k * c + c,
                c > 0,
        ;
    }
}

/// The part of a region that belongs to an entry lies in one table of the next level.
proof fn lemma_next_table(shifts: Seq<usize>, level: int, start: int, end: int, index: int)
    requires
        shifts_ok(shifts),
        nested(shifts),
        0 <= level < shifts.len(),
        0 <= start < end <= usize::MAX,
        in_one_table(shifts, level, start, end),
        entry_index(start, shifts[level] as nat) <= index <= entry_index(
            end - 1,
            shifts[level] as nat,
        ),
    ensures
        ({
            let s = shifts[level] as nat;
            in_one_table(
                shifts,
                level + 1,
                imax(start, entry_start(start, s, index)),
                imin(end, entry_end(start, s, index)),
            )
        }),
{
    if level + 1 < shifts.len() {
        assert(shifts[level] == shifts[level + 1] + 9);
        assert(shifts[level] + 9 < usize::BITS);
        let s = shifts[level] as nat;
        let c = pow2(s) as int;
        lemma_covered(start, end, shifts[level], index, start);
        lemma_entry(start, shifts[level], index);
        let es = entry_start(start, s, index);
        let low = imax(start, es);
        let high = imin(end, entry_end(start, s, index));
        aligned_down_is_floor(low, c);
        aligned_down_is_floor(high - 1, c);
        let whole = pow2(s + 9) as int;
        let base = table_base(start, s);
        aligned_down_is_floor(start, whole);
        assert(es % c == 0) by {
            let q = base / whole;
            vstd::arithmetic::div_mod::lemma_fundamental_div_mod(base, whole);
            assert(es == (512 * q + index) * c) by (nonlinear_arith)
                requires
                    base == whole * q,
                    whole == 512 * c,
                    es == base + index * c,
            ;
            vstd::arithmetic::div_mod::lemma_mod_multiples_basic(512 * q + index, c);
        }
        lemma_covered(start, end, shifts[level], index, low);
        assert(es <= low && high - 1 < es + c);
        lemma_floor_in(es, c, low);
        lemma_floor_in(es, c, high - 1);
    }
}

/// Rounding down within a block gives its start.
proof fn lemma_floor_in(start: int, size: int, x: int)
    requires
        size > 0,
        start % size == 0,
        start <= x < start + size,
    ensures
        aligned_down(x, size) == start,
{
    aligned_down_is_floor(x, size);
    let d = aligned_down(x, size);
    assert(start <= d);
    let (a, b) = (start / size, d / size);
    vstd::arithmetic::div_mod::lemma_fundamental_div_mod(start, size);
    vstd::arithmetic::div_mod::lemma_fundamental_div_mod(d, size);
    assert(a == b) by (nonlinear_arith)
        requires
            size * a <= size * b < size * a + size,
            size > 0,
    ;
}

/// A walk that succeeds finds, for each address of the region that is described by a
/// table of the last level, that table; other addresses are not mapped, and are in no
/// part that it finds. All parts lie in the region.
pub proof fn walk_finds_the_tables(
    t: Tables,
    shifts: Seq<usize>,
    level: int,
    table: usize,
    start: int,
    end: int,
)
    requires
        shifts_ok(shifts),
        nested(shifts),
        0 <= level <= shifts.len(),
        0 <= start < end <= usize::MAX,
        in_one_table(shifts, level, start, end),
        plan(t, shifts, level, table, start, end).1 is Ok,
    ensures
        parts_between(plan(t, shifts, level, table, start, end).0, start, end),
        forall|va: int|
            start <= va < end ==> #[trigger] finds(
                plan(t, shifts, level, table, start, end).0,
                t,
                shifts,
                level,
                table,
                va,
            ),
    decreases shifts.len() - level, DESCRIPTORS_PER_PAGE + 1,
{
    let found = plan(t, shifts, level, table, start, end).0;
    if level == shifts.len() {
        assert(found[0] == (table, start, end));
    } else {
        let shift = shifts[level];
        let s = shift as nat;
        assert(shift + 9 < usize::BITS);
        let (first, last) = (entry_index(start, s), entry_index(end - 1, s));
        lemma_entry(start, shift, 0);
        lemma_entry(end - 1, shift, 0);
        assert(imax(end - 1, start) == end - 1);
        lemma_plan_from(t, shifts, level, table, start, end, first);
        assert forall|va: int| start <= va < end implies #[trigger] finds(
            found,
            t,
            shifts,
            level,
            table,
            va,
        ) by {
            lemma_last_index(start, end, shift);
            lemma_covered(start, end, shift, first, va);
            assert(finds_from(found, t, shifts, level, table, first, va));
        }
    }
}

/// The indices of a region in one table are in order.
proof fn lemma_last_index(start: int, end: int, shift: usize)
    requires
        0 <= start < end <= usize::MAX,
        shift + 9 < usize::BITS,
        table_base(start, shift as nat) == table_base(end - 1, shift as nat),
    ensures
        entry_index(start, shift as nat) <= entry_index(end - 1, shift as nat),
{
    let s = shift as nat;
    let c = pow2(s) as int;
    lemma_entry(start, shift, 0);
    lemma_entry(end - 1, shift, 0);
    let base = table_base(start, s);
    let (first, last) = (entry_index(start, s), entry_index(end - 1, s));
    assert(first <= last) by (nonlinear_arith)
        requires
            base + first * c <= start,
            start <= end - 1,
            end - 1 < base + last * c + c,
            c > 0,
    ;
}

/// The entries from `index` on lead to the tables that addresses are described by.
spec fn finds_from(
    found: Seq<(usize, int, int)>,
    t: Tables,
    shifts: Seq<usize>,
    level: int,
    table: usize,
    index: int,
    va: int,
) -> bool {
    if entry_index(va, shifts[level] as nat) >= index {
        finds(found, t, shifts, level, table, va)
    } else {
        forall|i: int| 0 <= i < found.len() ==> !((#[trigger] found[i]).1 <= va < found[i].2)
    }
}

/// What is found below an entry and what is found below the later ones.
proof fn lemma_join(
    t: Tables,
    shifts: Seq<usize>,
    level: int,
    table: usize,
    start: int,
    end: int,
    index: int,
    next: usize,
    v: Seq<(usize, int, int)>,
    rest: Seq<(usize, int, int)>,
    va: int,
)
    requires
        shifts_ok(shifts),
        0 <= level < shifts.len(),
        0 <= start < end <= usize::MAX,
        in_one_table(shifts, level, start, end),
        entry_index(start, shifts[level] as nat) <= index <= entry_index(
            end - 1,
            shifts[level] as nat,
        ),
        start <= va < end,
        t.read(table, index) matches Ok(Descriptor::Table(pa)) && pa.addr() == next,
        ({
            let s = shifts[level] as nat;
            let low = imax(start, entry_start(start, s, index));
            let high = imin(end, entry_end(start, s, index));
            &&& parts_between(v, low, high)
            &&& low <= va < high ==> finds(v, t, shifts, level + 1, next, va)
        }),
        finds_from(rest, t, shifts, level, table, index + 1, va),
    ensures
        finds_from(v + rest, t, shifts, level, table, index, va),
{
    let shift = shifts[level];
    let s = shift as nat;
    assert(shift + 9 < usize::BITS);
    let found = v + rest;
    lemma_covered(start, end, shift, index, va);
    if entry_index(va, s) == index {
        assert(finds(v, t, shifts, level + 1, next, va));
        assert(translation(t, shifts, level, table, va) == translation(
            t,
            shifts,
            level + 1,
            next,
            va,
        ));
        assert forall|i: int|
            0 <= i < found.len() && (#[trigger] found[i]).1 <= va
                < found[i].2 implies translation(t, shifts, level, table, va)
            == Ok::<Translation, KernelError>(
            Translation::Leaf(PA::at(found[i].0)),
        ) by {
            if i < v.len() {
                assert(found[i] == v[i]);
            } else {
                assert(found[i] == rest[i - v.len()]);
            }
        }
        if translation(t, shifts, level, table, va) matches Ok(
            Translation::Leaf(_),
        ) {
            let i = choose|i: int|
                0 <= i < v.len() && (#[trigger] v[i]).1 <= va < v[i].2;
            assert(found[i] == v[i]);
        }
    } else {
        assert forall|i: int| 0 <= i < v.len() implies !((#[trigger] v[i]).1 <= va
            < v[i].2) by {}
        if entry_index(va, s) > index {
            assert(finds(rest, t, shifts, level, table, va));
            assert forall|i: int|
                0 <= i < found.len() && (#[trigger] found[i]).1 <= va
                    < found[i].2 implies translation(t, shifts, level, table, va)
                == Ok::<Translation, KernelError>(
                Translation::Leaf(PA::at(found[i].0)),
            ) by {
                if i < v.len() {
                    assert(found[i] == v[i]);
                } else {
                    assert(found[i] == rest[i - v.len()]);
                }
            }
            if translation(t, shifts, level, table, va) matches Ok(
                Translation::Leaf(_),
            ) {
                let i = choose|i: int|
                    0 <= i < rest.len() && (#[trigger] rest[i]).1 <= va < rest[i].2;
                assert(found[v.len() + i] == rest[i]);
            }
        } else {
            assert forall|i: int| 0 <= i < found.len() implies !((
            #[trigger] found[i]).1 <= va < found[i].2) by {
                if i < v.len() {
                    assert(found[i] == v[i]);
                } else {
                    assert(found[i] == rest[i - v.len()]);
                }
            }
        }
    }
}

proof fn lemma_plan_from(
    t: Tables,
    shifts: Seq<usize>,
    level: int,
    table: usize,
    start: int,
    end: int,
    index: int,
)
    requires
        shifts_ok(shifts),
        nested(shifts),
        0 <= level < shifts.len(),
        0 <= start < end <= usize::MAX,
        in_one_table(shifts, level, start, end),
        entry_index(start, shifts[level] as nat) <= index <= DESCRIPTORS_PER_PAGE,
        plan_from(
            t,
            shifts,
            level,
            table,
            start,
            end,
            index,
            entry_index(end - 1, shifts[level] as nat),
        ).1 is Ok,
    ensures
        ({
            let found = plan_from(
                t,
                shifts,
                level,
                table,
                start,
                end,
                index,
                entry_index(end - 1, shifts[level] as nat),
            ).0;
            &&& parts_between(found, start, end)
            &&& forall|va: int|
                start <= va < end ==> #[trigger] finds_from(
                    found,
                    t,
                    shifts,
                    level,
                    table,
                    index,
                    va,
                )
        }),
    decreases shifts.len() - level, DESCRIPTORS_PER_PAGE - index,
{
    let shift = shifts[level];
    let s = shift as nat;
    assert(shift + 9 < usize::BITS);
    let last = entry_index(end - 1, s);
    lemma_entry(end - 1, shift, 0);
    let (found, r) = plan_from(t, shifts, level, table, start, end, index, last);
    if index > last {
        assert forall|va: int| start <= va < end implies #[trigger] finds_from(
            found,
            t,
            shifts,
            level,
            table,
            index,
            va,
        ) by {
            lemma_last_index(start, end, shift);
            lemma_covered(start, end, shift, last, va);
        }
    } else {
        let (rest, e) = plan_from(t, shifts, level, table, start, end, index + 1, last);
        lemma_covered(start, end, shift, index, start);
        match t.read(table, index) {
            Ok(Descriptor::Table(next)) => {
                let low = imax(start, entry_start(start, s, index));
                let high = imin(end, entry_end(start, s, index));
                lemma_part(start, end, shift, index);
                lemma_next_table(shifts, level, start, end, index);
                let (v, w) = plan(t, shifts, level + 1, next.addr(), low, high);
                walk_finds_the_tables(t, shifts, level + 1, next.addr(), low, high);
                lemma_plan_from(t, shifts, level, table, start, end, index + 1);
                assert(found == v + rest);
                assert forall|i: int| 0 <= i < found.len() implies start <= (
                #[trigger] found[i]).1 <= found[i].2 <= end by {
                    if i < v.len() {
                        assert(found[i] == v[i]);
                    } else {
                        assert(found[i] == rest[i - v.len()]);
                    }
                }
                assert forall|va: int| start <= va < end implies #[trigger] finds_from(
                    found,
                    t,
                    shifts,
                    level,
                    table,
                    index,
                    va,
                ) by {
                    lemma_covered(start, end, shift, index, va);
                    assert(finds_from(rest, t, shifts, level, table, index + 1, va));
                    lemma_join(t, shifts, level, table, start, end, index, next.addr(), v, rest, va);
                }
            },
            Ok(Descriptor::Invalid) => {
                lemma_plan_from(t, shifts, level, table, start, end, index + 1);
                assert forall|va: int| start <= va < end implies #[trigger] finds_from(
                    found,
                    t,
                    shifts,
                    level,
                    table,
                    index,
                    va,
                ) by {
                    assert(finds_from(rest, t, shifts, level, table, index + 1, va));
                }
            },
            _ => {},
        }
    }
}

/// The parts come one after the other.
pub open spec fn ascending(found: Seq<(usize, int, int)>) -> bool {
    forall|i: int, j: int| 0 <= i < j < found.len() ==> (#[trigger] found[i]).2 <= (
    #[trigger] found[j]).1
}

/// A walk finds the parts in ascending order, whether or not it succeeds.
pub proof fn walk_goes_up(
    t: Tables,
    shifts: Seq<usize>,
    level: int,
    table: usize,
    start: int,
    end: int,
)
    requires
        shifts_ok(shifts),
        nested(shifts),
        0 <= level <= shifts.len(),
        0 <= start < end <= usize::MAX,
        in_one_table(shifts, level, start, end),
    ensures
        ascending(plan(t, shifts, level, table, start, end).0),
        parts_between(plan(t, shifts, level, table, start, end).0, start, end),
    decreases shifts.len() - level, DESCRIPTORS_PER_PAGE + 1,
{
    if level < shifts.len() {
        let shift = shifts[level];
        let s = shift as nat;
        assert(shift + 9 < usize::BITS);
        lemma_entry(start, shift, 0);
        lemma_entry(end - 1, shift, 0);
        assert(imax(end - 1, start) == end - 1);
        lemma_goes_up(t, shifts, level, table, start, end, entry_index(start, s));
    }
}

/// The parts of the entries from `index` on come after those of the entries before.
proof fn lemma_goes_up(
    t: Tables,
    shifts: Seq<usize>,
    level: int,
    table: usize,
    start: int,
    end: int,
    index: int,
)
    requires
        shifts_ok(shifts),
        nested(shifts),
        0 <= level < shifts.len(),
        0 <= start < end <= usize::MAX,
        in_one_table(shifts, level, start, end),
        entry_index(start, shifts[level] as nat) <= index <= DESCRIPTORS_PER_PAGE,
    ensures
        ({
            let s = shifts[level] as nat;
            let found = plan_from(
                t,
                shifts,
                level,
                table,
                start,
                end,
                index,
                entry_index(end - 1, s),
            ).0;
            &&& ascending(found)
            &&& parts_between(found, imax(start, entry_start(start, s, index)), end)
        }),
    decreases shifts.len() - level, DESCRIPTORS_PER_PAGE - index,
{
    let shift = shifts[level];
    let s = shift as nat;
    assert(shift + 9 < usize::BITS);
    let last = entry_index(end - 1, s);
    lemma_entry(end - 1, shift, 0);
    let (found, r) = plan_from(t, shifts, level, table, start, end, index, last);
    if index <= last {
        let (rest, e) = plan_from(t, shifts, level, table, start, end, index + 1, last);
        lemma_covered(start, end, shift, index, start);
        lemma_entry(start, shift, index);
        let es = entry_start(start, s, index);
        let c = pow2(s) as int;
        assert(entry_start(start, s, index + 1) == es + c) by (nonlinear_arith)
            requires
                es == table_base(start, s) + index * c,
                entry_start(start, s, index + 1) == table_base(start, s) + (index + 1) * c,
        ;
        match t.read(table, index) {
            Ok(Descriptor::Table(next)) => {
                let low = imax(start, es);
                let high = imin(end, entry_end(start, s, index));
                lemma_part(start, end, shift, index);
                lemma_next_table(shifts, level, start, end, index);
                walk_goes_up(t, shifts, level + 1, next.addr(), low, high);
                lemma_goes_up(t, shifts, level, table, start, end, index + 1);
                let (v, w) = plan(t, shifts, level + 1, next.addr(), low, high);
                if w is Ok {
                    assert(found == v + rest);
                    assert forall|i: int| 0 <= i < found.len() implies low <= (
                    #[trigger] found[i]).1 <= found[i].2 <= end by {
                        if i < v.len() {
                            assert(found[i] == v[i]);
                        } else {
                            assert(found[i] == rest[i - v.len()]);
                        }
                    }
                    assert forall|i: int, j: int| 0 <= i < j < found.len() implies (
                    #[trigger] found[i]).2 <= (#[trigger] found[j]).1 by {
                        if j < v.len() {
                            assert(found[i] == v[i] && found[j] == v[j]);
                        } else if i < v.len() {
                            assert(found[i] == v[i] && found[j] == rest[j - v.len()]);
                        } else {
                            assert(found[i] == rest[i - v.len()] && found[j] == rest[j - v.len()]);
                        }
                    }
                }
            },
            Ok(Descriptor::Invalid) => {
                lemma_goes_up(t, shifts, level, table, start, end, index + 1);
            },
            _ => {},
        }
    }
}

/// The tables of the chain are those that the entries for the address lead to, from the
/// given level on.
pub open spec fn leads(t: Tables, shifts: Seq<usize>, level: int, chain: Seq<usize>, va: int) -> bool {
    &&& chain.len() > 0
    &&& level + chain.len() - 1 <= shifts.len()
    &&& forall|j: int|
        0 <= j < chain.len() - 1 ==> #[trigger] leads_on(
            t.read(chain[j], (va / pow2(shifts[level + j] as nat) as int) % 512),
            chain,
            j,
        )
}

/// The entry of a table of the chain is the next table.
pub open spec fn leads_on(entry: Result<Descriptor>, chain: Seq<usize>, j: int) -> bool {
    entry matches Ok(Descriptor::Table(next)) && next.addr() == chain[j + 1]
}

/// The entry for the address in the last table of the chain, which has entries of two to
/// the power of `shift` bytes.
pub open spec fn last_entry(t: Tables, chain: Seq<usize>, shift: usize, va: int) -> Result<Descriptor> {
    t.read(chain.last(), (va / pow2(shift as nat) as int) % 512)
}

/// An address is what the last table that the entries for it lead to says of it.
pub proof fn translation_follows_the_entries(
    t: Tables,
    shifts: Seq<usize>,
    level: int,
    chain: Seq<usize>,
    va: int,
)
    requires
        0 <= level,
        leads(t, shifts, level, chain, va),
    ensures
        ({
            let end = level + chain.len() - 1;
            let found = translation(t, shifts, level, chain[0], va);
            if end == shifts.len() {
                found == Ok::<Translation, KernelError>(Translation::Leaf(PA::at(chain.last())))
            } else {
                match last_entry(t, chain, shifts[end], va) {
                    Ok(Descriptor::Mapped(pa, perms)) => found == Ok::<Translation, KernelError>(
                        Translation::Block(pa, pow2(shifts[end] as nat) as usize, perms),
                    ),
                    Ok(Descriptor::Invalid) => found == Ok::<Translation, KernelError>(
                        Translation::Unmapped,
                    ),
                    Ok(Descriptor::Reserved) => found == Err::<Translation, KernelError>(
                        KernelError::MappingError(MapError::InvalidDescriptor),
                    ),
                    Ok(Descriptor::Table(_)) => true,
                    Err(e) => found == Err::<Translation, KernelError>(e),
                }
            }
        }),
    decreases chain.len(),
{
    if chain.len() > 1 {
        let rest = chain.skip(1);
        assert(leads_on(
            t.read(chain[0], (va / pow2(shifts[level + 0] as nat) as int) % 512),
            chain,
            0,
        ));
        assert forall|j: int| 0 <= j < rest.len() - 1 implies #[trigger] leads_on(
            t.read(rest[j], (va / pow2(shifts[level + 1 + j] as nat) as int) % 512),
            rest,
            j,
        ) by {
            assert(leads_on(
                t.read(chain[j + 1], (va / pow2(shifts[level + (j + 1)] as nat) as int) % 512),
                chain,
                j + 1,
            ));
        }
        translation_follows_the_entries(t, shifts, level + 1, rest, va);
        assert(rest.last() == chain.last());
    }
}

/// The entries for the address lead to an entry that ends a walk with the given error: a
/// table that cannot be accessed, or what is not a table.
pub open spec fn stopped_by(
    t: Tables,
    shifts: Seq<usize>,
    level: int,
    chain: Seq<usize>,
    va: int,
    e: KernelError,
) -> bool {
    let end = level + chain.len() - 1;
    &&& leads(t, shifts, level, chain, va)
    &&& end < shifts.len()
    &&& match last_entry(t, chain, shifts[end], va) {
        Err(fault) => fault == e,
        Ok(Descriptor::Mapped(_, _)) => e == KernelError::MappingError(MapError::NotL3Mapped),
        Ok(Descriptor::Reserved) => e == KernelError::MappingError(MapError::NotL3Mapped),
        _ => false,
    }
}

/// A walk that fails has found the tables for all addresses up to the one that stopped it.
pub open spec fn stopped_at(
    found: Seq<(usize, int, int)>,
    t: Tables,
    shifts: Seq<usize>,
    level: int,
    table: usize,
    start: int,
    va: int,
) -> bool {
    &&& parts_between(found, start, va)
    &&& forall|a: int|
        start <= a < va ==> #[trigger] finds(found, t, shifts, level, table, a)
}

/// A walk that fails does so at the first address that is neither described by a table of
/// the last level nor unmapped.
pub proof fn walk_stops_at_the_first_obstacle(
    t: Tables,
    shifts: Seq<usize>,
    level: int,
    table: usize,
    start: int,
    end: int,
) -> (r: (int, Seq<usize>))
    requires
        shifts_ok(shifts),
        nested(shifts),
        0 <= level <= shifts.len(),
        0 <= start < end <= usize::MAX,
        in_one_table(shifts, level, start, end),
        plan(t, shifts, level, table, start, end).1 is Err,
    ensures
        ({
            let (found, e) = plan(t, shifts, level, table, start, end);
            let (va, chain) = r;
            &&& start <= va < end
            &&& chain.len() > 0
            &&& chain[0] == table
            &&& stopped_by(t, shifts, level, chain, va, e->Err_0)
            &&& stopped_at(found, t, shifts, level, table, start, va)
        }),
    decreases shifts.len() - level, DESCRIPTORS_PER_PAGE + 1,
{
    let shift = shifts[level];
    let s = shift as nat;
    assert(shift + 9 < usize::BITS);
    let found = plan(t, shifts, level, table, start, end).0;
    let first = entry_index(start, s);
    lemma_entry(start, shift, 0);
    lemma_entry(end - 1, shift, 0);
    assert(imax(end - 1, start) == end - 1);
    let (va, chain) = lemma_stops(t, shifts, level, table, start, end, first);
    assert forall|a: int| start <= a < va implies #[trigger] finds(
        found,
        t,
        shifts,
        level,
        table,
        a,
    ) by {
        lemma_last_index(start, end, shift);
        lemma_covered(start, end, shift, first, a);
        assert(finds_from(found, t, shifts, level, table, first, a));
    }
    (va, chain)
}

/// The entry for an address is in order with the addresses.
proof fn lemma_from_entry(start: int, end: int, shift: usize, index: int, va: int)
    requires
        0 <= start < end <= usize::MAX,
        shift + 9 < usize::BITS,
        table_base(start, shift as nat) == table_base(end - 1, shift as nat),
        entry_index(start, shift as nat) <= index <= entry_index(end - 1, shift as nat),
        start <= va < end,
        entry_index(va, shift as nat) >= index,
    ensures
        imax(start, entry_start(start, shift as nat, index)) <= va,
{
    let s = shift as nat;
    let c = pow2(s) as int;
    let whole = pow2(s + 9) as int;
    lemma_entry(va, shift, index);
    lemma_entry(start, shift, index);
    lemma_entry(end - 1, shift, index);
    aligned_down_is_floor(va, whole);
    aligned_down_is_floor(start, whole);
    aligned_down_is_floor(end - 1, whole);
    assert(table_base(start, s) <= table_base(va, s) <= table_base(end - 1, s));
    let k = entry_index(va, s);
    assert(index * c <= k * c) by (nonlinear_arith)
        requires
            index <= k,
            c > 0,
    ;
}

/// Finds what stops the walk of the entries from `index` on.
proof fn lemma_stops(
    t: Tables,
    shifts: Seq<usize>,
    level: int,
    table: usize,
    start: int,
    end: int,
    index: int,
) -> (r: (int, Seq<usize>))
    requires
        shifts_ok(shifts),
        nested(shifts),
        0 <= level < shifts.len(),
        0 <= start < end <= usize::MAX,
        in_one_table(shifts, level, start, end),
        entry_index(start, shifts[level] as nat) <= index <= DESCRIPTORS_PER_PAGE,
        plan_from(
            t,
            shifts,
            level,
            table,
            start,
            end,
            index,
            entry_index(end - 1, shifts[level] as nat),
        ).1 is Err,
    ensures
        ({
            let (found, e) = plan_from(
                t,
                shifts,
                level,
                table,
                start,
                end,
                index,
                entry_index(end - 1, shifts[level] as nat),
            );
            let (va, chain) = r;
            &&& start <= va < end
            &&& entry_index(va, shifts[level] as nat) >= index
            &&& chain.len() > 0
            &&& chain[0] == table
            &&& stopped_by(t, shifts, level, chain, va, e->Err_0)
            &&& parts_between(found, start, va)
            &&& forall|a: int|
                start <= a < va ==> #[trigger] finds_from(
                    found,
                    t,
                    shifts,
                    level,
                    table,
                    index,
                    a,
                )
        }),
    decreases shifts.len() - level, DESCRIPTORS_PER_PAGE - index,
{
    let shift = shifts[level];
    let s = shift as nat;
    assert(shift + 9 < usize::BITS);
    let last = entry_index(end - 1, s);
    lemma_entry(end - 1, shift, 0);
    let (found, r) = plan_from(t, shifts, level, table, start, end, index, last);
    let (rest, e) = plan_from(t, shifts, level, table, start, end, index + 1, last);
    let low = imax(start, entry_start(start, s, index));
    let high = imin(end, entry_end(start, s, index));
    lemma_covered(start, end, shift, index, start);
    lemma_part(start, end, shift, index);
    lemma_covered(start, end, shift, index, low);
    assert(shifts[level + 0] == shift);
    match t.read(table, index) {
        Ok(Descriptor::Table(next)) => {
            lemma_next_table(shifts, level, start, end, index);
            walk_goes_up(t, shifts, level + 1, next.addr(), low, high);
            let (v, w) = plan(t, shifts, level + 1, next.addr(), low, high);
            if w is Err {
                let (va, below) = walk_stops_at_the_first_obstacle(
                    t,
                    shifts,
                    level + 1,
                    next.addr(),
                    low,
                    high,
                );
                lemma_covered(start, end, shift, index, va);
                let chain = seq![table] + below;
                assert forall|j: int| 0 <= j < chain.len() - 1 implies #[trigger] leads_on(
                    t.read(chain[j], (va / pow2(shifts[level + j] as nat) as int) % 512),
                    chain,
                    j,
                ) by {
                    if j > 0 {
                        assert(chain[j] == below[j - 1] && chain[j + 1] == below[j]);
                        assert(leads_on(
                            t.read(
                                below[j - 1],
                                (va / pow2(shifts[level + 1 + (j - 1)] as nat) as int) % 512,
                            ),
                            below,
                            j - 1,
                        ));
                    }
                }
                assert(chain.last() == below.last());
                assert forall|a: int| start <= a < va implies #[trigger] finds_from(
                    found,
                    t,
                    shifts,
                    level,
                    table,
                    index,
                    a,
                ) by {
                    lemma_covered(start, end, shift, index, a);
                    if entry_index(a, s) >= index {
                        lemma_from_entry(start, end, shift, index, a);
                        assert(finds(v, t, shifts, level + 1, next.addr(), a));
                        assert(translation(t, shifts, level, table, a) == translation(
                            t,
                            shifts,
                            level + 1,
                            next.addr(),
                            a,
                        ));
                    } else {
                        assert forall|i: int| 0 <= i < found.len() implies !((
                        #[trigger] found[i]).1 <= a < found[i].2) by {
                            assert(low <= v[i].1);
                        }
                    }
                }
                (va, chain)
            } else {
                walk_finds_the_tables(t, shifts, level + 1, next.addr(), low, high);
                let (va, chain) = lemma_stops(t, shifts, level, table, start, end, index + 1);
                lemma_from_entry(start, end, shift, index + 1, va);
                assert(found == v + rest);
                lemma_entry(start, shift, index);
                let c = pow2(s) as int;
                let es = entry_start(start, s, index);
                assert(entry_start(start, s, index + 1) == es + c) by (nonlinear_arith)
                    requires
                        es == table_base(start, s) + index * c,
                        entry_start(start, s, index + 1) == table_base(start, s) + (index + 1) * c,
                ;
                assert forall|i: int| 0 <= i < found.len() implies start <= (
                #[trigger] found[i]).1 <= found[i].2 <= va by {
                    if i < v.len() {
                        assert(found[i] == v[i]);
                    } else {
                        assert(found[i] == rest[i - v.len()]);
                    }
                }
                assert forall|a: int| start <= a < va implies #[trigger] finds_from(
                    found,
                    t,
                    shifts,
                    level,
                    table,
                    index,
                    a,
                ) by {
                    lemma_covered(start, end, shift, index, a);
                    assert(finds_from(rest, t, shifts, level, table, index + 1, a));
                    lemma_join(t, shifts, level, table, start, end, index, next.addr(), v, rest, a);
                }
                (va, chain)
            }
        },
        Ok(Descriptor::Invalid) => {
            let (va, chain) = lemma_stops(t, shifts, level, table, start, end, index + 1);
            assert forall|a: int| start <= a < va implies #[trigger] finds_from(
                found,
                t,
                shifts,
                level,
                table,
                index,
                a,
            ) by {
                assert(finds_from(rest, t, shifts, level, table, index + 1, a));
            }
            (va, chain)
        },
        _ => {
            let chain = seq![table];
            assert forall|a: int| start <= a < low implies #[trigger] finds_from(
                found,
                t,
                shifts,
                level,
                table,
                index,
                a,
            ) by {
                if entry_index(a, s) >= index {
                    lemma_from_entry(start, end, shift, index, a);
                }
            }
            assert(stopped_by(t, shifts, level, chain, low, r->Err_0));
            (low, chain)
        },
    }
}

} // verus!
