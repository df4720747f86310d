//! What a tear-down does, step by step.
use vstd::arithmetic::power2::pow2;
use vstd::prelude::*;

use crate::error::{KernelError, Result};
use crate::memory::address::PA;
use crate::memory::paging::tear_down::{
    faithful, lemma_last_failed, mapping_entry, perform, released, replied, table_entry,
    tear_down_releases_what_was_not_skipped, torn, EntryKind, TeardownAction, TeardownCall,
    TeardownEntry, TeardownReply, TeardownStep,
};
use crate::memory::paging::{Descriptor, Tables, DESCRIPTORS_PER_PAGE};
use crate::memory::region::{PhysMemoryRegion, VirtMemoryRegion};
use crate::memory::PAGE_SIZE;

verus! {

/// From the `n`-th step on, each step has a reply that answers it.
pub open spec fn answered(log: Seq<TeardownStep>, n: int) -> bool {
    forall|i: int|
        n <= i < log.len() ==> match (#[trigger] log[i]).call {
            TeardownCall::Read(_, _) => log[i].reply is Entry || log[i].reply is Failed,
            TeardownCall::Ask(_) => log[i].reply is Action,
            TeardownCall::Free(_) => log[i].reply is Done,
            _ => log[i].reply is Done || log[i].reply is Failed,
        }
}

/// The memory of the given size at the physical address.
pub open spec fn frame_at(pa: PA, size: int) -> PhysMemoryRegion {
    PhysMemoryRegion::between(pa.addr() as int, pa.addr() + size)
}

/// The step asks about the frame.
pub open spec fn asks(
    step: TeardownStep,
    kind: EntryKind,
    depth: int,
    frame: PhysMemoryRegion,
) -> bool {
    step.call == TeardownCall::Ask(TeardownEntry { kind, depth: depth as u8, region: frame })
}

/// The steps from `low` up to `high` clear the entry, if the action says so, and then
/// release the frame.
pub open spec fn lets_go(
    log: Seq<TeardownStep>,
    low: int,
    high: int,
    table: usize,
    index: int,
    action: TeardownAction,
    frame: PhysMemoryRegion,
) -> bool {
    if action == TeardownAction::FreeAndClear {
        &&& high == low + 2
        &&& log[low].call == TeardownCall::Clear(table, index)
        &&& log[low].reply is Done
        &&& log[low + 1].call == TeardownCall::Free(frame)
    } else {
        &&& high == low + 1
        &&& log[low].call == TeardownCall::Free(frame)
    }
}

/// The table below the entry is torn down by the steps from `low` up to `high`, which ends
/// as given.
pub open spec fn below(
    log: Seq<TeardownStep>,
    shifts: Seq<usize>,
    level: int,
    pa: PA,
    base: int,
    depth: int,
    o: Seq<TeardownReply>,
    low: int,
    high: int,
    r: Result<()>,
) -> bool {
    &&& low <= high
    &&& torn(log.take(low), shifts, level, pa.addr(), base, depth as u8, 0, o) == (
        log.take(high),
        r,
    )
}

/// The steps from `low` up to `high` deal with the entry of the table: it is read; what it
/// stands for is asked about; if it is not to be skipped, a table is torn down, the entry
/// is cleared if this is asked for, and the frame is released, in this order.
pub open spec fn entry_done(
    log: Seq<TeardownStep>,
    shifts: Seq<usize>,
    level: int,
    table: usize,
    base: int,
    depth: int,
    o: Seq<TeardownReply>,
    index: int,
    low: int,
    high: int,
) -> bool {
    let size = pow2(shifts[level] as nat) as int;
    let va = base + index * size;
    &&& low < high <= log.len()
    &&& log[low].call == TeardownCall::Read(table, index)
    &&& match log[low].reply {
        TeardownReply::Entry(Descriptor::Table(pa)) => {
            let frame = frame_at(pa, PAGE_SIZE as int);
            &&& asks(log[low + 1], EntryKind::IntermediateTable, depth + 1, frame)
            &&& match log[low + 1].reply {
                TeardownReply::Action(TeardownAction::Skip) => high == low + 2,
                TeardownReply::Action(action) => exists|mid: int|
                    {
                        &&& #[trigger] below(
                            log,
                            shifts,
                            level + 1,
                            pa,
                            va,
                            depth + 1,
                            o,
                            low + 2,
                            mid,
                            Ok(()),
                        )
                        &&& lets_go(log, mid, high, table, index, action, frame)
                    },
                _ => false,
            }
        },
        TeardownReply::Entry(Descriptor::Mapped(pa, _)) => {
            let frame = frame_at(pa, size);
            &&& asks(
                log[low + 1],
                EntryKind::Mapping(VirtMemoryRegion::between(va, va + size)),
                depth,
                frame,
            )
            &&& match log[low + 1].reply {
                TeardownReply::Action(TeardownAction::Skip) => high == low + 2,
                TeardownReply::Action(action) => lets_go(
                    log,
                    low + 2,
                    high,
                    table,
                    index,
                    action,
                    frame,
                ),
                _ => false,
            }
        },
        TeardownReply::Entry(_) => high == low + 1,
        _ => false,
    }
}

/// The steps from `low` on deal with the entry of the table up to where the last one fails.
pub open spec fn entry_failed(
    log: Seq<TeardownStep>,
    shifts: Seq<usize>,
    level: int,
    table: usize,
    base: int,
    depth: int,
    o: Seq<TeardownReply>,
    index: int,
    low: int,
    e: KernelError,
) -> bool {
    let size = pow2(shifts[level] as nat) as int;
    let va = base + index * size;
    let high = log.len() as int;
    let cleared = log.last().call == TeardownCall::Clear(table, index);
    &&& low < high
    &&& log.last().reply == TeardownReply::Failed(e)
    &&& log[low].call == TeardownCall::Read(table, index)
    &&& match log[low].reply {
        TeardownReply::Entry(Descriptor::Table(pa)) => {
            &&& asks(
                log[low + 1],
                EntryKind::IntermediateTable,
                depth + 1,
                frame_at(pa, PAGE_SIZE as int),
            )
            &&& log[low + 1].reply is Action
            &&& log[low + 1].reply != TeardownReply::Action(TeardownAction::Skip)
            &&& {
                ||| below(
                    log,
                    shifts,
                    level + 1,
                    pa,
                    va,
                    depth + 1,
                    o,
                    low + 2,
                    high,
                    Err(e),
                )
                ||| cleared && below(
                    log,
                    shifts,
                    level + 1,
                    pa,
                    va,
                    depth + 1,
                    o,
                    low + 2,
                    high - 1,
                    Ok(()),
                ) && log[low + 1].reply == TeardownReply::Action(TeardownAction::FreeAndClear)
            }
        },
        TeardownReply::Entry(Descriptor::Mapped(pa, _)) => {
            &&& asks(
                log[low + 1],
                EntryKind::Mapping(VirtMemoryRegion::between(va, va + size)),
                depth,
                frame_at(pa, size),
            )
            &&& log[low + 1].reply == TeardownReply::Action(TeardownAction::FreeAndClear)
            &&& cleared
            &&& high == low + 3
        },
        TeardownReply::Failed(_) => high == low + 1,
        _ => false,
    }
}

/// The marks divide the steps from the `n`-th one on among the entries of the table from
/// `first` on: all of them, or those up to the one where the tear-down fails.
pub open spec fn divided(
    log: Seq<TeardownStep>,
    r: Result<()>,
    shifts: Seq<usize>,
    level: int,
    table: usize,
    base: int,
    depth: int,
    o: Seq<TeardownReply>,
    n: int,
    first: int,
    marks: Seq<int>,
) -> bool {
    let left = DESCRIPTORS_PER_PAGE - first;
    &&& marks.len() > 0
    &&& marks[0] == n
    &&& forall|j: int|
        0 <= j < marks.len() - 1 ==> entry_done(
            log,
            shifts,
            level,
            table,
            base,
            depth,
            o,
            first + j,
            #[trigger] marks[j],
            marks[j + 1],
        )
    &&& match r {
        Ok(_) => marks.len() == left + 1 && marks.last() == log.len(),
        Err(e) => marks.len() <= left && entry_failed(
            log,
            shifts,
            level,
            table,
            base,
            depth,
            o,
            first + marks.len() - 1,
            marks.last(),
            e,
        ),
    }
}

/// What has been said of the marks of later entries, with the first of them added.
proof fn lemma_one_more(
    log: Seq<TeardownStep>,
    r: Result<()>,
    shifts: Seq<usize>,
    level: int,
    table: usize,
    base: int,
    depth: int,
    o: Seq<TeardownReply>,
    n: int,
    mid: int,
    first: int,
    marks: Seq<int>,
)
    requires
        divided(log, r, shifts, level, table, base, depth, o, mid, first + 1, marks),
        entry_done(log, shifts, level, table, base, depth, o, first, n, mid),
    ensures
        divided(log, r, shifts, level, table, base, depth, o, n, first, seq![n] + marks),
{
    let more = seq![n] + marks;
    assert forall|j: int| 0 <= j < more.len() - 1 implies entry_done(
        log,
        shifts,
        level,
        table,
        base,
        depth,
        o,
        first + j,
        #[trigger] more[j],
        more[j + 1],
    ) by {
        assert(more[j + 1] == marks[j]);
        if j > 0 {
            assert(more[j] == marks[j - 1]);
            assert(first + 1 + (j - 1) == first + j);
        }
    }
    assert(more.last() == marks.last());
    assert(first + 1 + marks.len() - 1 == first + more.len() - 1);
}

/// Finds the marks.
proof fn lemma_marks(
    log: Seq<TeardownStep>,
    shifts: Seq<usize>,
    level: int,
    table: usize,
    base: int,
    depth: u8,
    cursor: int,
    o: Seq<TeardownReply>,
) -> (marks: Seq<int>)
    requires
        0 <= level < shifts.len(),
        0 <= cursor <= DESCRIPTORS_PER_PAGE,
        answered(
            torn(log, shifts, level, table, base, depth, cursor, o).0,
            log.len() as int,
        ),
    ensures
        ({
            let (after, r) = torn(log, shifts, level, table, base, depth, cursor, o);
            divided(
                after,
                r,
                shifts,
                level,
                table,
                base,
                depth as int,
                o,
                log.len() as int,
                cursor,
                marks,
            )
        }),
    decreases DESCRIPTORS_PER_PAGE - cursor, 1int,
{
    let n = log.len() as int;
    let d = depth as int;
    let (after, r) = torn(log, shifts, level, table, base, depth, cursor, o);
    if cursor >= DESCRIPTORS_PER_PAGE {
        seq![n]
    } else {
        let size = pow2(shifts[level] as nat) as int;
        let va = base + cursor * size;
        let read = perform(log, TeardownCall::Read(table, cursor), o);
        assert(read.len() == n + 1 && read[n] == read.last());
        match replied(read) {
            TeardownReply::Failed(e) => { seq![n] },
            TeardownReply::Entry(Descriptor::Table(pa)) => {
                let entry = table_entry(pa, depth);
                let asked = perform(read, TeardownCall::Ask(entry), o);
                assert(asked[n] == read[n] && asked[n + 1] == asked.last());
                match replied(asked) {
                    TeardownReply::Action(TeardownAction::Skip) => {
                        lemma_goes_on_from(asked, shifts, level, table, base, depth, cursor, o);
                        assert(after[n] == asked[n] && after[n + 1] == asked[n + 1]);
                        lemma_next(log, asked, shifts, level, table, base, depth, cursor, o)
                    },
                    TeardownReply::Action(action) => {
                        let deeper = (depth + 1) as u8;
                        let (low, b) = torn(asked, shifts, level + 1, pa.addr(), va, deeper, 0, o);
                        tear_down_releases_what_was_not_skipped(
                            asked,
                            shifts,
                            level + 1,
                            pa.addr(),
                            va,
                            deeper,
                            0,
                            o,
                        );
                        lemma_last_failed(asked, shifts, level + 1, pa.addr(), va, deeper, 0, o);
                        let m = low.len() as int;
                        assert(low[n] == asked[n] && low[n + 1] == asked[n + 1]);
                        let (freed, c) = released(low, table, cursor, action, entry.region, o);
                        assert(freed[n] == low[n] && freed[n + 1] == low[n + 1]);
                        assert(b is Ok ==> b->Ok_0 == ());
                        if b is Ok && c is Ok {
                            lemma_goes_on_from(freed, shifts, level, table, base, depth, cursor, o);
                            assert(after[n] == freed[n] && after[n + 1] == freed[n + 1]);
                            assert(after[m] == freed[m]);
                            assert(action == TeardownAction::FreeAndClear ==> after[m + 1]
                                == freed[m + 1]);
                            lemma_begins(asked, after);
                            lemma_begins(low, after);
                            assert(below(
                                after,
                                shifts,
                                level + 1,
                                pa,
                                va,
                                d + 1,
                                o,
                                n + 2,
                                m,
                                Ok(()),
                            ));
                            lemma_next(log, freed, shifts, level, table, base, depth, cursor, o)
                        } else {
                            lemma_begins(asked, after);
                            lemma_begins(low, after);
                            assert(after.last().reply is Failed);
                            let marks = seq![n];
                            assert(entry_failed(
                                after,
                                shifts,
                                level,
                                table,
                                base,
                                d,
                                o,
                                cursor,
                                n,
                                r->Err_0,
                            ));
                            marks
                        }
                    },
                    _ => {
                        assert(after[n + 1].call is Ask);
                        seq![n]
                    },
                }
            },
            TeardownReply::Entry(Descriptor::Mapped(pa, _)) => {
                let entry = mapping_entry(pa, va, size, depth);
                let asked = perform(read, TeardownCall::Ask(entry), o);
                assert(asked[n] == read[n] && asked[n + 1] == asked.last());
                match replied(asked) {
                    TeardownReply::Action(TeardownAction::Skip) => {
                        lemma_goes_on_from(asked, shifts, level, table, base, depth, cursor, o);
                        assert(after[n] == asked[n] && after[n + 1] == asked[n + 1]);
                        lemma_next(log, asked, shifts, level, table, base, depth, cursor, o)
                    },
                    TeardownReply::Action(action) => {
                        let (freed, c) = released(asked, table, cursor, action, entry.region, o);
                        assert(freed[n] == asked[n] && freed[n + 1] == asked[n + 1]);
                        if c is Ok {
                            lemma_goes_on_from(freed, shifts, level, table, base, depth, cursor, o);
                            assert(after[n] == freed[n] && after[n + 1] == freed[n + 1]);
                            assert(after[n + 2] == freed[n + 2]);
                            assert(action == TeardownAction::FreeAndClear ==> after[n + 3]
                                == freed[n + 3]);
                            lemma_next(log, freed, shifts, level, table, base, depth, cursor, o)
                        } else {
                            seq![n]
                        }
                    },
                    _ => {
                        assert(after[n + 1].call is Ask);
                        seq![n]
                    },
                }
            },
            _ => {
                lemma_goes_on_from(read, shifts, level, table, base, depth, cursor, o);
                assert(after[n] == read[n]);
                lemma_next(log, read, shifts, level, table, base, depth, cursor, o)
            },
        }
    }
}

/// The rest of a tear-down, once an entry is done.
proof fn lemma_next(
    log: Seq<TeardownStep>,
    next: Seq<TeardownStep>,
    shifts: Seq<usize>,
    level: int,
    table: usize,
    base: int,
    depth: u8,
    cursor: int,
    o: Seq<TeardownReply>,
) -> (marks: Seq<int>)
    requires
        0 <= level < shifts.len(),
        0 <= cursor < DESCRIPTORS_PER_PAGE,
        log.len() <= next.len(),
        torn(log, shifts, level, table, base, depth, cursor, o) == torn(
            next,
            shifts,
            level,
            table,
            base,
            depth,
            cursor + 1,
            o,
        ),
        answered(
            torn(log, shifts, level, table, base, depth, cursor, o).0,
            log.len() as int,
        ),
        entry_done(
            torn(log, shifts, level, table, base, depth, cursor, o).0,
            shifts,
            level,
            table,
            base,
            depth as int,
            o,
            cursor,
            log.len() as int,
            next.len() as int,
        ),
    ensures
        ({
            let (after, r) = torn(log, shifts, level, table, base, depth, cursor, o);
            divided(
                after,
                r,
                shifts,
                level,
                table,
                base,
                depth as int,
                o,
                log.len() as int,
                cursor,
                marks,
            )
        }),
    decreases DESCRIPTORS_PER_PAGE - cursor, 0int,
{
    let (after, r) = torn(log, shifts, level, table, base, depth, cursor, o);
    let rest = lemma_marks(next, shifts, level, table, base, depth, cursor + 1, o);
    lemma_one_more(
        after,
        r,
        shifts,
        level,
        table,
        base,
        depth as int,
        o,
        log.len() as int,
        next.len() as int,
        cursor,
        rest,
    );
    seq![log.len() as int] + rest
}

/// The record of the entries up to the one at `cursor` is the beginning of the whole record.
proof fn lemma_goes_on_from(
    next: Seq<TeardownStep>,
    shifts: Seq<usize>,
    level: int,
    table: usize,
    base: int,
    depth: u8,
    cursor: int,
    o: Seq<TeardownReply>,
)
    ensures
        ({
            let after = torn(next, shifts, level, table, base, depth, cursor + 1, o).0;
            &&& next.len() <= after.len()
            &&& forall|i: int| 0 <= i < next.len() ==> #[trigger] after[i] == next[i]
        }),
{
    tear_down_releases_what_was_not_skipped(
        next,
        shifts,
        level,
        table,
        base,
        depth,
        cursor + 1,
        o,
    );
}

/// A record that begins like another one.
proof fn lemma_begins(log: Seq<TeardownStep>, after: Seq<TeardownStep>)
    requires
        log.len() <= after.len(),
        forall|i: int| 0 <= i < log.len() ==> #[trigger] after[i] == log[i],
    ensures
        after.take(log.len() as int) == log,
{
    assert(after.take(log.len() as int) =~= log);
}

/// What a tear-down did has been answered.
pub proof fn tear_down_is_answered(tables: Tables, n: int, log: Seq<TeardownStep>)
    requires
        0 <= n,
        faithful(tables, n, log),
    ensures
        answered(log, n),
    decreases log.len(),
{
    if log.len() > n {
        tear_down_is_answered(tables, n, log.drop_last());
        assert forall|i: int| n <= i < log.len() implies match (#[trigger] log[i]).call {
            TeardownCall::Read(_, _) => log[i].reply is Entry || log[i].reply is Failed,
            TeardownCall::Ask(_) => log[i].reply is Action,
            TeardownCall::Free(_) => log[i].reply is Done,
            _ => log[i].reply is Done || log[i].reply is Failed,
        } by {
            if i < log.len() - 1 {
                assert(log.drop_last()[i] == log[i]);
            }
        }
    }
}

/// A tear-down deals with all entries of the table, one after the other and each in the
/// way that it is told, and stops with the error of the first step that fails. A table of
/// the last level is handed on.
pub proof fn tear_down_deals_with_each_entry(
    log: Seq<TeardownStep>,
    shifts: Seq<usize>,
    level: int,
    table: usize,
    base: int,
    depth: u8,
    o: Seq<TeardownReply>,
    after: Seq<TeardownStep>,
    r: Result<()>,
)
    requires
        0 <= level <= shifts.len(),
        (after, r) == torn(log, shifts, level, table, base, depth, 0, o),
        answered(after, log.len() as int),
    ensures
        after.len() >= log.len(),
        after.take(log.len() as int) == log,
        level < shifts.len() ==> exists|marks: Seq<int>| #[trigger]
            divided(
                after,
                r,
                shifts,
                level,
                table,
                base,
                depth as int,
                o,
                log.len() as int,
                0,
                marks,
            ),
        level == shifts.len() ==> {
            &&& after.len() == log.len() + 1
            &&& after.last().call == TeardownCall::Leaf(table, base, depth)
            &&& match after.last().reply {
                TeardownReply::Failed(e) => r == Err::<(), KernelError>(e),
                _ => r is Ok,
            }
        },
{
    tear_down_releases_what_was_not_skipped(log, shifts, level, table, base, depth, 0, o);
    lemma_begins(log, after);
    if level < shifts.len() {
        let marks = lemma_marks(log, shifts, level, table, base, depth, 0, o);
        assert(divided(
            after,
            r,
            shifts,
            level,
            table,
            base,
            depth as int,
            o,
            log.len() as int,
            0,
            marks,
        ));
    }
}

} // verus!
