//! Page-table tear-down and deallocation.
//!
//! As for a walk, the tables are described by the shifts of the levels above the last
//! one, and what is done with the tables of the last level is up to the architecture.
//!
//! What a tear-down does depends on what it finds in the tables, and on what it is told
//! to do with it. So what it does is described as a function of the replies to its
//! steps: the reply at index `i` is the one to the `i`-th step of its record.
use vstd::arithmetic::power2::pow2;
use vstd::prelude::*;

use crate::error::{KernelError, Result};
use crate::memory::address::{PA, VA};
use crate::memory::page::lemma_one_shl;
use crate::memory::paging::walk::shifts_ok;
use crate::memory::paging::walk_laws::nested;
use crate::memory::paging::{Descriptor, Tables, DESCRIPTORS_PER_PAGE};
use crate::memory::region::{PhysMemoryRegion, VirtMemoryRegion};
use crate::memory::PAGE_SIZE;

verus! {

/// Identifies the kind of physical frame a [`TeardownEntry`] describes.
#[derive(Clone, Copy)]
pub enum EntryKind {
    /// A leaf page mapping.
    ///
    /// The [`VirtMemoryRegion`] covers the entire mapping virtual region.
    Mapping(VirtMemoryRegion),
    /// An intermediate page table frame (not the root).
    IntermediateTable,
    /// The root page table frame.
    RootTable,
}

/// Describes a single physical frame encountered during a page table tear-down.
#[derive(Clone, Copy)]
pub struct TeardownEntry {
    /// What kind of frame this is.
    ///
    /// For [`EntryKind::Mapping`] entries the virtual region is embedded in the
    /// variant. [`EntryKind::IntermediateTable`] and [`EntryKind::RootTable`] entries
    /// describe infrastructure frames and carry no virtual-address information.
    pub kind: EntryKind,
    /// Depth in the page table tree. Root = 0, incrementing toward leaves.
    ///
    /// Intermediate table frames and the leaf mappings within the same table share
    /// the same depth value; [`EntryKind`] disambiguates.
    pub depth: u8,
    /// The physical memory region of this frame.
    pub region: PhysMemoryRegion,
}

/// The action the walker should take for a [`TeardownEntry`].
#[derive(Clone, Copy, PartialEq, Eq, Structural)]
pub enum TeardownAction {
    /// Recurse into this subtree (for [`EntryKind::IntermediateTable`] entries) and
    /// then release its frame. For leaf entries, just release the frame.
    Free,
    /// Like [`TeardownAction::Free`], but also clear the page table entry in the
    /// parent table *before* the frame is released, closing the window in which a
    /// stale entry points to it.
    FreeAndClear,
    /// Skip this entry entirely. For [`EntryKind::IntermediateTable`] entries, the
    /// subtree is not walked. The frame is not released.
    Skip,
}

/// A step of a tear-down.
pub ghost enum TeardownCall {
    /// Read the entry of a table.
    Read(usize, int),
    /// Ask what to do with an entry.
    Ask(TeardownEntry),
    /// Clear the entry of a table.
    Clear(usize, int),
    /// Release a frame.
    Free(PhysMemoryRegion),
    /// Tear down a table of the last level, which covers the addresses from the given one
    /// on and has the given depth.
    Leaf(usize, int, u8),
}

/// The reply to a [`TeardownCall`].
pub ghost enum TeardownReply {
    /// What the entry stands for.
    Entry(Descriptor),
    /// What to do with the entry.
    Action(TeardownAction),
    /// The step has been done.
    Done,
    /// The step failed.
    Failed(KernelError),
}

/// A [`TeardownCall`] together with the [`TeardownReply`] to it.
pub ghost struct TeardownStep {
    /// What was done.
    pub call: TeardownCall,
    /// What came back.
    pub reply: TeardownReply,
}

/// The reply that a result of reading stands for.
pub open spec fn entry_reply(r: Result<Descriptor>) -> TeardownReply {
    match r {
        Ok(desc) => TeardownReply::Entry(desc),
        Err(e) => TeardownReply::Failed(e),
    }
}

/// The reply that a result without a value stands for.
pub open spec fn done_reply(r: Result<()>) -> TeardownReply {
    match r {
        Ok(_) => TeardownReply::Done,
        Err(e) => TeardownReply::Failed(e),
    }
}

/// The steps that a context has been asked for, in order.
pub type TeardownRecord = Seq<TeardownStep>;

/// Access to the tables, and what is to be done with what is found in them.
///
/// What the context decides, and what comes of the tables of the last level, is up to it.
/// It keeps a record of what it has been asked for, with its replies.
pub trait TeardownContext {
    /// What the context has been asked for.
    spec fn steps(&self) -> TeardownRecord;

    /// The tables above the last level.
    spec fn tables(&self) -> Tables;

    /// Reads the entry of a table. Fails if the table cannot be accessed.
    fn read_entry(&mut self, table: PA, index: usize) -> (r: Result<Descriptor>)
        requires
            index < DESCRIPTORS_PER_PAGE,
        ensures
            r == old(self).tables().read(table.addr(), index as int),
            final(self).tables() == old(self).tables(),
            final(self).steps() == old(self).steps().push(
                (TeardownStep {
                    call: TeardownCall::Read(table.addr(), index as int),
                    reply: entry_reply(r),
                }),
            ),
    ;

    /// Clears the entry of a table. Fails if the table cannot be accessed.
    fn clear_entry(&mut self, table: PA, index: usize) -> (r: Result<()>)
        requires
            index < DESCRIPTORS_PER_PAGE,
        ensures
            r == old(self).tables().access(table.addr()),
            final(self).tables() == (match r {
                Ok(_) => old(self).tables().cleared(table.addr(), index as int),
                Err(_) => old(self).tables(),
            }),
            final(self).steps() == old(self).steps().push(
                (TeardownStep {
                    call: TeardownCall::Clear(table.addr(), index as int),
                    reply: done_reply(r),
                }),
            ),
    ;

    /// Called for each entry *before* any recursion or deallocation. Returns the action
    /// the walker should take. Must not free physical memory.
    fn control(&mut self, entry: &TeardownEntry) -> (r: TeardownAction)
        ensures
            final(self).tables() == old(self).tables(),
            final(self).steps() == old(self).steps().push(
                (TeardownStep {
                    call: TeardownCall::Ask(*entry),
                    reply: TeardownReply::Action(r),
                }),
            ),
    ;

    /// Called by the walker to physically release a frame, which it does not look at
    /// any more.
    fn deallocate(&mut self, region: PhysMemoryRegion)
        ensures
            final(self).tables() == old(self).tables(),
            final(self).steps() == old(self).steps().push(
                (TeardownStep { call: TeardownCall::Free(region), reply: TeardownReply::Done }),
            ),
    ;

    /// Tears down a table of the last level.
    fn tear_down_leaf(&mut self, table: PA, base_va: VA, depth: u8) -> (r: Result<()>)
        ensures
            final(self).tables() == old(self).tables(),
            final(self).steps() == old(self).steps().push(
                (TeardownStep {
                    call: TeardownCall::Leaf(table.addr(), base_va.addr() as int, depth),
                    reply: done_reply(r),
                }),
            ),
    ;
}

/// The tables after a step.
pub open spec fn tables_after(tables: Tables, step: TeardownStep) -> Tables {
    match (step.call, step.reply) {
        (TeardownCall::Clear(table, index), TeardownReply::Done) => tables.cleared(table, index),
        _ => tables,
    }
}

/// The reply answers the step, and is what the tables say.
pub open spec fn answers(tables: Tables, step: TeardownStep) -> bool {
    match step.call {
        TeardownCall::Read(table, index) => step.reply == entry_reply(tables.read(table, index)),
        TeardownCall::Clear(table, _) => step.reply == done_reply(tables.access(table)),
        TeardownCall::Ask(_) => step.reply is Action,
        TeardownCall::Free(_) => step.reply is Done,
        TeardownCall::Leaf(_, _, _) => step.reply is Done || step.reply is Failed,
    }
}

/// The tables once all steps from the `n`-th one on have been taken.
pub open spec fn tables_at(tables: Tables, n: int, log: Seq<TeardownStep>) -> Tables
    decreases log.len(),
{
    if log.len() <= n || log.len() == 0 {
        tables
    } else {
        tables_after(tables_at(tables, n, log.drop_last()), log.last())
    }
}

/// From the `n`-th step on, where the tables are the given ones, each entry that is read is
/// the one that is in the tables at that time, and steps on the tables fail only where the
/// table cannot be accessed; and each step has been answered.
pub open spec fn faithful(tables: Tables, n: int, log: Seq<TeardownStep>) -> bool
    decreases log.len(),
{
    log.len() <= n || log.len() == 0 || {
        &&& faithful(tables, n, log.drop_last())
        &&& answers(tables_at(tables, n, log.drop_last()), log.last())
    }
}

/// The record and the tables come from the given tables.
spec fn comes_from(tables: Tables, n: int, log: Seq<TeardownStep>, now: Tables) -> bool {
    0 <= n <= log.len() && faithful(tables, n, log) && now == tables_at(tables, n, log)
}

/// Whatever one record and its tables come from, the other ones do too.
spec fn goes_on(
    log1: Seq<TeardownStep>,
    tables1: Tables,
    log2: Seq<TeardownStep>,
    tables2: Tables,
) -> bool {
    forall|t: Tables, n: int| #[trigger]
        comes_from(t, n, log1, tables1) ==> comes_from(t, n, log2, tables2)
}

/// One step on the tables.
proof fn lemma_goes_on(
    log: Seq<TeardownStep>,
    tables: Tables,
    step: TeardownStep,
    after: Seq<TeardownStep>,
)
    requires
        answers(tables, step),
        after == log.push(step),
    ensures
        goes_on(log, tables, after, tables_after(tables, step)),
{
    assert(after.drop_last() =~= log);
}

/// The replies in a record.
pub open spec fn replies(log: Seq<TeardownStep>) -> Seq<TeardownReply> {
    Seq::new(log.len(), |i: int| log[i].reply)
}

/// Takes a step.
pub open spec fn perform(
    log: Seq<TeardownStep>,
    call: TeardownCall,
    o: Seq<TeardownReply>,
) -> Seq<TeardownStep> {
    log.push(TeardownStep { call, reply: o[log.len() as int] })
}

/// The reply to the latest step.
pub open spec fn replied(log: Seq<TeardownStep>) -> TeardownReply {
    log.last().reply
}

/// The entry of the table is cleared if the action says so, before the frame is released.
pub open spec fn released(
    log: Seq<TeardownStep>,
    table: usize,
    index: int,
    action: TeardownAction,
    region: PhysMemoryRegion,
    o: Seq<TeardownReply>,
) -> (Seq<TeardownStep>, Result<()>) {
    if action == TeardownAction::FreeAndClear {
        let cleared = perform(log, TeardownCall::Clear(table, index), o);
        match replied(cleared) {
            TeardownReply::Failed(e) => (cleared, Err(e)),
            _ => (perform(cleared, TeardownCall::Free(region), o), Ok(())),
        }
    } else {
        (perform(log, TeardownCall::Free(region), o), Ok(()))
    }
}

/// The entry for a table.
pub open spec fn table_entry(pa: PA, depth: u8) -> TeardownEntry {
    TeardownEntry {
        kind: EntryKind::IntermediateTable,
        depth: (depth + 1) as u8,
        region: PhysMemoryRegion::between(pa.addr() as int, pa.addr() + PAGE_SIZE),
    }
}

/// The entry for mapped memory.
pub open spec fn mapping_entry(pa: PA, va: int, size: int, depth: u8) -> TeardownEntry {
    TeardownEntry {
        kind: EntryKind::Mapping(VirtMemoryRegion::between(va, va + size)),
        depth,
        region: PhysMemoryRegion::between(pa.addr() as int, pa.addr() + size),
    }
}

/// The tear-down of the entries of the table from `cursor` on: its steps, after those in
/// `log`, and how it ends.
pub open spec fn torn(
    log: Seq<TeardownStep>,
    shifts: Seq<usize>,
    level: int,
    table: usize,
    base: int,
    depth: u8,
    cursor: int,
    o: Seq<TeardownReply>,
) -> (Seq<TeardownStep>, Result<()>)
    decreases shifts.len() - level, DESCRIPTORS_PER_PAGE - cursor,
{
    if level >= shifts.len() {
        // A table of the last level.
        let done = perform(log, TeardownCall::Leaf(table, base, depth), o);
        match replied(done) {
            TeardownReply::Failed(e) => (done, Err(e)),
            _ => (done, Ok(())),
        }
    } else if cursor >= DESCRIPTORS_PER_PAGE {
        (log, Ok(()))
    } else {
        let size = pow2(shifts[level] as nat) as int;
        let va = base + cursor * size;
        let read = perform(log, TeardownCall::Read(table, cursor), o);
        match replied(read) {
            TeardownReply::Failed(e) => (read, Err(e)),
            TeardownReply::Entry(Descriptor::Table(pa)) => {
                let entry = table_entry(pa, depth);
                let asked = perform(read, TeardownCall::Ask(entry), o);
                match replied(asked) {
                    TeardownReply::Action(TeardownAction::Skip) => torn(
                        asked,
                        shifts,
                        level,
                        table,
                        base,
                        depth,
                        cursor + 1,
                        o,
                    ),
                    TeardownReply::Action(action) => {
                        // The child table comes first.
                        let (below, r) = torn(
                            asked,
                            shifts,
                            level + 1,
                            pa.addr(),
                            va,
                            (depth + 1) as u8,
                            0,
                            o,
                        );
                        match r {
                            Err(e) => (below, Err(e)),
                            Ok(_) => {
                                let (freed, r) = released(
                                    below,
                                    table,
                                    cursor,
                                    action,
                                    entry.region,
                                    o,
                                );
                                match r {
                                    Err(e) => (freed, Err(e)),
                                    Ok(_) => torn(
                                        freed,
                                        shifts,
                                        level,
                                        table,
                                        base,
                                        depth,
                                        cursor + 1,
                                        o,
                                    ),
                                }
                            },
                        }
                    },
                    _ => (asked, Ok(())),
                }
            },
            TeardownReply::Entry(Descriptor::Mapped(pa, _)) => {
                let entry = mapping_entry(pa, va, size, depth);
                let asked = perform(read, TeardownCall::Ask(entry), o);
                match replied(asked) {
                    TeardownReply::Action(TeardownAction::Skip) => torn(
                        asked,
                        shifts,
                        level,
                        table,
                        base,
                        depth,
                        cursor + 1,
                        o,
                    ),
                    TeardownReply::Action(action) => {
                        let (freed, r) = released(asked, table, cursor, action, entry.region, o);
                        match r {
                            Err(e) => (freed, Err(e)),
                            Ok(_) => torn(
                                freed,
                                shifts,
                                level,
                                table,
                                base,
                                depth,
                                cursor + 1,
                                o,
                            ),
                        }
                    },
                    _ => (asked, Ok(())),
                }
            },
            _ => torn(read, shifts, level, table, base, depth, cursor + 1, o),
        }
    }
}

/// What the table covers lies in the address space.
pub open spec fn base_ok(shifts: Seq<usize>, level: int, base: int) -> bool {
    level < shifts.len() ==> base + pow2((shifts[level] + 9) as nat) <= usize::MAX + 1
}

/// The first `n` replies are the same.
spec fn agree(o1: Seq<TeardownReply>, o2: Seq<TeardownReply>, n: nat) -> bool {
    forall|i: int| 0 <= i < n ==> #[trigger] o1[i] == o2[i]
}

/// `a` is the beginning of `b`.
spec fn extends(a: Seq<TeardownStep>, b: Seq<TeardownStep>) -> bool {
    &&& a.len() <= b.len()
    &&& forall|i: int| 0 <= i < a.len() ==> #[trigger] b[i] == a[i]
}

/// A tear-down only adds to the record, and needs only the replies to its own steps.
proof fn lemma_torn_local(
    log: Seq<TeardownStep>,
    shifts: Seq<usize>,
    level: int,
    table: usize,
    base: int,
    depth: u8,
    cursor: int,
    o1: Seq<TeardownReply>,
    o2: Seq<TeardownReply>,
)
    ensures
        extends(log, torn(log, shifts, level, table, base, depth, cursor, o1).0),
        agree(o1, o2, torn(log, shifts, level, table, base, depth, cursor, o1).0.len()) ==> torn(
            log,
            shifts,
            level,
            table,
            base,
            depth,
            cursor,
            o2,
        ) == torn(log, shifts, level, table, base, depth, cursor, o1),
    decreases shifts.len() - level, DESCRIPTORS_PER_PAGE - cursor,
{
    if level < shifts.len() && cursor < DESCRIPTORS_PER_PAGE {
        let size = pow2(shifts[level] as nat) as int;
        let va = base + cursor * size;
        let read = perform(log, TeardownCall::Read(table, cursor), o1);
        match replied(read) {
            TeardownReply::Failed(e) => {},
            TeardownReply::Entry(Descriptor::Table(pa)) => {
                let entry = table_entry(pa, depth);
                let asked = perform(read, TeardownCall::Ask(entry), o1);
                match replied(asked) {
                    TeardownReply::Action(TeardownAction::Skip) => {
                        lemma_torn_local(asked, shifts, level, table, base, depth, cursor + 1, o1, o2);
                    },
                    TeardownReply::Action(action) => {
                        lemma_torn_local(
                            asked,
                            shifts,
                            level + 1,
                            pa.addr(),
                            va,
                            (depth + 1) as u8,
                            0,
                            o1,
                            o2,
                        );
                        let (below, r) = torn(
                            asked,
                            shifts,
                            level + 1,
                            pa.addr(),
                            va,
                            (depth + 1) as u8,
                            0,
                            o1,
                        );
                        let freed = released(below, table, cursor, action, entry.region, o1).0;
                        lemma_torn_local(freed, shifts, level, table, base, depth, cursor + 1, o1, o2);
                    },
                    _ => {},
                }
            },
            TeardownReply::Entry(Descriptor::Mapped(pa, _)) => {
                let entry = mapping_entry(pa, va, size, depth);
                let asked = perform(read, TeardownCall::Ask(entry), o1);
                match replied(asked) {
                    TeardownReply::Action(TeardownAction::Skip) => {
                        lemma_torn_local(asked, shifts, level, table, base, depth, cursor + 1, o1, o2);
                    },
                    TeardownReply::Action(action) => {
                        let freed = released(asked, table, cursor, action, entry.region, o1).0;
                        lemma_torn_local(freed, shifts, level, table, base, depth, cursor + 1, o1, o2);
                    },
                    _ => {},
                }
            },
            _ => {
                lemma_torn_local(read, shifts, level, table, base, depth, cursor + 1, o1, o2);
            },
        }
    }
}

/// A tear-down of one table, up to the entry at `cursor`, has led to the given record:
/// whatever the rest of the tear-down comes to, the whole comes to the same.
spec fn so_far(
    before: Seq<TeardownStep>,
    shifts: Seq<usize>,
    level: int,
    table: usize,
    base: int,
    depth: u8,
    cursor: int,
    log: Seq<TeardownStep>,
) -> bool {
    forall|o: Seq<TeardownReply>|
        #![trigger torn(log, shifts, level, table, base, depth, cursor, o)]
        agree(replies(log), o, log.len()) ==> torn(
            before,
            shifts,
            level,
            table,
            base,
            depth,
            0,
            o,
        ) == torn(log, shifts, level, table, base, depth, cursor, o)
}

/// The step that led from one record to the next is the same for replies that begin like
/// those in the record.
proof fn lemma_same_step(
    log: Seq<TeardownStep>,
    call: TeardownCall,
    next: Seq<TeardownStep>,
    last: Seq<TeardownStep>,
    o: Seq<TeardownReply>,
)
    requires
        next.len() == log.len() + 1,
        extends(log, next),
        next.last().call == call,
        extends(next, last),
        agree(replies(last), o, last.len()),
    ensures
        perform(log, call, o) == next,
{
    assert(last[log.len() as int] == next[log.len() as int]);
    assert(replies(last)[log.len() as int] == o[log.len() as int]);
    assert(perform(log, call, o) =~= next);
}

/// More steps on the tables.
proof fn lemma_goes_on_with(
    t: Tables,
    n: int,
    log: Seq<TeardownStep>,
    tables: Tables,
    after: Seq<TeardownStep>,
)
    requires
        comes_from(t, n, log, tables),
        extends(log, after),
        faithful(tables, log.len() as int, after),
    ensures
        comes_from(t, n, after, tables_at(tables, log.len() as int, after)),
    decreases after.len(),
{
    if after.len() == log.len() {
        assert(after =~= log);
    } else {
        let less = after.drop_last();
        assert(extends(log, less));
        lemma_goes_on_with(t, n, log, tables, less);
    }
}

/// A tear-down of page tables.
pub struct RecursiveTeardownWalker<C: TeardownContext> {
    ctx: C,
}

impl<C: TeardownContext> RecursiveTeardownWalker<C> {
    /// The tables, and what is to be done with them.
    pub closed spec fn context(self) -> C {
        self.ctx
    }

    /// What the context has been asked for.
    pub open spec fn steps(self) -> Seq<TeardownStep> {
        self.context().steps()
    }

    /// The tables above the last level.
    pub open spec fn tables(self) -> Tables {
        self.context().tables()
    }

    /// Prepares a tear-down.
    pub fn new(ctx: C) -> (r: Self)
        ensures
            r.context() == ctx,
    {
        RecursiveTeardownWalker { ctx }
    }

    /// Ends the tear-down.
    pub fn into_inner(self) -> (r: C)
        ensures
            r == self.context(),
    {
        self.ctx
    }

    /// Clears the entry of the table if the action says so, and releases the frame.
    fn release(
        &mut self,
        table: PA,
        index: usize,
        action: TeardownAction,
        region: PhysMemoryRegion,
    ) -> (r: Result<()>)
        requires
            index < DESCRIPTORS_PER_PAGE,
        ensures
            extends(old(self).steps(), final(self).steps()),
            goes_on(
                old(self).steps(),
                old(self).tables(),
                final(self).steps(),
                final(self).tables(),
            ),
            r matches Err(e) ==> final(self).steps().last().reply == TeardownReply::Failed(e),
            forall|o: Seq<TeardownReply>|
                #![trigger released(old(self).steps(), table.addr(), index as int, action, region, o)]
                agree(replies(final(self).steps()), o, final(self).steps().len()) ==> released(
                    old(self).steps(),
                    table.addr(),
                    index as int,
                    action,
                    region,
                    o,
                ) == (final(self).steps(), r),
    {
        let ghost log = self.steps();
        let ghost tables = self.tables();
        // Clear the entry before releasing the frame, ensuring no stale translations
        // outlive the frame.
        if action == TeardownAction::FreeAndClear {
            let cleared = self.ctx.clear_entry(table, index);
            let ghost next = self.steps();
            let ghost next_tables = self.tables();
            proof {
                lemma_goes_on(log, tables, next.last(), next);
            }
            if let Err(e) = cleared {
                proof {
                    assert forall|o: Seq<TeardownReply>|
                        agree(replies(next), o, next.len()) implies #[trigger] released(
                        log,
                        table.addr(),
                        index as int,
                        action,
                        region,
                        o,
                    ) == (next, Err::<(), KernelError>(e)) by {
                        lemma_same_step(
                            log,
                            TeardownCall::Clear(table.addr(), index as int),
                            next,
                            next,
                            o,
                        );
                    }
                }
                return Err(e);
            }
            self.ctx.deallocate(region);
            proof {
                let last = self.steps();
                lemma_goes_on(next, next_tables, last.last(), last);
                assert forall|o: Seq<TeardownReply>|
                    agree(replies(last), o, last.len()) implies #[trigger] released(
                    log,
                    table.addr(),
                    index as int,
                    action,
                    region,
                    o,
                ) == (last, Ok::<(), KernelError>(())) by {
                    lemma_same_step(
                        log,
                        TeardownCall::Clear(table.addr(), index as int),
                        next,
                        last,
                        o,
                    );
                    lemma_same_step(next, TeardownCall::Free(region), last, last, o);
                }
            }
            return Ok(());
        }
        self.ctx.deallocate(region);
        proof {
            let last = self.steps();
            lemma_goes_on(log, tables, last.last(), last);
            assert forall|o: Seq<TeardownReply>|
                agree(replies(last), o, last.len()) implies #[trigger] released(
                log,
                table.addr(),
                index as int,
                action,
                region,
                o,
            ) == (last, Ok::<(), KernelError>(())) by {
                lemma_same_step(log, TeardownCall::Free(region), last, last, o);
            }
        }
        Ok(())
    }

    /// Walks all entries of the table, asks for each what to do with it, and clears and
    /// releases it as told.
    ///
    /// - `level`: the level of the table.
    /// - `base_va`: the virtual address of the first byte covered by the first entry of
    ///   the table.
    /// - `depth`: the tree depth of the table itself (root's children = 1).
    pub fn tear_down(
        &mut self,
        shifts: &Vec<usize>,
        level: usize,
        table: PA,
        base_va: VA,
        depth: u8,
    ) -> (r: Result<()>)
        requires
            shifts_ok(shifts@),
            nested(shifts@),
            level <= shifts@.len(),
            base_ok(shifts@, level as int, base_va.addr() as int),
            depth + (shifts@.len() - level) <= u8::MAX,
        ensures
            (final(self).steps(), r) == torn(
                old(self).steps(),
                shifts@,
                level as int,
                table.addr(),
                base_va.addr() as int,
                depth,
                0,
                replies(final(self).steps()),
            ),
            faithful(
                old(self).tables(),
                old(self).steps().len() as int,
                final(self).steps(),
            ),
            final(self).tables() == tables_at(
                old(self).tables(),
                old(self).steps().len() as int,
                final(self).steps(),
            ),
        decreases shifts@.len() - level,
    {
        let ghost l0 = self.steps();
        let ghost t0 = self.tables();
        let ghost n0 = l0.len() as int;
        let ghost base = base_va.addr() as int;
        let ghost pt = table.addr();
        let levels: usize = shifts.len();
        if level >= levels {
            let r = self.ctx.tear_down_leaf(table, base_va, depth);
            proof {
                lemma_goes_on(l0, t0, self.steps().last(), self.steps());
                assert(comes_from(t0, n0, l0, t0));
                lemma_same_step(
                    l0,
                    TeardownCall::Leaf(pt, base, depth),
                    self.steps(),
                    self.steps(),
                    replies(self.steps()),
                );
            }
            return match r {
                Ok(_) => Ok(()),
                Err(e) => Err(e),
            };
        }
        let shift: usize = shifts[level];
        let ghost s = shift as nat;
        let ghost lv = level as int;
        proof {
            assert(shifts@[level as int] + 9 < usize::BITS);
            lemma_one_shl(shift);
            vstd::arithmetic::power2::lemma_pow2_adds(s, 9);
            vstd::arithmetic::power2::lemma2_to64();
        }
        let map_size: usize = 1usize << shift;
        let mut cursor: usize = 0;
        assert(comes_from(t0, n0, self.steps(), self.tables()));
        while cursor < DESCRIPTORS_PER_PAGE
            invariant
                shifts_ok(shifts@),
                nested(shifts@),
                level < levels,
                levels == shifts@.len(),
                lv == level,
                pt == table.addr(),
                shift == shifts@[level as int],
                shift + 9 < usize::BITS,
                s == shift as nat,
                map_size == pow2(s),
                map_size > 0,
                pow2(s + 9) == pow2(s) * 512,
                base == base_va.addr(),
                base + pow2(s + 9) <= usize::MAX + 1,
                depth + (shifts@.len() - level) <= u8::MAX,
                cursor <= DESCRIPTORS_PER_PAGE,
                l0 == old(self).steps(),
                t0 == old(self).tables(),
                n0 == l0.len(),
                comes_from(t0, n0, self.steps(), self.tables()),
                so_far(l0, shifts@, lv, pt, base, depth, cursor as int, self.steps()),
            decreases DESCRIPTORS_PER_PAGE - cursor,
        {
            let ghost log = self.steps();
            let ghost tables = self.tables();
            let ghost at = cursor as int;
            let ghost va = base + cursor * pow2(s);
            proof {
                let c = pow2(s) as int;
                assert(0 <= cursor * c && cursor * c + c <= 512 * c) by (nonlinear_arith)
                    requires
                        0 <= cursor,
                        cursor + 1 <= 512,
                        c > 0,
                ;
                assert(c * 512 == 512 * c);
            }
            let desc = self.ctx.read_entry(table, cursor);
            let ghost read = self.steps();
            let ghost read_call = TeardownCall::Read(pt, at);
            proof {
                lemma_goes_on(log, tables, read.last(), read);
                assert(comes_from(t0, n0, read, self.tables()));
            }
            match desc {
                Err(e) => {
                    proof {
                        let o = replies(read);
                        lemma_same_step(log, read_call, read, read, o);
                        assert(torn(log, shifts@, lv, pt, base, depth, at, o) == (read, Err::<
                            (),
                            KernelError,
                        >(e)));
                    }
                    return Err(e);
                },
                Ok(Descriptor::Table(table_addr)) => {
                    let entry_va = base_va.add_bytes(cursor * map_size);
                    let child_depth: u8 = depth + 1;
                    let entry = TeardownEntry {
                        kind: EntryKind::IntermediateTable,
                        depth: child_depth,
                        region: PhysMemoryRegion::new(table_addr, PAGE_SIZE),
                    };
                    proof {
                        PhysMemoryRegion::bounds(
                            entry.region,
                            table_entry(table_addr, depth).region,
                        );
                    }
                    assert(entry == table_entry(table_addr, depth));
                    let action = self.ctx.control(&entry);
                    let ghost asked = self.steps();
                    let ghost ask_call = TeardownCall::Ask(entry);
                    let ghost asked_tables = self.tables();
                    proof {
                        lemma_goes_on(read, asked_tables, asked.last(), asked);
                        assert(comes_from(t0, n0, asked, asked_tables));
                    }
                    if action == TeardownAction::Skip {
                        proof {
                            assert forall|o: Seq<TeardownReply>|
                                #![trigger torn(asked, shifts@, lv, pt, base, depth, at + 1, o)]
                                agree(replies(asked), o, asked.len()) implies torn(
                                l0,
                                shifts@,
                                lv,
                                pt,
                                base,
                                depth,
                                0,
                                o,
                            ) == torn(asked, shifts@, lv, pt, base, depth, at + 1, o) by {
                                lemma_same_step(log, read_call, read, asked, o);
                                lemma_same_step(read, ask_call, asked, asked, o);
                                lemma_agree_less(log, asked, o);
                                assert(torn(log, shifts@, lv, pt, base, depth, at, o) == torn(
                                    asked,
                                    shifts@,
                                    lv,
                                    pt,
                                    base,
                                    depth,
                                    at + 1,
                                    o,
                                ));
                            }
                        }
                    } else {
                        // Recurse into the child table first.
                        proof {
                            if level + 1 < levels {
                                assert(shifts@[level as int] == shifts@[level + 1] + 9);
                            }
                        }
                        let child = self.tear_down(
                            shifts,
                            level + 1,
                            table_addr,
                            entry_va,
                            child_depth,
                        );
                        let ghost below = self.steps();
                        proof {
                            lemma_torn_local(
                                asked,
                                shifts@,
                                lv + 1,
                                table_addr.addr(),
                                va,
                                child_depth,
                                0,
                                replies(below),
                                replies(below),
                            );
                            lemma_goes_on_with(t0, n0, asked, asked_tables, below);
                        }
                        if let Err(e) = child {
                            proof {
                                let o = replies(below);
                                lemma_same_step(log, read_call, read, below, o);
                                lemma_same_step(read, ask_call, asked, below, o);
                                lemma_agree_less(log, below, o);
                                assert(torn(log, shifts@, lv, pt, base, depth, at, o) == (below, Err::<
                                    (),
                                    KernelError,
                                >(e)));
                            }
                            return Err(e);
                        }
                        let freed = self.release(table, cursor, action, entry.region);
                        let ghost last = self.steps();
                        proof {
                            assert forall|o: Seq<TeardownReply>|
                                #![trigger torn(log, shifts@, lv, pt, base, depth, at, o)]
                                agree(replies(last), o, last.len()) implies torn(
                                log,
                                shifts@,
                                lv,
                                pt,
                                base,
                                depth,
                                at,
                                o,
                            ) == (match freed {
                                Err(e) => (last, Err(e)),
                                Ok(_) => torn(last, shifts@, lv, pt, base, depth, at + 1, o),
                            }) by {
                                lemma_same_step(log, read_call, read, last, o);
                                lemma_same_step(read, ask_call, asked, last, o);
                                lemma_agree_less(below, last, o);
                                lemma_torn_local(
                                    asked,
                                    shifts@,
                                    lv + 1,
                                    table_addr.addr(),
                                    va,
                                    child_depth,
                                    0,
                                    replies(below),
                                    o,
                                );
                                assert(released(below, pt, at, action, entry.region, o) == (
                                    last,
                                    freed,
                                ));
                            }
                        }
                        if let Err(e) = freed {
                            proof {
                                lemma_agree_less(log, last, replies(last));
                                assert(torn(
                                    log,
                                    shifts@,
                                    lv,
                                    pt,
                                    base,
                                    depth,
                                    at,
                                    replies(last),
                                ) == (last, Err::<(), KernelError>(e)));
                            }
                            return Err(e);
                        }
                        proof {
                            assert forall|o: Seq<TeardownReply>|
                                #![trigger torn(last, shifts@, lv, pt, base, depth, at + 1, o)]
                                agree(replies(last), o, last.len()) implies torn(
                                l0,
                                shifts@,
                                lv,
                                pt,
                                base,
                                depth,
                                0,
                                o,
                            ) == torn(last, shifts@, lv, pt, base, depth, at + 1, o) by {
                                lemma_agree_less(log, last, o);
                                assert(torn(log, shifts@, lv, pt, base, depth, at, o) == torn(
                                    last,
                                    shifts@,
                                    lv,
                                    pt,
                                    base,
                                    depth,
                                    at + 1,
                                    o,
                                ));
                            }
                        }
                    }
                },
                Ok(Descriptor::Mapped(pa, _)) => {
                    let entry_va = base_va.add_bytes(cursor * map_size);
                    let entry = TeardownEntry {
                        kind: EntryKind::Mapping(VirtMemoryRegion::new(entry_va, map_size)),
                        depth,
                        region: PhysMemoryRegion::new(pa, map_size),
                    };
                    proof {
                        PhysMemoryRegion::bounds(
                            entry.region,
                            mapping_entry(pa, va, map_size as int, depth).region,
                        );
                        VirtMemoryRegion::bounds(
                            entry.kind->Mapping_0,
                            VirtMemoryRegion::between(va, va + map_size),
                        );
                    }
                    assert(entry == mapping_entry(pa, va, map_size as int, depth));
                    let action = self.ctx.control(&entry);
                    let ghost asked = self.steps();
                    let ghost ask_call = TeardownCall::Ask(entry);
                    let ghost asked_tables = self.tables();
                    proof {
                        lemma_goes_on(read, asked_tables, asked.last(), asked);
                        assert(comes_from(t0, n0, asked, asked_tables));
                    }
                    if action != TeardownAction::Skip {
                        let freed = self.release(table, cursor, action, entry.region);
                        let ghost last = self.steps();
                        if let Err(e) = freed {
                            proof {
                                let o = replies(last);
                                lemma_same_step(log, read_call, read, last, o);
                                lemma_same_step(read, ask_call, asked, last, o);
                                lemma_agree_less(log, last, o);
                                assert(released(asked, pt, at, action, entry.region, o) == (
                                    last,
                                    freed,
                                ));
                                assert(torn(log, shifts@, lv, pt, base, depth, at, o) == (last, Err::<
                                    (),
                                    KernelError,
                                >(e)));
                            }
                            return Err(e);
                        }
                        proof {
                            assert forall|o: Seq<TeardownReply>|
                                #![trigger torn(last, shifts@, lv, pt, base, depth, at + 1, o)]
                                agree(replies(last), o, last.len()) implies torn(
                                l0,
                                shifts@,
                                lv,
                                pt,
                                base,
                                depth,
                                0,
                                o,
                            ) == torn(last, shifts@, lv, pt, base, depth, at + 1, o) by {
                                lemma_same_step(log, read_call, read, last, o);
                                lemma_same_step(read, ask_call, asked, last, o);
                                lemma_agree_less(log, last, o);
                                assert(released(asked, pt, at, action, entry.region, o) == (
                                    last,
                                    freed,
                                ));
                                assert(torn(log, shifts@, lv, pt, base, depth, at, o) == torn(
                                    last,
                                    shifts@,
                                    lv,
                                    pt,
                                    base,
                                    depth,
                                    at + 1,
                                    o,
                                ));
                            }
                        }
                    } else {
                        proof {
                            assert forall|o: Seq<TeardownReply>|
                                #![trigger torn(asked, shifts@, lv, pt, base, depth, at + 1, o)]
                                agree(replies(asked), o, asked.len()) implies torn(
                                l0,
                                shifts@,
                                lv,
                                pt,
                                base,
                                depth,
                                0,
                                o,
                            ) == torn(asked, shifts@, lv, pt, base, depth, at + 1, o) by {
                                lemma_same_step(log, read_call, read, asked, o);
                                lemma_same_step(read, ask_call, asked, asked, o);
                                lemma_agree_less(log, asked, o);
                                assert(torn(log, shifts@, lv, pt, base, depth, at, o) == torn(
                                    asked,
                                    shifts@,
                                    lv,
                                    pt,
                                    base,
                                    depth,
                                    at + 1,
                                    o,
                                ));
                            }
                        }
                    }
                },
                Ok(_) => {
                    proof {
                        assert forall|o: Seq<TeardownReply>|
                            #![trigger torn(read, shifts@, lv, pt, base, depth, at + 1, o)]
                            agree(replies(read), o, read.len()) implies torn(
                            l0,
                            shifts@,
                            lv,
                            pt,
                            base,
                            depth,
                            0,
                            o,
                        ) == torn(read, shifts@, lv, pt, base, depth, at + 1, o) by {
                            lemma_same_step(log, read_call, read, read, o);
                            lemma_agree_less(log, read, o);
                            assert(torn(log, shifts@, lv, pt, base, depth, at, o) == torn(
                                read,
                                shifts@,
                                lv,
                                pt,
                                base,
                                depth,
                                at + 1,
                                o,
                            ));
                        }
                    }
                },
            }
            cursor = cursor + 1;
        }
        proof {
            let o = replies(self.steps());
            assert(torn(self.steps(), shifts@, lv, pt, base, depth, cursor as int, o) == (
                self.steps(),
                Ok::<(), KernelError>(()),
            ));
        }
        Ok(())
    }
}

/// Replies that begin like those in a record begin like those in the beginning of it.
proof fn lemma_agree_less(
    log: Seq<TeardownStep>,
    last: Seq<TeardownStep>,
    o: Seq<TeardownReply>,
)
    requires
        extends(log, last),
        agree(replies(last), o, last.len()),
    ensures
        agree(replies(log), o, log.len()),
{
    assert forall|i: int| 0 <= i < log.len() implies #[trigger] replies(log)[i] == o[i] by {
        assert(last[i] == log[i]);
        assert(replies(last)[i] == o[i]);
    }
}

/// The frame that the step at `j` releases, if any, was asked about after the `n`-th step,
/// and was not to be skipped.
pub open spec fn permitted(log: Seq<TeardownStep>, n: int, j: int) -> bool {
    log[j].call matches TeardownCall::Free(region) ==> exists|i: int|
        n <= i < j && (match #[trigger] log[i].call {
            TeardownCall::Ask(entry) => entry.region == region && log[i].reply
                != TeardownReply::Action(TeardownAction::Skip),
            _ => false,
        })
}

/// What is permitted by later steps is permitted by all steps.
proof fn lemma_permitted_later(n: int, mid: Seq<TeardownStep>, after: Seq<TeardownStep>)
    requires
        0 <= n <= mid.len(),
        extends(mid, after),
        forall|j: int| n <= j < mid.len() ==> #[trigger] permitted(mid, n, j),
        forall|j: int|
            mid.len() <= j < after.len() ==> #[trigger] permitted(after, mid.len() as int, j),
    ensures
        forall|j: int| n <= j < after.len() ==> #[trigger] permitted(after, n, j),
{
    assert forall|j: int| n <= j < after.len() implies #[trigger] permitted(after, n, j) by {
        if j < mid.len() {
            assert(permitted(mid, n, j));
            assert(after[j] == mid[j]);
            if let TeardownCall::Free(region) = after[j].call {
                let i = choose|i: int|
                    n <= i < j && (match #[trigger] mid[i].call {
                        TeardownCall::Ask(entry) => entry.region == region && mid[i].reply
                            != TeardownReply::Action(TeardownAction::Skip),
                        _ => false,
                    });
                assert(after[i] == mid[i]);
                assert(after[i].call == mid[i].call);
            }
        } else {
            assert(permitted(after, mid.len() as int, j));
        }
    }
}

/// Releasing the frame of an entry that was asked about, right after the `n`-th step and
/// the one that read it, is permitted.
proof fn lemma_permitted_release(
    n: int,
    log: Seq<TeardownStep>,
    table: usize,
    cursor: int,
    action: TeardownAction,
    entry: TeardownEntry,
    o: Seq<TeardownReply>,
)
    requires
        0 <= n,
        n + 1 < log.len(),
        log[n + 1].call == TeardownCall::Ask(entry),
        log[n + 1].reply != TeardownReply::Action(TeardownAction::Skip),
        forall|j: int| n <= j < log.len() ==> #[trigger] permitted(log, n, j),
    ensures
        ({
            let freed = released(log, table, cursor, action, entry.region, o).0;
            &&& extends(log, freed)
            &&& forall|j: int| n <= j < freed.len() ==> #[trigger] permitted(freed, n, j)
        }),
{
    let freed = released(log, table, cursor, action, entry.region, o).0;
    let k = n + 1;
    assert(freed[k] == log[k]);
    assert(freed[k].call == TeardownCall::Ask(entry));
    assert forall|j: int| n <= j < freed.len() implies #[trigger] permitted(freed, n, j) by {
        if j < log.len() {
            assert(permitted(log, n, j));
            assert(freed[j] == log[j]);
            if let TeardownCall::Free(region) = freed[j].call {
                let i = choose|i: int|
                    n <= i < j && (match #[trigger] log[i].call {
                        TeardownCall::Ask(entry) => entry.region == region && log[i].reply
                            != TeardownReply::Action(TeardownAction::Skip),
                        _ => false,
                    });
                assert(freed[i] == log[i]);
                assert(freed[i].call == log[i].call);
            }
        }
    }
}

/// A tear-down releases only frames that it has asked about, and that are not to be
/// skipped.
pub proof fn tear_down_releases_what_was_not_skipped(
    log: Seq<TeardownStep>,
    shifts: Seq<usize>,
    level: int,
    table: usize,
    base: int,
    depth: u8,
    cursor: int,
    o: Seq<TeardownReply>,
)
    ensures
        ({
            let after = torn(log, shifts, level, table, base, depth, cursor, o).0;
            &&& log.len() <= after.len()
            &&& forall|i: int| 0 <= i < log.len() ==> #[trigger] after[i] == log[i]
            &&& forall|j: int|
                log.len() <= j < after.len() ==> #[trigger] permitted(after, log.len() as int, j)
        }),
    decreases shifts.len() - level, DESCRIPTORS_PER_PAGE - cursor,
{
    lemma_torn_local(log, shifts, level, table, base, depth, cursor, o, o);
    let n = log.len() as int;
    let after = torn(log, shifts, level, table, base, depth, cursor, o).0;
    if level < shifts.len() && cursor < DESCRIPTORS_PER_PAGE {
        let size = pow2(shifts[level] as nat) as int;
        let va = base + cursor * size;
        let read = perform(log, TeardownCall::Read(table, cursor), o);
        match replied(read) {
            TeardownReply::Failed(e) => {},
            TeardownReply::Entry(Descriptor::Table(pa)) => {
                let entry = table_entry(pa, depth);
                let asked = perform(read, TeardownCall::Ask(entry), o);
                match replied(asked) {
                    TeardownReply::Action(TeardownAction::Skip) => {
                        tear_down_releases_what_was_not_skipped(
                            asked,
                            shifts,
                            level,
                            table,
                            base,
                            depth,
                            cursor + 1,
                            o,
                        );
                        lemma_permitted_later(n, asked, after);
                    },
                    TeardownReply::Action(action) => {
                        tear_down_releases_what_was_not_skipped(
                            asked,
                            shifts,
                            level + 1,
                            pa.addr(),
                            va,
                            (depth + 1) as u8,
                            0,
                            o,
                        );
                        let (below, r) = torn(
                            asked,
                            shifts,
                            level + 1,
                            pa.addr(),
                            va,
                            (depth + 1) as u8,
                            0,
                            o,
                        );
                        lemma_permitted_later(n, asked, below);
                        if r is Ok {
                            let (freed, r2) = released(below, table, cursor, action, entry.region, o);
                            lemma_permitted_release(n, below, table, cursor, action, entry, o);
                            if r2 is Ok {
                                tear_down_releases_what_was_not_skipped(
                                    freed,
                                    shifts,
                                    level,
                                    table,
                                    base,
                                    depth,
                                    cursor + 1,
                                    o,
                                );
                                lemma_permitted_later(n, freed, after);
                            }
                        }
                    },
                    _ => {},
                }
            },
            TeardownReply::Entry(Descriptor::Mapped(pa, _)) => {
                let entry = mapping_entry(pa, va, size, depth);
                let asked = perform(read, TeardownCall::Ask(entry), o);
                match replied(asked) {
                    TeardownReply::Action(TeardownAction::Skip) => {
                        tear_down_releases_what_was_not_skipped(
                            asked,
                            shifts,
                            level,
                            table,
                            base,
                            depth,
                            cursor + 1,
                            o,
                        );
                        lemma_permitted_later(n, asked, after);
                    },
                    TeardownReply::Action(action) => {
                        let (freed, r2) = released(asked, table, cursor, action, entry.region, o);
                        lemma_permitted_release(n, asked, table, cursor, action, entry, o);
                        if r2 is Ok {
                            tear_down_releases_what_was_not_skipped(
                                freed,
                                shifts,
                                level,
                                table,
                                base,
                                depth,
                                cursor + 1,
                                o,
                            );
                            lemma_permitted_later(n, freed, after);
                        }
                    },
                    _ => {},
                }
            },
            _ => {
                tear_down_releases_what_was_not_skipped(
                    read,
                    shifts,
                    level,
                    table,
                    base,
                    depth,
                    cursor + 1,
                    o,
                );
                lemma_permitted_later(n, read, after);
            },
        }
    }
}

/// Tables that cannot be accessed stay so.
proof fn lemma_faults_stay(tables: Tables, n: int, log: Seq<TeardownStep>)
    ensures
        tables_at(tables, n, log).faults == tables.faults,
    decreases log.len(),
{
    if log.len() > n && log.len() > 0 {
        lemma_faults_stay(tables, n, log.drop_last());
    }
}

/// A tear-down that fails ends with the step that failed.
pub(super) proof fn lemma_last_failed(
    log: Seq<TeardownStep>,
    shifts: Seq<usize>,
    level: int,
    table: usize,
    base: int,
    depth: u8,
    cursor: int,
    o: Seq<TeardownReply>,
)
    ensures
        torn(log, shifts, level, table, base, depth, cursor, o) matches (after, Err(e)) ==> {
            &&& after.len() > log.len()
            &&& after.last().reply == TeardownReply::Failed(e)
            &&& after.last().call is Read || after.last().call is Clear
                || after.last().call is Leaf
        },
    decreases shifts.len() - level, DESCRIPTORS_PER_PAGE - cursor,
{
    if level < shifts.len() && cursor < DESCRIPTORS_PER_PAGE {
        let size = pow2(shifts[level] as nat) as int;
        let va = base + cursor * size;
        let read = perform(log, TeardownCall::Read(table, cursor), o);
        match replied(read) {
            TeardownReply::Failed(e) => {},
            TeardownReply::Entry(Descriptor::Table(pa)) => {
                let entry = table_entry(pa, depth);
                let asked = perform(read, TeardownCall::Ask(entry), o);
                match replied(asked) {
                    TeardownReply::Action(TeardownAction::Skip) => {
                        lemma_last_failed(asked, shifts, level, table, base, depth, cursor + 1, o);
                    },
                    TeardownReply::Action(action) => {
                        let below_depth = (depth + 1) as u8;
                        lemma_last_failed(
                            asked,
                            shifts,
                            level + 1,
                            pa.addr(),
                            va,
                            below_depth,
                            0,
                            o,
                        );
                        lemma_torn_local(
                            asked,
                            shifts,
                            level + 1,
                            pa.addr(),
                            va,
                            below_depth,
                            0,
                            o,
                            o,
                        );
                        let below = torn(
                            asked,
                            shifts,
                            level + 1,
                            pa.addr(),
                            va,
                            below_depth,
                            0,
                            o,
                        ).0;
                        let freed = released(below, table, cursor, action, entry.region, o).0;
                        lemma_last_failed(freed, shifts, level, table, base, depth, cursor + 1, o);
                    },
                    _ => {},
                }
            },
            TeardownReply::Entry(Descriptor::Mapped(pa, _)) => {
                let entry = mapping_entry(pa, va, size, depth);
                let asked = perform(read, TeardownCall::Ask(entry), o);
                match replied(asked) {
                    TeardownReply::Action(TeardownAction::Skip) => {
                        lemma_last_failed(asked, shifts, level, table, base, depth, cursor + 1, o);
                    },
                    TeardownReply::Action(action) => {
                        let freed = released(asked, table, cursor, action, entry.region, o).0;
                        lemma_last_failed(freed, shifts, level, table, base, depth, cursor + 1, o);
                    },
                    _ => {},
                }
            },
            _ => {
                lemma_last_failed(read, shifts, level, table, base, depth, cursor + 1, o);
            },
        }
    }
}

/// A tear-down succeeds if all tables can be accessed, and all tables of the last level are
/// torn down.
pub proof fn tear_down_succeeds(
    tables: Tables,
    log: Seq<TeardownStep>,
    shifts: Seq<usize>,
    level: int,
    table: usize,
    base: int,
    depth: u8,
    after: Seq<TeardownStep>,
    r: Result<()>,
)
    requires
        (after, r) == torn(log, shifts, level, table, base, depth, 0, replies(after)),
        faithful(tables, log.len() as int, after),
        forall|t: usize| !(#[trigger] tables.faults.dom().contains(t)),
        forall|i: int|
            log.len() <= i < after.len() && (#[trigger] after[i]).call is Leaf ==> after[i].reply
                is Done,
    ensures
        r is Ok,
{
    lemma_last_failed(log, shifts, level, table, base, depth, 0, replies(after));
    if r is Err {
        lemma_faults_stay(tables, log.len() as int, after.drop_last());
        assert(after[after.len() - 1] == after.last());
    }
}

} // verus!
