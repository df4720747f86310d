//! Per-CPU variables.
//!
//! A per-CPU variable has a separate value for each processor core. While a core uses
//! its value, its interrupts are disabled: who borrows the value hands in what is needed
//! to restore them, and gets it back when the borrow ends.
use vstd::prelude::*;

verus! {

/// A borrow of per-CPU data, with what is needed to restore interrupts when it ends.
pub struct IrqGuard<F> {
    cpu_id: usize,
    exclusive: bool,
    flags: F,
}

impl<F> IrqGuard<F> {
    /// The core whose value is borrowed.
    pub closed spec fn cpu(self) -> nat {
        self.cpu_id as nat
    }

    /// The value is borrowed mutably.
    pub closed spec fn is_exclusive(self) -> bool {
        self.exclusive
    }

    /// What is needed to restore interrupts.
    pub closed spec fn irq_flags(self) -> F {
        self.flags
    }
}

/// The value of one core: it is borrowed by any number of readers, or mutably by one.
struct Slot<T> {
    value: T,
    readers: usize,
    writer: bool,
}

/// How a value is borrowed.
pub ghost struct Borrows {
    pub readers: nat,
    pub writer: bool,
}

/// Initialization of `PerCpu` variables.
pub trait PerCpuInitializer {
    /// The variable can be initialized.
    spec fn can_init(&self) -> bool;

    /// Initializes the per-CPU data allocation.
    fn init(&mut self, num_cpus: usize)
        requires
            old(self).can_init(),
    ;
}

/// A container for a value that has a separate instance for each CPU core.
#[verifier::reject_recursive_types(T)]
pub struct PerCpu<T, I: Fn() -> T> {
    slots: Option<Vec<Slot<T>>>,
    initializer: I,
}

impl<T, I: Fn() -> T> PerCpu<T, I> {
    /// The variable has been initialized.
    pub closed spec fn initialized(self) -> bool {
        self.slots is Some
    }

    /// The values of the cores.
    pub closed spec fn values(self) -> Seq<T> {
        match self.slots {
            Some(slots) => Seq::new(slots@.len(), |i: int| slots@[i].value),
            None => Seq::empty(),
        }
    }

    /// How the values of the cores are borrowed.
    pub closed spec fn borrows(self) -> Seq<Borrows> {
        match self.slots {
            Some(slots) => Seq::new(
                slots@.len(),
                |i: int| Borrows { readers: slots@[i].readers as nat, writer: slots@[i].writer },
            ),
            None => Seq::empty(),
        }
    }

    /// What gives the initial values.
    pub closed spec fn init_fn(self) -> I {
        self.initializer
    }

    /// The core has a value.
    pub open spec fn has(self, cpu_id: int) -> bool {
        self.initialized() && 0 <= cpu_id < self.values().len()
    }

    /// There is a borrow state for each value.
    pub proof fn same_lengths(self)
        ensures
            self.borrows().len() == self.values().len(),
    {
    }

    /// Creates a new, uninitialized `PerCpu` variable.
    pub fn new(initializer: I) -> (r: Self)
        ensures
            !r.initialized(),
            r.init_fn() == initializer,
    {
        PerCpu { slots: None, initializer }
    }

    /// Returns a reference to the value for the given CPU. The variable has to be
    /// initialized.
    pub fn get(&self, cpu_id: usize) -> (r: &T)
        requires
            self.has(cpu_id as int),
        ensures
            *r == self.values()[cpu_id as int],
    {
        match &self.slots {
            Some(slots) => &slots[cpu_id].value,
            None => vstd::pervasive::unreached(),
        }
    }

    /// Returns a reference to the value for the given CPU.
    pub fn get_by_cpu(&self, cpu_id: usize) -> (r: &T)
        requires
            self.has(cpu_id as int),
        ensures
            *r == self.values()[cpu_id as int],
    {
        self.get(cpu_id)
    }

    /// Changes how the value of a core is borrowed.
    fn set_borrows(&mut self, cpu_id: usize, readers: usize, writer: bool)
        requires
            old(self).has(cpu_id as int),
        ensures
            final(self).initialized(),
            final(self).init_fn() == old(self).init_fn(),
            final(self).values() == old(self).values(),
            final(self).borrows() == old(self).borrows().update(
                cpu_id as int,
                (Borrows { readers: readers as nat, writer }),
            ),
    {
        let ghost values = self.values();
        let ghost borrows = self.borrows();
        match &mut self.slots {
            Some(slots) => {
                slots[cpu_id].readers = readers;
                slots[cpu_id].writer = writer;
            },
            None => {},
        }
        assert(self.values() =~= values);
        assert(self.borrows() =~= borrows.update(
            cpu_id as int,
            Borrows { readers: readers as nat, writer },
        ));
    }

    /// Returns how the value of a core is borrowed.
    fn slot_borrows(&self, cpu_id: usize) -> (r: (usize, bool))
        requires
            self.has(cpu_id as int),
        ensures
            self.borrows()[cpu_id as int] == (Borrows { readers: r.0 as nat, writer: r.1 }),
    {
        match &self.slots {
            Some(slots) => (slots[cpu_id].readers, slots[cpu_id].writer),
            None => vstd::pervasive::unreached(),
        }
    }

    /// Immutably borrows the data of the CPU, which must not be mutably borrowed.
    pub fn borrow<F>(&mut self, cpu_id: usize, flags: F) -> (r: IrqGuard<F>)
        requires
            old(self).has(cpu_id as int),
            !old(self).borrows()[cpu_id as int].writer,
            old(self).borrows()[cpu_id as int].readers < usize::MAX,
        ensures
            r.cpu() == cpu_id,
            !r.is_exclusive(),
            r.irq_flags() == flags,
            final(self).initialized(),
            final(self).init_fn() == old(self).init_fn(),
            final(self).values() == old(self).values(),
            final(self).borrows() == old(self).borrows().update(
                cpu_id as int,
                (Borrows {
                    readers: old(self).borrows()[cpu_id as int].readers + 1,
                    writer: false,
                }),
            ),
    {
        let (readers, _) = self.slot_borrows(cpu_id);
        self.set_borrows(cpu_id, readers + 1, false);
        IrqGuard { cpu_id, exclusive: false, flags }
    }

    /// Mutably borrows the data of the CPU, which must not be borrowed.
    pub fn borrow_mut<F>(&mut self, cpu_id: usize, flags: F) -> (r: IrqGuard<F>)
        requires
            old(self).has(cpu_id as int),
            !old(self).borrows()[cpu_id as int].writer,
            old(self).borrows()[cpu_id as int].readers == 0,
        ensures
            r.cpu() == cpu_id,
            r.is_exclusive(),
            r.irq_flags() == flags,
            final(self).initialized(),
            final(self).init_fn() == old(self).init_fn(),
            final(self).values() == old(self).values(),
            final(self).borrows() == old(self).borrows().update(
                cpu_id as int,
                (Borrows { readers: 0, writer: true }),
            ),
    {
        self.set_borrows(cpu_id, 0, true);
        IrqGuard { cpu_id, exclusive: true, flags }
    }

    /// Attempts to immutably borrow the data of the CPU. If it is mutably borrowed, what
    /// is needed to restore interrupts is given back.
    pub fn try_borrow<F>(&mut self, cpu_id: usize, flags: F) -> (r: core::result::Result<
        IrqGuard<F>,
        F,
    >)
        requires
            old(self).has(cpu_id as int),
            old(self).borrows()[cpu_id as int].readers < usize::MAX,
        ensures
            final(self).initialized(),
            final(self).init_fn() == old(self).init_fn(),
            final(self).values() == old(self).values(),
            match r {
                Ok(guard) => {
                    &&& !old(self).borrows()[cpu_id as int].writer
                    &&& guard.cpu() == cpu_id
                    &&& !guard.is_exclusive()
                    &&& guard.irq_flags() == flags
                    &&& final(self).borrows() == old(self).borrows().update(
                        cpu_id as int,
                        (Borrows {
                            readers: old(self).borrows()[cpu_id as int].readers + 1,
                            writer: false,
                        }),
                    )
                },
                Err(f) => {
                    &&& old(self).borrows()[cpu_id as int].writer
                    &&& f == flags
                    &&& final(self).borrows() == old(self).borrows()
                },
            },
    {
        let (_, writer) = self.slot_borrows(cpu_id);
        if writer {
            Err(flags)
        } else {
            Ok(self.borrow(cpu_id, flags))
        }
    }

    /// Attempts to mutably borrow the data of the CPU. If it is borrowed, what is needed
    /// to restore interrupts is given back.
    pub fn try_borrow_mut<F>(&mut self, cpu_id: usize, flags: F) -> (r: core::result::Result<
        IrqGuard<F>,
        F,
    >)
        requires
            old(self).has(cpu_id as int),
        ensures
            final(self).initialized(),
            final(self).init_fn() == old(self).init_fn(),
            final(self).values() == old(self).values(),
            ({
                let before = old(self).borrows()[cpu_id as int];
                match r {
                    Ok(guard) => {
                        &&& !before.writer && before.readers == 0
                        &&& guard.cpu() == cpu_id
                        &&& guard.is_exclusive()
                        &&& guard.irq_flags() == flags
                        &&& final(self).borrows() == old(self).borrows().update(
                            cpu_id as int,
                            (Borrows { readers: 0, writer: true }),
                        )
                    },
                    Err(f) => {
                        &&& before.writer || before.readers > 0
                        &&& f == flags
                        &&& final(self).borrows() == old(self).borrows()
                    },
                }
            }),
    {
        let (readers, writer) = self.slot_borrows(cpu_id);
        if writer || readers > 0 {
            Err(flags)
        } else {
            Ok(self.borrow_mut(cpu_id, flags))
        }
    }

    /// Returns the borrowed value.
    pub fn value<F>(&self, guard: &IrqGuard<F>) -> (r: &T)
        requires
            self.has(guard.cpu() as int),
        ensures
            *r == self.values()[guard.cpu() as int],
    {
        self.get(guard.cpu_id)
    }

    /// Replaces the mutably borrowed value, and returns the previous one.
    pub fn replace<F>(&mut self, guard: &mut IrqGuard<F>, value: T) -> (r: T)
        requires
            old(self).has(old(guard).cpu() as int),
            old(guard).is_exclusive(),
        ensures
            *final(guard) == *old(guard),
            r == old(self).values()[old(guard).cpu() as int],
            final(self).initialized(),
            final(self).init_fn() == old(self).init_fn(),
            final(self).values() == old(self).values().update(old(guard).cpu() as int, value),
            final(self).borrows() == old(self).borrows(),
    {
        let mut value = value;
        let ghost values = self.values();
        let ghost borrows = self.borrows();
        let ghost new = value;
        match &mut self.slots {
            Some(slots) => {
                std::mem::swap(&mut slots[guard.cpu_id].value, &mut value);
            },
            None => {},
        }
        assert(self.values() =~= values.update(guard.cpu_id as int, new));
        assert(self.borrows() =~= borrows);
        value
    }

    /// Ends the borrow, and returns what is needed to restore interrupts.
    pub fn release<F>(&mut self, guard: IrqGuard<F>) -> (r: F)
        requires
            old(self).has(guard.cpu() as int),
            guard.is_exclusive() ==> old(self).borrows()[guard.cpu() as int].writer,
            !guard.is_exclusive() ==> old(self).borrows()[guard.cpu() as int].readers > 0,
        ensures
            r == guard.irq_flags(),
            final(self).initialized(),
            final(self).init_fn() == old(self).init_fn(),
            final(self).values() == old(self).values(),
            ({
                let before = old(self).borrows()[guard.cpu() as int];
                final(self).borrows() == old(self).borrows().update(
                    guard.cpu() as int,
                    (Borrows {
                        readers: if guard.is_exclusive() {
                            before.readers
                        } else {
                            (before.readers - 1) as nat
                        },
                        writer: before.writer && !guard.is_exclusive(),
                    }),
                )
            }),
    {
        let (readers, writer) = self.slot_borrows(guard.cpu_id);
        if guard.exclusive {
            self.set_borrows(guard.cpu_id, readers, false);
        } else {
            self.set_borrows(guard.cpu_id, readers - 1, writer);
        }
        guard.flags
    }

    /// A convenience method to execute a closure with a mutable reference to the value of
    /// the CPU, which must not be borrowed. Interrupts are off while the closure runs:
    /// `flags` is what is needed to restore them, and is given back once the closure is
    /// done and the borrow has ended.
    pub fn with_mut<F, G: FnOnce(&mut T) -> R, R>(&mut self, cpu_id: usize, flags: F, f: G) -> (r: (
        R,
        F,
    ))
        requires
            old(self).has(cpu_id as int),
            !old(self).borrows()[cpu_id as int].writer,
            old(self).borrows()[cpu_id as int].readers == 0,
            forall|v: &mut T|
                *v == old(self).values()[cpu_id as int] ==> #[trigger] f.requires((v,)),
        ensures
            r.1 == flags,
            final(self).initialized(),
            final(self).init_fn() == old(self).init_fn(),
            final(self).borrows() == old(self).borrows(),
            final(self).values().len() == old(self).values().len(),
            final(self).values() == old(self).values().update(
                cpu_id as int,
                final(self).values()[cpu_id as int],
            ),
            exists|v: &mut T|
                *v == old(self).values()[cpu_id as int] && *final(v)
                    == final(self).values()[cpu_id as int] && #[trigger] f.ensures((v,), r.0),
    {
        let ghost values = self.values();
        let ghost borrows = self.borrows();
        let guard = self.borrow_mut(cpu_id, flags);
        let ghost borrowed = self.borrows();
        let r = match &mut self.slots {
            Some(slots) => f(&mut slots[cpu_id].value),
            None => vstd::pervasive::unreached(),
        };
        let ghost v = choose|v: &mut T|
            *v == values[cpu_id as int] && *final(v) == self.values()[cpu_id as int]
                && #[trigger] f.ensures((v,), r);
        assert(self.borrows() =~= borrowed);
        assert(self.values() =~= values.update(cpu_id as int, self.values()[cpu_id as int]));
        let flags = self.release(guard);
        assert(self.borrows() =~= borrows);
        let out = (r, flags);
        assert(*v == old(self).values()[cpu_id as int]);
        assert(*final(v) == self.values()[cpu_id as int]);
        assert(f.ensures((v,), out.0));
        out
    }
}

impl<T, I: Fn() -> T> PerCpuInitializer for PerCpu<T, I> {
    open spec fn can_init(&self) -> bool {
        !self.initialized() && self.init_fn().requires(())
    }

    /// Each core gets a value of its own from the initializer, which nobody borrows.
    fn init(&mut self, num_cpus: usize)
        ensures
            final(self).initialized(),
            final(self).init_fn() == old(self).init_fn(),
            final(self).values().len() == num_cpus,
            forall|i: int|
                0 <= i < num_cpus ==> old(self).init_fn().ensures(
                    (),
                    #[trigger] final(self).values()[i],
                ),
            final(self).borrows() == Seq::new(
                num_cpus as nat,
                |i: int| Borrows { readers: 0, writer: false },
            ),
    {
        let mut slots: Vec<Slot<T>> = Vec::new();
        let mut i: usize = 0;
        while i < num_cpus
            invariant
                i <= num_cpus,
                slots@.len() == i,
                self.initializer == old(self).initializer,
                self.initializer.requires(()),
                forall|k: int|
                    0 <= k < i ==> self.initializer.ensures((), (#[trigger] slots@[k]).value)
                        && slots@[k].readers == 0 && !slots@[k].writer,
            decreases num_cpus - i,
        {
            let value = (self.initializer)();
            slots.push(Slot { value, readers: 0, writer: false });
            i = i + 1;
        }
        self.slots = Some(slots);
        assert(self.borrows() =~= Seq::new(
            num_cpus as nat,
            |i: int| Borrows { readers: 0, writer: false },
        ));
    }
}

} // verus!
