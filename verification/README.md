# libkernel

The architecture-independent parts of a small kernel, written in Rust and verified with
Verus: every function states in its contract what it does, and is proved to do so.

- `src/memory/` has addresses, regions and pages; the early-boot allocator (`smalloc`), the
  buddy allocator of page frames (`phys`), the slab allocator and the kernel heap (`slab`);
  page tables (`paging`); the virtual memory of processes (`proc_vm`); and ring buffers for
  pipes (`kbuf`).
- `src/sync/` has what asynchronous tasks share: sets of wakers, condition variables,
  channels, mutexes, readers-writer locks, cells that are written once, and per-CPU
  variables.
- `src/proc/` has user and group ids, and capabilities.

Properties that relate several functions stand as public proof functions, in modules called
`laws` or next to what they are about.

What a processor or a task scheduler provides is not part of the library. A waker is a type
parameter: functions return the wakers of the tasks to be woken. `app/` is ordinary Rust
around the library, with locks that disable interrupts, futures, guards and raw pointers.

Two outside crates are called from the library, through functions whose contracts are
trusted: `ringbuf` in `src/memory/kbuf/ring.rs`, and `object` in
`src/memory/proc_vm/vmarea.rs`.
