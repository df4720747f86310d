//! Memory management: typed addresses, regions, page tables, allocators and
//! process address spaces.
use vstd::prelude::*;

mod sealed;

pub mod address;
pub mod allocators;
pub mod kbuf;
pub mod page;
pub mod paging;
pub mod proc_vm;
pub mod region;

verus! {

/// The base-2 logarithm of [`PAGE_SIZE`].
pub const PAGE_SHIFT: usize = 12;

/// The size of a page in bytes.
pub const PAGE_SIZE: usize = 4096;

/// Selects the offset of an address within its page.
pub const PAGE_MASK: usize = 4095;

} // verus!
