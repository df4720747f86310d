//! Kernel memory management, process identity and synchronisation logic.
use vstd::prelude::*;

pub mod error;
pub mod fs;
pub mod memory;
pub mod pod;
pub mod proc;
pub mod sync;

verus! {

} // verus!
