//! Physical memory allocators.
use vstd::prelude::*;

pub mod frame;
pub mod phys;
pub mod slab;
pub mod smalloc;

verus! {

} // verus!
