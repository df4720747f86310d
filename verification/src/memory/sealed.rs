//! Keeps the set of address kinds closed.
use vstd::prelude::*;

verus! {

/// Implemented by the address kinds of this crate only.
pub trait Sealed {

}

} // verus!
