//! Process identity and permissions.
use vstd::prelude::*;

pub mod caps;
pub mod ids;

verus! {

} // verus!
