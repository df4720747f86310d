//! What the memory subsystem knows of files.
use vstd::prelude::*;

verus! {

/// A handle to an open inode.
///
/// Two handles refer to the same inode exactly when their ids are equal.
#[derive(Clone, Copy, Debug, PartialEq, Eq, Structural)]
pub struct InodeHandle {
    /// The identity of the inode.
    pub id: u64,
}

impl InodeHandle {
    /// Creates the handle of the inode with the given identity.
    pub fn new(id: u64) -> (r: Self)
        ensures
            r.id == id,
    {
        Self { id }
    }
}

} // verus!
