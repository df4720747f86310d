//! User and group identity types.
//!
//! [`Uid`] and [`Gid`] are thin wrappers around `u32` that prevent accidental mixing of
//! user IDs and group IDs at the type level.
use vstd::prelude::*;

verus! {

/// A user identity (UID).
#[derive(Clone, Copy, PartialEq, Eq, Debug, Structural)]
pub struct Uid {
    id: u32,
}

impl Uid {
    /// The numeric value.
    pub closed spec fn number(self) -> u32 {
        self.id
    }

    /// The numeric value determines the identity.
    pub proof fn same_number(a: Self, b: Self)
        requires
            a.number() == b.number(),
        ensures
            a == b,
    {
    }

    /// Creates a new `Uid` with the given numeric value.
    pub fn new(id: u32) -> (r: Self)
        ensures
            r.number() == id,
    {
        Uid { id }
    }

    /// Returns `true` if this is the root (UID 0) user.
    pub fn is_root(self) -> (r: bool)
        ensures
            r == (self.number() == 0),
    {
        self.id == 0
    }

    /// Returns the root UID (0).
    pub fn new_root() -> (r: Self)
        ensures
            r.number() == 0,
    {
        Uid { id: 0 }
    }

    /// The identity that a system call passes: the low half of the value.
    pub closed spec fn of_syscall(value: u64) -> Self {
        Uid { id: (value % 0x1_0000_0000) as u32 }
    }

    /// The number of the identity that a system call passes.
    pub proof fn of_syscall_number(value: u64)
        ensures
            Self::of_syscall(value).number() == value % 0x1_0000_0000,
    {
    }
}

impl From<u64> for Uid {
    /// Convenience implementation for syscalls.
    fn from(value: u64) -> (r: Self) {
        Uid { id: (value % 0x1_0000_0000) as u32 }
    }
}

impl vstd::std_specs::convert::FromSpecImpl<u64> for Uid {
    open spec fn obeys_from_spec() -> bool {
        true
    }

    open spec fn from_spec(v: u64) -> Self {
        Self::of_syscall(v)
    }
}

impl From<Uid> for u32 {
    fn from(value: Uid) -> (r: Self) {
        value.id
    }
}

impl vstd::std_specs::convert::FromSpecImpl<Uid> for u32 {
    open spec fn obeys_from_spec() -> bool {
        true
    }

    open spec fn from_spec(v: Uid) -> Self {
        v.number()
    }
}

/// A group identity (GID).
#[derive(Clone, Copy, PartialEq, Eq, Debug, Structural)]
pub struct Gid {
    id: u32,
}

impl Gid {
    /// The numeric value.
    pub closed spec fn number(self) -> u32 {
        self.id
    }

    /// The numeric value determines the identity.
    pub proof fn same_number(a: Self, b: Self)
        requires
            a.number() == b.number(),
        ensures
            a == b,
    {
    }

    /// Creates a new `Gid` with the given numeric value.
    pub fn new(id: u32) -> (r: Self)
        ensures
            r.number() == id,
    {
        Gid { id }
    }

    /// Returns the root group GID (0).
    pub fn new_root_group() -> (r: Self)
        ensures
            r.number() == 0,
    {
        Gid { id: 0 }
    }

    /// The identity that a system call passes: the low half of the value.
    pub closed spec fn of_syscall(value: u64) -> Self {
        Gid { id: (value % 0x1_0000_0000) as u32 }
    }

    /// The number of the identity that a system call passes.
    pub proof fn of_syscall_number(value: u64)
        ensures
            Self::of_syscall(value).number() == value % 0x1_0000_0000,
    {
    }
}

impl From<u64> for Gid {
    /// Convenience implementation for syscalls.
    fn from(value: u64) -> (r: Self) {
        Gid { id: (value % 0x1_0000_0000) as u32 }
    }
}

impl vstd::std_specs::convert::FromSpecImpl<u64> for Gid {
    open spec fn obeys_from_spec() -> bool {
        true
    }

    open spec fn from_spec(v: u64) -> Self {
        Self::of_syscall(v)
    }
}

impl From<Gid> for u32 {
    fn from(value: Gid) -> (r: Self) {
        value.id
    }
}

impl vstd::std_specs::convert::FromSpecImpl<Gid> for u32 {
    open spec fn obeys_from_spec() -> bool {
        true
    }

    open spec fn from_spec(v: Gid) -> Self {
        v.number()
    }
}

} // verus!
