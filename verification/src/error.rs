//! Errors shared by the kernel subsystems.
use vstd::prelude::*;

verus! {

/// Why a page-table walk could not complete.
#[derive(Clone, Copy, Debug, PartialEq, Eq, Structural)]
pub enum MapError {
    /// A block mapping was found where only page mappings are supported.
    NotL3Mapped,
    /// A descriptor is valid but is neither a table nor a mapping.
    InvalidDescriptor,
}

/// The error type of the kernel subsystems.
#[derive(Clone, Copy, Debug, PartialEq, Eq, Structural)]
pub enum KernelError {
    /// An argument is outside the accepted range.
    InvalidValue,
    /// There is not enough memory, or not enough address space.
    NoMemory,
    /// No tracked memory region matches the request.
    NoMemRegion,
    /// An address is not mapped.
    Fault,
    /// The caller lacks a capability.
    NotPermitted,
    /// A page-table walk failed.
    MappingError(MapError),
}

/// The result type of the kernel subsystems.
pub type Result<T> = core::result::Result<T, KernelError>;

} // verus!
