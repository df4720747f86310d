//! Plain Old Data trait and blanket implementations.
//!
//! Types that implement [`Pod`] can be created by copying their raw byte representation.
//! This is useful for reading on-disk structures from block devices.
use vstd::prelude::*;

verus! {

/// Marks types that are "Plain Old Data": simple collections of bytes with no invalid bit
/// patterns.
///
/// An implementor has a fixed, known layout, contains no padding bytes, and all possible
/// bit patterns for its size are valid instances. For example, a `bool` is not `Pod`
/// because its valid representations are only 0x00 and 0x01. A `u32` is `Pod` because all
/// bit patterns are valid `u32` values.
pub trait Pod: Sized {

}

impl Pod for u8 {

}

impl Pod for u16 {

}

impl Pod for u32 {

}

impl Pod for u64 {

}

impl Pod for u128 {

}

impl Pod for i8 {

}

impl Pod for i16 {

}

impl Pod for i32 {

}

impl Pod for i64 {

}

impl Pod for i128 {

}

impl<T: Pod, const N: usize> Pod for [T; N] {

}

} // verus!
