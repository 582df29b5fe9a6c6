//! Seals the [`crate::Decimal`] trait: only the unsigned integer widths of
//! this crate implement it.
use vstd::prelude::*;

verus! {

/// Marker trait that only `u8`, `u16`, `u32`, `u64` and `u128` implement.
pub trait Sealed {

}

impl Sealed for u8 {

}

impl Sealed for u16 {

}

impl Sealed for u32 {

}

impl Sealed for u64 {

}

impl Sealed for u128 {

}

} // verus!
