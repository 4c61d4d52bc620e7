//! Build-time configuration of the kernel.
use vstd::prelude::*;

verus! {

/// Size in bytes of one page of memory.
pub const PAGE_SIZE: usize = 4096;

/// Log-base-2 of [`PAGE_SIZE`].
pub const PAGE_SHIFT: u32 = 12;

/// Number of virtual-address bits translated by one level of page table.
pub const BITS_PER_LEVEL: u32 = 9;

/// Number of entries in one page table.
pub const PTES_PER_TABLE: usize = 512;

} // verus!
