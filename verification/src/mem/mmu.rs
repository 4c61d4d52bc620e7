//! Architecture-neutral page-table entry flags as used by the memory manager.
use vstd::prelude::*;

verus! {

/// Entry is valid.
pub const V: u32 = 0x1;
/// Page is readable.
pub const R: u32 = 0x2;
/// Page is writable.
pub const W: u32 = 0x4;
/// Page is executable.
pub const X: u32 = 0x8;
/// Page is accessible from user mode.
pub const U: u32 = 0x10;
/// Mapping is global (present in every address space).
pub const G: u32 = 0x20;
/// Page has been accessed.
pub const A: u32 = 0x40;
/// Page has been written to.
pub const D: u32 = 0x80;
/// The page's refcount counts this mapping.
pub const REFCOUNT: u32 = 0x100;
/// Page is non-cacheable, idempotent, weakly-ordered memory.
pub const NC: u32 = 0x200;
/// Page is non-cacheable, non-idempotent, strongly-ordered memory (memory-mapped I/O).
pub const IO: u32 = 0x400;

/// Read and write.
pub const RW: u32 = 0x6;
/// Read and execute.
pub const RX: u32 = 0xa;
/// Read, write and execute.
pub const RWX: u32 = 0xe;

} // verus!
