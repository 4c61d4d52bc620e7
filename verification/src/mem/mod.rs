//! Memory management: physical pages, page tables and address spaces.
pub mod arith;
pub mod dma;
pub mod heap;
pub mod map;
pub mod memobject;
pub mod mmu;
pub mod pagecache;
pub mod physmap;
pub mod pmm;
pub mod prot;
pub mod vmfence;
