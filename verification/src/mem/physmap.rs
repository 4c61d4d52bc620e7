//! Page tables: the architecture-neutral view of the CPU's virtual-to-physical map, and the
//! canonical-address rules of a paging mode with a given number of levels.
use vstd::prelude::*;
use vstd::arithmetic::power2::*;
use vstd::std_specs::cmp::PartialEqSpecImpl;
use crate::config::{PAGE_SIZE, PAGE_SHIFT, BITS_PER_LEVEL, PTES_PER_TABLE};
use crate::errno::{Errno, EResult};
use crate::mem::arith::{lemma_pow2_fits_usize, lemma_page_div, lemma_one_shl, lemma_shr, lemma_pow2_usize_bits, lemma_pow2_mono, lemma_pow2_succ, lemma_shl};
use crate::mem::mmu;
use crate::mem::pmm::{PhysAllocator, PageUsage, block_set, last_of, lowest_from, allocated_from};

verus! {

/// Generic representation of a page table entry.
#[derive(Debug, Clone, Copy)]
pub struct PTE {
    /// Physical page number that this PTE points to.
    pub ppn: usize,
    /// Page protection flags, see [`crate::mem::mmu`].
    pub flags: u32,
    /// At what level of the page table this PTE is stored.
    pub level: u8,
    /// Whether this PTE is valid.
    pub valid: bool,
    /// Whether this is a leaf PTE.
    pub leaf: bool,
}

/// Two PTEs are equal when they map the same page with the same access rights at the same level;
/// the leaf bit of two invalid PTEs does not matter.
pub open spec fn pte_eq(a: PTE, b: PTE) -> bool {
    &&& a.ppn == b.ppn
    &&& (a.flags & mmu::RWX) == (b.flags & mmu::RWX)
    &&& a.level == b.level
    &&& a.valid == b.valid
    &&& (a.leaf == b.leaf || !a.valid && !b.valid)
}

impl PartialEq for PTE {
    fn eq(&self, other: &Self) -> (r: bool) {
        self.ppn == other.ppn && (self.flags & mmu::RWX) == (other.flags & mmu::RWX) && self.level
            == other.level && self.valid == other.valid && (self.leaf == other.leaf || !self.valid
            && !other.valid)
    }
}

impl PartialEqSpecImpl for PTE {
    open spec fn obeys_eq_spec() -> bool {
        true
    }

    open spec fn eq_spec(&self, other: &PTE) -> bool {
        pte_eq(*self, *other)
    }
}

/// The PTE that represents unmapped memory.
pub open spec fn null_pte() -> PTE {
    PTE { ppn: 0, flags: 0, level: 0, valid: false, leaf: false }
}

impl PTE {
    /// The PTE that represents unmapped memory.
    pub fn null() -> (r: PTE)
        ensures
            r == null_pte(),
    {
        PTE { ppn: 0, flags: 0, level: 0, valid: false, leaf: false }
    }

    /// Whether this PTE represents unmapped memory (as some invalid PTEs may encode demand-mapped things).
    pub fn is_null(&self) -> (r: bool)
        ensures
            r == (self.ppn == 0 && self.flags == 0 && !self.valid),
    {
        self.ppn == 0 && self.flags == 0 && !self.valid
    }
}

// ---------------------------------------------------------------------------------------------
// Canonical addresses.
// ---------------------------------------------------------------------------------------------

/// Number of virtual-address bits of a paging mode with `levels` levels of page table.
pub open spec fn vaddr_bits(levels: u32) -> nat {
    (PAGE_SHIFT + BITS_PER_LEVEL * levels) as nat
}

/// A paging mode that has at least one level and whose virtual addresses fit a `usize`.
pub open spec fn levels_ok(levels: u32) -> bool {
    1 <= levels && vaddr_bits(levels) <= usize::BITS
}

/// Size in bytes of one half of the canonical address space.
pub open spec fn half_size(levels: u32) -> int {
    pow2((vaddr_bits(levels) - 1) as nat) as int
}

/// Size in pages of one half of the canonical address space.
pub open spec fn half_pages(levels: u32) -> int {
    pow2((BITS_PER_LEVEL * levels - 1) as nat) as int
}

/// 2^`usize::BITS`: one more than the largest address.
pub open spec fn addr_space() -> int {
    pow2(usize::BITS as nat) as int
}

/// An address is canonical when its bits above the translated ones all equal the topmost
/// translated bit: it lies in the lowest or in the highest half-size of the address space.
pub open spec fn canon_addr(addr: usize, levels: u32) -> bool {
    addr < half_size(levels) || addr >= addr_space() - half_size(levels)
}

/// A canonical address whose sign bit is set.
pub open spec fn canon_kernel_addr(addr: usize, levels: u32) -> bool {
    canon_addr(addr, levels) && addr >= pow2((usize::BITS - 1) as nat)
}

/// A canonical address whose sign bit is clear.
pub open spec fn canon_user_addr(addr: usize, levels: u32) -> bool {
    canon_addr(addr, levels) && addr < pow2((usize::BITS - 1) as nat)
}

/// The bits of a page number that denote an address; the upper `PAGE_SHIFT` bits are ignored.
pub open spec fn vpn_bits(vpn: usize) -> int {
    vpn as int % pow2((usize::BITS - PAGE_SHIFT) as nat) as int
}

/// A page number is canonical when the address bits of its page are.
pub open spec fn canon_page(vpn: usize, levels: u32) -> bool {
    vpn_bits(vpn) < half_pages(levels) || vpn_bits(vpn) >= pow2((usize::BITS - PAGE_SHIFT) as nat)
        - half_pages(levels)
}

/// A canonical page number whose page address has its sign bit set.
pub open spec fn canon_kernel_page(vpn: usize, levels: u32) -> bool {
    canon_page(vpn, levels) && vpn_bits(vpn) >= pow2((usize::BITS - PAGE_SHIFT - 1) as nat)
}

/// A canonical page number whose page address has its sign bit clear.
pub open spec fn canon_user_page(vpn: usize, levels: u32) -> bool {
    canon_page(vpn, levels) && vpn_bits(vpn) < pow2((usize::BITS - PAGE_SHIFT - 1) as nat)
}

proof fn lemma_levels(levels: u32)
    requires
        levels_ok(levels),
    ensures
        0 < half_size(levels) <= pow2((usize::BITS - 1) as nat),
        0 < half_pages(levels) <= pow2((usize::BITS - PAGE_SHIFT - 1) as nat),
        pow2((usize::BITS - 1) as nat) <= usize::MAX,
        addr_space() == usize::MAX + 1,
        addr_space() == 2 * pow2((usize::BITS - 1) as nat),
        pow2((usize::BITS - PAGE_SHIFT) as nat) == 2 * pow2((usize::BITS - PAGE_SHIFT - 1) as nat),
        half_size(levels) == PAGE_SIZE * half_pages(levels),
{
    lemma_pow2_usize_bits();
    lemma_pow2_pos((vaddr_bits(levels) - 1) as nat);
    lemma_pow2_pos((BITS_PER_LEVEL * levels - 1) as nat);
    lemma_pow2_mono((vaddr_bits(levels) - 1) as nat, (usize::BITS - 1) as nat);
    lemma_pow2_mono((BITS_PER_LEVEL * levels - 1) as nat, (usize::BITS - PAGE_SHIFT - 1) as nat);
    lemma_pow2_succ((usize::BITS - 1) as nat);
    lemma_pow2_succ((usize::BITS - PAGE_SHIFT - 1) as nat);
    lemma_pow2_adds(PAGE_SHIFT as nat, (BITS_PER_LEVEL * levels - 1) as nat);
    lemma2_to64();
}

/// Determine whether an address is canonical.
pub fn is_canon_addr(addr: usize, levels: u32) -> (r: bool)
    requires
        levels_ok(levels),
    ensures
        r == canon_addr(addr, levels),
{
    let k: usize = (PAGE_SHIFT + BITS_PER_LEVEL * levels - 1) as usize;
    proof {
        lemma_levels(levels);
        lemma_one_shl(k);
    }
    let half: usize = 1usize << k;
    addr < half || addr >= (usize::MAX - half) + 1
}

/// Determine whether an address is a canonical kernel address.
pub fn is_canon_kernel_addr(addr: usize, levels: u32) -> (r: bool)
    requires
        levels_ok(levels),
    ensures
        r == canon_kernel_addr(addr, levels),
{
    let k: usize = (usize::BITS - 1) as usize;
    proof {
        lemma_levels(levels);
        lemma_one_shl(k);
    }
    is_canon_addr(addr, levels) && addr >= (1usize << k)
}

/// Determine whether an address is a canonical user address.
pub fn is_canon_user_addr(addr: usize, levels: u32) -> (r: bool)
    requires
        levels_ok(levels),
    ensures
        r == canon_user_addr(addr, levels),
{
    let k: usize = (usize::BITS - 1) as usize;
    proof {
        lemma_levels(levels);
        lemma_one_shl(k);
    }
    is_canon_addr(addr, levels) && addr < (1usize << k)
}

/// Whether every address of a range is canonical (an empty range only needs its start).
pub open spec fn canon_range(range: core::ops::Range<usize>, levels: u32) -> bool {
    if range.end <= range.start {
        canon_addr(range.start, levels)
    } else {
        forall|a: usize| range.start <= a < range.end ==> #[trigger] canon_addr(a, levels)
    }
}

/// Whether both ends of an address range are canonical kernel addresses.
pub open spec fn canon_kernel_range(range: core::ops::Range<usize>, levels: u32) -> bool {
    canon_kernel_addr(range.start, levels) && (range.end <= range.start || canon_kernel_addr(
        (range.end - 1) as usize,
        levels,
    ))
}

/// Whether both ends of an address range are canonical user addresses.
pub open spec fn canon_user_range(range: core::ops::Range<usize>, levels: u32) -> bool {
    canon_user_addr(range.start, levels) && (range.end <= range.start || canon_user_addr(
        (range.end - 1) as usize,
        levels,
    ))
}

/// Determine whether an address range is canonical: both ends are, and they lie in the same
/// half of the address space, so that the range does not cross the non-canonical hole.
pub fn is_canon_range(range: core::ops::Range<usize>, levels: u32) -> (r: bool)
    requires
        levels_ok(levels),
    ensures
        r == canon_range(range, levels),
{
    let k: usize = (PAGE_SHIFT + BITS_PER_LEVEL * levels - 1) as usize;
    proof {
        lemma_levels(levels);
        lemma_one_shl(k);
        lemma_pow2_strictly_increases(k as nat, (usize::BITS - 1) as nat);
    }
    let half: usize = 1usize << k;
    let r = is_canon_addr(range.start, levels) && (range.end <= range.start || (is_canon_addr(
        range.end - 1,
        levels,
    ) && (range.start < half) == (range.end - 1 < half)));
    proof {
        if range.end > range.start {
            if r {
                assert forall|a: usize| range.start <= a < range.end implies #[trigger] canon_addr(a, levels) by {
                }
            } else if canon_addr(range.start, levels) && canon_addr((range.end - 1) as usize, levels) {
                assert(!canon_addr(half, levels));
            }
        }
    }
    r
}

/// Determine whether an address range is a canonical kernel range.
pub fn is_canon_kernel_range(range: core::ops::Range<usize>, levels: u32) -> (r: bool)
    requires
        levels_ok(levels),
    ensures
        r == canon_kernel_range(range, levels),
{
    is_canon_kernel_addr(range.start, levels) && (range.end <= range.start || is_canon_kernel_addr(
        range.end - 1,
        levels,
    ))
}

/// Determine whether an address range is a canonical user range.
pub fn is_canon_user_range(range: core::ops::Range<usize>, levels: u32) -> (r: bool)
    requires
        levels_ok(levels),
    ensures
        r == canon_user_range(range, levels),
{
    is_canon_user_addr(range.start, levels) && (range.end <= range.start || is_canon_user_addr(
        range.end - 1,
        levels,
    ))
}

/// The address bits of a page number.
fn page_bits(vpn: usize) -> (r: usize)
    ensures
        r == vpn_bits(vpn),
        r < pow2((usize::BITS - PAGE_SHIFT) as nat),
{
    let k: usize = (usize::BITS - PAGE_SHIFT) as usize;
    proof {
        lemma_one_shl(k);
        lemma_pow2_pos(k as nat);
    }
    vpn % (1usize << k)
}

/// Determine whether a page number is canonical.
pub fn is_canon_page(vpn: usize, levels: u32) -> (r: bool)
    requires
        levels_ok(levels),
    ensures
        r == canon_page(vpn, levels),
{
    let v = page_bits(vpn);
    let k: usize = (BITS_PER_LEVEL * levels - 1) as usize;
    let top: usize = (usize::BITS - PAGE_SHIFT) as usize;
    proof {
        lemma_levels(levels);
        lemma_one_shl(k);
        lemma_one_shl(top);
    }
    let half: usize = 1usize << k;
    v < half || v >= (1usize << top) - half
}

/// Determine whether a page number is a canonical kernel page.
pub fn is_canon_kernel_page(vpn: usize, levels: u32) -> (r: bool)
    requires
        levels_ok(levels),
    ensures
        r == canon_kernel_page(vpn, levels),
{
    let k: usize = (usize::BITS - PAGE_SHIFT - 1) as usize;
    proof {
        lemma_levels(levels);
        lemma_one_shl(k);
    }
    is_canon_page(vpn, levels) && page_bits(vpn) >= (1usize << k)
}

/// A page number is a canonical kernel (or user) page exactly when the address of its first
/// byte, the page number times the page size with the bits beyond an address dropped, is a
/// canonical kernel (or user) address.
pub proof fn lemma_page_of_addr(vpn: usize, levels: u32)
    requires
        levels_ok(levels),
    ensures
        canon_page(vpn, levels) == canon_addr(vpn.wrapping_mul(PAGE_SIZE), levels),
        canon_kernel_page(vpn, levels) == canon_kernel_addr(vpn.wrapping_mul(PAGE_SIZE), levels),
        canon_user_page(vpn, levels) == canon_user_addr(vpn.wrapping_mul(PAGE_SIZE), levels),
{
    lemma_levels(levels);
    lemma_pow2_usize_bits();
    lemma2_to64();
    let q = pow2((usize::BITS - PAGE_SHIFT) as nat) as int;
    let h = pow2((usize::BITS - PAGE_SHIFT - 1) as nat) as int;
    lemma_pow2_adds(PAGE_SHIFT as nat, (usize::BITS - PAGE_SHIFT) as nat);
    lemma_pow2_adds(PAGE_SHIFT as nat, (usize::BITS - PAGE_SHIFT - 1) as nat);
    assert(addr_space() == 4096 * q);
    assert(pow2((usize::BITS - 1) as nat) == 4096 * h);
    let r = vpn_bits(vpn);
    let d = vpn as int / q;
    vstd::arithmetic::div_mod::lemma_fundamental_div_mod(vpn as int, q);
    assert(0 <= r < q);
    assert(vpn as int * 4096 == d * (4096 * q) + 4096 * r) by (nonlinear_arith)
        requires
            vpn as int == q * d + r,
    ;
    vstd::arithmetic::div_mod::lemma_fundamental_div_mod_converse(vpn as int * 4096, 4096 * q, d, 4096 * r);
    let a = vpn.wrapping_mul(PAGE_SIZE);
    assert(a == 4096 * r);
}

/// Determine whether a page number is a canonical user page.
pub fn is_canon_user_page(vpn: usize, levels: u32) -> (r: bool)
    requires
        levels_ok(levels),
    ensures
        r == canon_user_page(vpn, levels),
{
    let k: usize = (usize::BITS - PAGE_SHIFT - 1) as usize;
    proof {
        lemma_levels(levels);
        lemma_one_shl(k);
    }
    is_canon_page(vpn, levels) && page_bits(vpn) < (1usize << k)
}

/// Whether both ends of a page-number range are canonical.
pub open spec fn canon_page_range(range: core::ops::Range<usize>, levels: u32) -> bool {
    canon_page(range.start, levels) && (range.end <= range.start || canon_page(
        (range.end - 1) as usize,
        levels,
    ))
}

/// Whether both ends of a page-number range are canonical kernel pages.
pub open spec fn canon_kernel_page_range(range: core::ops::Range<usize>, levels: u32) -> bool {
    canon_kernel_page(range.start, levels) && (range.end <= range.start || canon_kernel_page(
        (range.end - 1) as usize,
        levels,
    ))
}

/// Whether both ends of a page-number range are canonical user pages.
pub open spec fn canon_user_page_range(range: core::ops::Range<usize>, levels: u32) -> bool {
    canon_user_page(range.start, levels) && (range.end <= range.start || canon_user_page(
        (range.end - 1) as usize,
        levels,
    ))
}

/// Determine whether a page-number range is canonical.
pub fn is_canon_page_range(range: core::ops::Range<usize>, levels: u32) -> (r: bool)
    requires
        levels_ok(levels),
    ensures
        r == canon_page_range(range, levels),
{
    is_canon_page(range.start, levels) && (range.end <= range.start || is_canon_page(
        range.end - 1,
        levels,
    ))
}

/// Determine whether a page-number range is a canonical kernel range.
pub fn is_canon_kernel_page_range(range: core::ops::Range<usize>, levels: u32) -> (r: bool)
    requires
        levels_ok(levels),
    ensures
        r == canon_kernel_page_range(range, levels),
{
    is_canon_kernel_page(range.start, levels) && (range.end <= range.start || is_canon_kernel_page(
        range.end - 1,
        levels,
    ))
}

/// Determine whether a page-number range is a canonical user range.
pub fn is_canon_user_page_range(range: core::ops::Range<usize>, levels: u32) -> (r: bool)
    requires
        levels_ok(levels),
    ensures
        r == canon_user_page_range(range, levels),
{
    is_canon_user_page(range.start, levels) && (range.end <= range.start || is_canon_user_page(
        range.end - 1,
        levels,
    ))
}

/// The half-size of the canonical address space is a multiple of four pages.
pub proof fn lemma_half_size_aligned(levels: u32)
    requires
        levels_ok(levels),
    ensures
        half_size(levels) % PAGE_SIZE as int == 0,
        (half_size(levels) / 2) % PAGE_SIZE as int == 0,
        (half_size(levels) / 4) % PAGE_SIZE as int == 0,
        half_size(levels) >= 4 * PAGE_SIZE,
        half_size(levels) <= pow2((usize::BITS - 1) as nat),
        pow2((usize::BITS - 1) as nat) <= usize::MAX,
        usize::MAX + 1 == 2 * pow2((usize::BITS - 1) as nat),
        (usize::MAX + 1) % PAGE_SIZE as int == 0,
{
    lemma_levels(levels);
    lemma_pow2_usize_bits();
    lemma2_to64();
    lemma_pow2_adds(PAGE_SHIFT as nat, (usize::BITS - PAGE_SHIFT) as nat);
    assert((usize::MAX + 1) % 4096 == 0) by (nonlinear_arith)
        requires
            usize::MAX + 1 == 4096 * pow2((usize::BITS - PAGE_SHIFT) as nat),
    ;
    let k = (BITS_PER_LEVEL * levels - 1) as nat;
    lemma_pow2_adds(2, (k - 2) as nat);
    lemma_pow2_pos((k - 2) as nat);
    lemma2_to64();
    let h = half_pages(levels);
    let q = pow2((k - 2) as nat) as int;
    assert(h == 4 * q);
    assert(half_size(levels) % 4096 == 0 && (half_size(levels) / 2) % 4096 == 0 && (half_size(levels) / 4) % 4096 == 0
        && half_size(levels) >= 4 * 4096) by (nonlinear_arith)
        requires
            half_size(levels) == 4096 * h,
            h == 4 * q,
            q >= 1,
    ;
}

/// Get the size in pages of a "half" of the canonical ranges.
pub fn canon_half_pages(levels: u32) -> (r: usize)
    requires
        levels_ok(levels),
    ensures
        r == half_pages(levels),
{
    let k: usize = (BITS_PER_LEVEL * levels - 1) as usize;
    proof {
        lemma_levels(levels);
        lemma_one_shl(k);
    }
    1usize << k
}

/// Get the size in bytes of a "half" of the canonical ranges.
pub fn canon_half_size(levels: u32) -> (r: usize)
    requires
        levels_ok(levels),
    ensures
        r == half_size(levels),
{
    let k: usize = (BITS_PER_LEVEL * levels - 1) as usize;
    proof {
        lemma_levels(levels);
        lemma_pow2_adds(PAGE_SHIFT as nat, k as nat);
        lemma2_to64();
        lemma_shl(PAGE_SIZE, k);
    }
    PAGE_SIZE << k
}

/// Get the page number of the start of the higher half.
pub fn higher_half_page(levels: u32) -> (r: usize)
    requires
        levels_ok(levels),
    ensures
        r == usize::MAX / PAGE_SIZE - half_pages(levels) + 1,
{
    proof {
        lemma_levels(levels);
    }
    usize::MAX / PAGE_SIZE - canon_half_pages(levels) + 1
}

/// Get the address of the start of the higher half.
pub fn higher_half_vaddr(levels: u32) -> (r: usize)
    requires
        levels_ok(levels),
    ensures
        r == usize::MAX - half_size(levels) + 1,
{
    proof {
        lemma_levels(levels);
    }
    usize::MAX - canon_half_size(levels) + 1
}

/// Result of a virtual to physical lookup.
#[derive(Clone, Copy, Debug)]
pub struct Virt2Phys {
    /// Virtual address of page start.
    pub page_vaddr: usize,
    /// Physical address of page start.
    pub page_paddr: usize,
    /// Size of the mapping in bytes.
    pub size: usize,
    /// Physical address.
    pub paddr: usize,
    /// Flags of the mapping.
    pub flags: u32,
    /// Whether the mapping exists; if false, only `page_vaddr` and `size` are valid.
    pub valid: bool,
}

/// A translation with a page of positive size that holds the translated address.
pub open spec fn v2p_ok(t: Virt2Phys) -> bool {
    &&& t.size > 0
    &&& t.page_paddr <= t.paddr
    &&& t.paddr < t.page_paddr + t.size
    &&& t.page_paddr + t.size <= usize::MAX + 1
}

// ---------------------------------------------------------------------------------------------
// Page tables.
// ---------------------------------------------------------------------------------------------

/// Index in the page table of the given level for the given virtual page number.
pub open spec fn vpn_index(vpn: usize, level: nat) -> int {
    (vpn as int / pow2((BITS_PER_LEVEL * level) as nat) as int) % PTES_PER_TABLE as int
}

/// Number of pages that one entry of a page table of the given level maps.
pub open spec fn level_pages(level: nat) -> int {
    pow2((BITS_PER_LEVEL * level) as nat) as int
}

/// A leaf of the given level whose whole range of physical addresses fits a `usize`.
pub open spec fn leaf_fits(ppn: usize, level: nat) -> bool {
    (ppn + level_pages(level)) * PAGE_SIZE <= usize::MAX + 1
}

proof fn lemma_vpn_index_range(vpn: usize, level: nat)
    ensures
        0 <= vpn_index(vpn, level) < PTES_PER_TABLE,
{
    lemma_pow2_pos((BITS_PER_LEVEL * level) as nat);
}

/// The page at a page-aligned physical address fits below the end of the address space.
pub proof fn lemma_page_fits(paddr: usize)
    requires
        paddr % PAGE_SIZE == 0,
    ensures
        leaf_fits((paddr / PAGE_SIZE) as usize, 0),
{
    lemma_pow2_usize_bits();
    lemma_pow2_adds(PAGE_SHIFT as nat, (usize::BITS - PAGE_SHIFT) as nat);
    lemma2_to64();
    let q = pow2((usize::BITS - PAGE_SHIFT) as nat) as int;
    assert(usize::MAX + 1 == 4096 * q);
    assert(paddr + 4096 <= usize::MAX + 1) by (nonlinear_arith)
        requires
            paddr % 4096 == 0,
            paddr <= usize::MAX,
            usize::MAX + 1 == 4096 * q,
    ;
    assert((paddr / PAGE_SIZE + 1) * PAGE_SIZE == paddr + 4096) by (nonlinear_arith)
        requires
            paddr % 4096 == 0,
            PAGE_SIZE == 4096,
    ;
}

/// An entry that may be stored at the given level: a leaf that fits, or an invalid entry that
/// points nowhere.
pub open spec fn storable(p: PTE, level: nat) -> bool {
    &&& p.valid ==> p.leaf && leaf_fits(p.ppn, level)
    &&& !p.valid ==> p.ppn == 0
}

/// Get the index in the given page table level for the given virtual page number.
fn get_vpn_index(vpn: usize, level: u8) -> (r: usize)
    requires
        BITS_PER_LEVEL * level < usize::BITS,
    ensures
        r == vpn_index(vpn, level as nat),
        r < PTES_PER_TABLE,
{
    let k: usize = (BITS_PER_LEVEL * level as u32) as usize;
    proof {
        lemma_shr(vpn, k);
    }
    (vpn >> k) % PTES_PER_TABLE
}

/// A walk's result that maps a superpage: a valid leaf above the last level.
pub open spec fn is_superpage(p: PTE) -> bool {
    p.valid && p.leaf && p.level > 0
}

/// Pages `v` and `w` differ in the index of some page-table level from `level` up: their walks
/// part before reaching that level's entry.
pub open spec fn differs_above(v: usize, w: usize, level: int, levels: u32) -> bool {
    exists|k: int| level <= k < levels && #[trigger] vpn_index(v, k as nat) != vpn_index(w, k as nat)
}

/// Page numbers whose indices agree at the `n` lowest levels agree in their `9 * n` lowest bits.
proof fn lemma_same_indices(v: usize, w: usize, n: nat)
    requires
        forall|k: int| 0 <= k < n ==> #[trigger] vpn_index(v, k as nat) == vpn_index(w, k as nat),
    ensures
        v as int % pow2((BITS_PER_LEVEL * n) as nat) as int == w as int % pow2((BITS_PER_LEVEL * n) as nat) as int,
    decreases n,
{
    if n == 0 {
        lemma2_to64();
        assert(pow2(0) == 1);
    } else {
        let m = (n - 1) as nat;
        lemma_same_indices(v, w, m);
        let p = pow2((BITS_PER_LEVEL * m) as nat) as int;
        lemma_pow2_pos((BITS_PER_LEVEL * m) as nat);
        lemma_pow2_adds((BITS_PER_LEVEL * m) as nat, BITS_PER_LEVEL as nat);
        lemma2_to64();
        assert(BITS_PER_LEVEL * n == BITS_PER_LEVEL * m + BITS_PER_LEVEL);
        assert(pow2((BITS_PER_LEVEL * n) as nat) as int == p * 512);
        assert(vpn_index(v, m) == vpn_index(w, m));
        vstd::arithmetic::div_mod::lemma_mod_breakdown(v as int, p, 512);
        vstd::arithmetic::div_mod::lemma_mod_breakdown(w as int, p, 512);
    }
}

/// The page number of a page whose address fits a `usize` is all address bits.
pub proof fn lemma_vpn_bits_small(v: usize)
    requires
        v * PAGE_SIZE <= usize::MAX,
    ensures
        vpn_bits(v) == v,
{
    lemma_pow2_usize_bits();
    lemma2_to64();
    lemma_pow2_adds(PAGE_SHIFT as nat, (usize::BITS - PAGE_SHIFT) as nat);
    let q = pow2((usize::BITS - PAGE_SHIFT) as nat) as int;
    assert(v < q) by (nonlinear_arith)
        requires
            v * 4096 <= usize::MAX,
            usize::MAX + 1 == 4096 * q,
    ;
    vstd::arithmetic::div_mod::lemma_small_mod(v as nat, q as nat);
}

/// Every page in the top half of the canonical address space is canonical.
pub proof fn lemma_top_half_canon(a: usize, levels: u32)
    requires
        levels_ok(levels),
        a >= usize::MAX - half_size(levels) + 1,
    ensures
        canon_page(a / PAGE_SIZE, levels),
{
    lemma_levels(levels);
    lemma_pow2_usize_bits();
    lemma2_to64();
    lemma_pow2_adds(PAGE_SHIFT as nat, (usize::BITS - PAGE_SHIFT) as nat);
    let q = pow2((usize::BITS - PAGE_SHIFT) as nat) as int;
    let h = half_pages(levels);
    let w = a / PAGE_SIZE;
    assert(w * 4096 <= a && w >= q - h) by (nonlinear_arith)
        requires
            w == a / 4096,
            usize::MAX + 1 == 4096 * q,
            a >= usize::MAX - 4096 * h + 1,
    ;
    lemma_vpn_bits_small(w);
}

/// Two canonical pages at different addresses differ in an index that the page tables
/// translate: a change to the translation of one leaves that of the other alone.
pub proof fn lemma_canon_pages_differ(v: usize, w: usize, levels: u32)
    requires
        levels_ok(levels),
        canon_page(v, levels),
        canon_page(w, levels),
        vpn_bits(v) != vpn_bits(w),
    ensures
        differs_above(v, w, 0, levels),
{
    if !differs_above(v, w, 0, levels) {
        lemma_levels(levels);
        lemma_pow2_usize_bits();
        lemma2_to64();
        let n = levels as nat;
        assert forall|k: int| 0 <= k < n implies #[trigger] vpn_index(v, k as nat) == vpn_index(w, k as nat) by {
            assert(0 <= k < levels);
        }
        lemma_same_indices(v, w, n);
        let big = pow2((BITS_PER_LEVEL * n) as nat) as int;
        let h = half_pages(levels);
        let q = pow2((usize::BITS - PAGE_SHIFT) as nat) as int;
        let e = (usize::BITS - PAGE_SHIFT - BITS_PER_LEVEL * n) as nat;
        lemma_pow2_adds((BITS_PER_LEVEL * n - 1) as nat, 1);
        lemma_pow2_adds((BITS_PER_LEVEL * n) as nat, e);
        lemma_pow2_pos(e);
        assert(big == 2 * h);
        assert(q == big * pow2(e));
        let x = vpn_bits(v);
        let y = vpn_bits(w);
        vstd::arithmetic::div_mod::lemma_mod_mod(v as int, big, pow2(e) as int);
        vstd::arithmetic::div_mod::lemma_mod_mod(w as int, big, pow2(e) as int);
        assert(x % big == y % big);
        vstd::arithmetic::div_mod::lemma_fundamental_div_mod(x, big);
        vstd::arithmetic::div_mod::lemma_fundamental_div_mod(y, big);
        let dx = x / big;
        let dy = y / big;
        assert(x - y == big * (dx - dy)) by (nonlinear_arith)
            requires
                x == big * dx + x % big,
                y == big * dy + y % big,
                x % big == y % big,
        ;
        assert(0 <= x < q && 0 <= y < q);
        if (x < h && y < h) || (x >= q - h && y >= q - h) {
            assert(false) by (nonlinear_arith)
                requires
                    x - y == big * (dx - dy),
                    -h < x - y < h,
                    x != y,
                    big == 2 * h,
                    h > 0,
            ;
        } else {
            // One page lies in the lower half and the other in the upper one: they are less
            // than the whole space and more than the whole space less `big` apart, and no
            // multiple of `big` lies there.
            let t = pow2(e) as int;
            let k = dx - dy;
            assert(x - y == big * k);
            assert(big * (t - 1) == q - big && big * (1 - t) == big - q) by (nonlinear_arith)
                requires
                    q == big * t,
            ;
            if x < h {
                assert(big * (-t) < big * k < big * (1 - t)) by (nonlinear_arith)
                    requires
                        x - y == big * k,
                        q == big * t,
                        big * (1 - t) == big - q,
                        x < h,
                        0 <= x,
                        q - h <= y < q,
                        big == 2 * h,
                ;
                assert(-t < k < 1 - t) by (nonlinear_arith)
                    requires
                        big * (-t) < big * k < big * (1 - t),
                        big > 0,
                ;
            } else {
                assert(big * (t - 1) < big * k < big * t) by (nonlinear_arith)
                    requires
                        x - y == big * k,
                        q == big * t,
                        big * (t - 1) == q - big,
                        y < h,
                        0 <= y,
                        q - h <= x < q,
                        big == 2 * h,
                ;
                assert(t - 1 < k < t) by (nonlinear_arith)
                    requires
                        big * (t - 1) < big * k < big * t,
                        big > 0,
                ;
            }
        }
    }
}

/// Page `v` translates in `b` as it did in `a`, or it is unmapped in both, or it lay in a
/// superpage of `a` (which splitting may have broken up).
pub open spec fn walk_kept(a: PhysMap, b: PhysMap, v: usize) -> bool {
    let wa = a.walk_spec(v, 0);
    let wb = b.walk_spec(v, 0);
    wb == wa || (!wb.valid && !wa.valid) || is_superpage(wa)
}

/// The physical page that page `v` lands on under the leaf entry `w`.
pub open spec fn leaf_page(w: PTE, v: usize) -> int {
    w.ppn + v as int % level_pages(w.level as nat)
}

/// Between the tables `a` and `b`, page `v` still lands where it did: on the same entry, or on
/// none in either, or, where a superpage held it, on an entry that takes it to the same
/// physical page with the same flags.
pub open spec fn translation_kept(a: PhysMap, b: PhysMap, v: usize) -> bool {
    let wa = a.walk_spec(v, 0);
    let wb = b.walk_spec(v, 0);
    ||| wb == wa
    ||| !wb.valid && !wa.valid
    ||| is_superpage(wa) && wb.valid && wb.leaf && wb.flags == wa.flags && leaf_page(wb, v) == leaf_page(wa, v)
}

/// Keeping a page's translation twice keeps it.
pub proof fn lemma_translation_kept_trans(a: PhysMap, b: PhysMap, c: PhysMap, v: usize)
    requires
        translation_kept(a, b, v),
        translation_kept(b, c, v),
    ensures
        translation_kept(a, c, v),
{
}

/// A page's place in a superpage of `lvl` is its place in the entry of the level below
/// that holds it, after that entry's own offset.
proof fn lemma_split_page(v: usize, lvl: nat)
    requires
        lvl >= 1,
    ensures
        vpn_index(v, (lvl - 1) as nat) * level_pages((lvl - 1) as nat) + v as int % level_pages((lvl - 1) as nat)
            == v as int % level_pages(lvl),
        level_pages(lvl) == level_pages((lvl - 1) as nat) * 512,
        level_pages((lvl - 1) as nat) > 0,
{
    let k = (BITS_PER_LEVEL * (lvl - 1)) as nat;
    assert((BITS_PER_LEVEL * lvl) as nat == k + 9);
    lemma_pow2_adds(k, 9);
    lemma2_to64();
    lemma_pow2_pos(k);
    let l = pow2(k) as int;
    vstd::arithmetic::div_mod::lemma_breakdown(v as int, l, 512);
    assert(level_pages(lvl) == l * 512);
    assert(level_pages((lvl - 1) as nat) == l);
    assert(vpn_index(v, (lvl - 1) as nat) == (v as int / l) % 512);
    assert(((v as int / l) % 512) * l == l * ((v as int / l) % 512)) by (nonlinear_arith);
}

/// Keeping a page's translation twice keeps it.
pub proof fn lemma_walk_kept_trans(a: PhysMap, b: PhysMap, c: PhysMap, v: usize)
    requires
        walk_kept(a, b, v),
        walk_kept(b, c, v),
    ensures
        walk_kept(a, c, v),
{
}

/// Page `v` differs, at some level, from every page of `lo..hi`.
pub open spec fn apart_from(v: usize, lo: int, hi: int, levels: u32) -> bool {
    forall|w: usize| lo <= w < hi ==> #[trigger] differs_above(v, w, 0, levels)
}

/// An entry that points to a page table one level down.
pub open spec fn is_table_ptr(e: PTE) -> bool {
    e.valid && !e.leaf
}

/// Physical mapping structure; informs the CPU of the virtual address map.
///
/// The page tables live in physical pages handed out by the [`PhysAllocator`]; each table is
/// kept here with its page number and its level, and its entries follow those of the tables
/// before it.
pub struct PhysMap {
    /// Page number of the root page table.
    root: usize,
    /// Number of levels of page table of the paging mode.
    levels: u32,
    /// Page number of every page table.
    ppns: Vec<usize>,
    /// Level of every page table.
    tlevels: Vec<u32>,
    /// The entries of every page table, `PTES_PER_TABLE` per table.
    entries: Vec<PTE>,
}

impl PhysMap {
    /// Page number of the root page table.
    pub closed spec fn spec_root(&self) -> usize {
        self.root
    }

    /// Number of levels of page table.
    pub closed spec fn spec_levels(&self) -> u32 {
        self.levels
    }

    /// The page numbers of the page tables.
    pub closed spec fn table_ppns(&self) -> Seq<usize> {
        self.ppns@
    }

    /// Position of the page table at page number `ppn`, or -1 if no table is there.
    pub closed spec fn slot_of(&self, ppn: int) -> int {
        if exists|s: int| 0 <= s < self.ppns@.len() && self.ppns@[s] == ppn {
            choose|s: int| 0 <= s < self.ppns@.len() && self.ppns@[s] == ppn
        } else {
            -1
        }
    }

    /// Entry `i` of the table at position `s`.
    spec fn entry(&self, s: int, i: int) -> PTE {
        self.entries@[PTES_PER_TABLE * s + i]
    }

    /// Entry `i` of the page table at page number `ppn`; a missing table reads as unmapped.
    pub closed spec fn read(&self, ppn: int, i: int) -> PTE {
        let s = self.slot_of(ppn);
        if s >= 0 {
            self.entry(s, i)
        } else {
            null_pte()
        }
    }

    /// The walk from the table at page number `ppn` of the given level down to `min_level` at
    /// the latest: it stops at an invalid entry, at a leaf or at `min_level`.
    pub closed spec fn walk_from(&self, ppn: int, vpn: usize, level: nat, min_level: nat) -> PTE
        decreases level,
    {
        let raw = self.read(ppn, vpn_index(vpn, level));
        let pte = PTE { level: level as u8, ..raw };
        if level <= min_level || (!pte.valid && level > 0) {
            pte
        } else if pte.valid && !pte.leaf {
            self.walk_from(pte.ppn as int, vpn, (level - 1) as nat, min_level)
        } else {
            pte
        }
    }

    /// The entry that translates virtual page `vpn`, read no deeper than `min_level`.
    pub closed spec fn walk_spec(&self, vpn: usize, min_level: nat) -> PTE {
        self.walk_from(self.root as int, vpn, (self.levels - 1) as nat, min_level)
    }

    /// Page number of the table at the given level on the way to `vpn`, if the walk gets there.
    spec fn path(&self, vpn: usize, level: int) -> Option<usize>
        decreases self.levels - 1 - level,
    {
        if level >= self.levels - 1 {
            if level == self.levels - 1 {
                Some(self.root)
            } else {
                None
            }
        } else {
            match self.path(vpn, level + 1) {
                Some(t) => {
                    let e = self.read(t as int, vpn_index(vpn, (level + 1) as nat));
                    if e.valid && !e.leaf {
                        Some(e.ppn)
                    } else {
                        None
                    }
                },
                None => None,
            }
        }
    }

    /// The page tables form a tree of the right depth under the root.
    pub closed spec fn wf(&self) -> bool {
        &&& levels_ok(self.levels)
        &&& self.ppns@.len() == self.tlevels@.len()
        &&& self.entries@.len() == PTES_PER_TABLE * self.ppns@.len()
        &&& forall|s1: int, s2: int|
            0 <= s1 < self.ppns@.len() && 0 <= s2 < self.ppns@.len() && s1 != s2
                ==> #[trigger] self.ppns@[s1] != #[trigger] self.ppns@[s2]
        &&& self.slot_of(self.root as int) >= 0
        &&& self.tlevels@[self.slot_of(self.root as int)] == self.levels - 1
        &&& forall|s: int| 0 <= s < self.tlevels@.len() ==> #[trigger] self.tlevels@[s] < self.levels
        &&& forall|s: int, i: int|
            0 <= s < self.ppns@.len() && 0 <= i < PTES_PER_TABLE ==> self.entry_ok(s, #[trigger] self.entry(s, i))
        &&& self.tree()
    }

    /// No two entries point to the same table, so that every table hangs from one place.
    spec fn tree(&self) -> bool {
        forall|s1: int, i1: int, s2: int, i2: int|
            0 <= s1 < self.ppns@.len() && 0 <= i1 < PTES_PER_TABLE && 0 <= s2 < self.ppns@.len() && 0 <= i2
                < PTES_PER_TABLE && is_table_ptr(#[trigger] self.entry(s1, i1)) && is_table_ptr(#[trigger] self.entry(s2, i2))
                && self.entry(s1, i1).ppn == self.entry(s2, i2).ppn ==> s1 == s2 && i1 == i2
    }

    /// An entry of the table at position `s`: a table pointer leads to a table one level down,
    /// and a leaf maps physical memory that exists.
    spec fn entry_ok(&self, s: int, e: PTE) -> bool {
        &&& (e.valid && !e.leaf && self.tlevels@[s] > 0) ==> exists|t: int|
            0 <= t < self.ppns@.len() && #[trigger] self.ppns@[t] == e.ppn && self.tlevels@[t] + 1
                == self.tlevels@[s]
        &&& (e.valid && !e.leaf) ==> self.tlevels@[s] > 0 && e.ppn * PAGE_SIZE <= usize::MAX
        &&& (e.valid && e.leaf) ==> leaf_fits(e.ppn, self.tlevels@[s] as nat)
        &&& !e.valid ==> e.ppn == 0
    }

    /// Every page table lies in a page of the allocator that it does not consider free.
    pub closed spec fn tables_in_use(&self, pmm: PhysAllocator) -> bool {
        forall|s: int| 0 <= s < self.ppns@.len() ==> !pmm.free_set().contains(#[trigger] self.ppns@[s] as int)
            && pmm.range_start() <= self.ppns@[s] < pmm.range_end()
            && pmm.usage_of(self.ppns@[s] as int) == PageUsage::PageTable
    }

    /// The page tables stay in use while the allocator only hands out more pages.
    pub proof fn lemma_tables_in_use_shrink(&self, p1: PhysAllocator, p2: PhysAllocator)
        requires
            self.tables_in_use(p1),
            allocated_from(p1, p2),
            p2.range_start() == p1.range_start(),
            p2.range_end() == p1.range_end(),
        ensures
            self.tables_in_use(p2),
    {
        assert forall|s: int| 0 <= s < self.ppns@.len() implies !p2.free_set().contains(#[trigger] self.ppns@[s] as int)
            && p2.range_start() <= self.ppns@[s] < p2.range_end()
            && p2.usage_of(self.ppns@[s] as int) == PageUsage::PageTable by {
            assert(!p1.free_set().contains(self.ppns@[s] as int));
        }
    }

    /// The page tables stay in use when a block that holds none of them is freed: its pages
    /// are used otherwise than for page tables.
    pub proof fn lemma_tables_in_use_free(&self, p1: PhysAllocator, p2: PhysAllocator, block: Set<int>)
        requires
            self.tables_in_use(p1),
            forall|p: int| block.contains(p) ==> #[trigger] p1.usage_of(p) != PageUsage::PageTable,
            p2.free_set() == p1.free_set().union(block),
            forall|p: int| !block.contains(p) ==> #[trigger] p2.usage_of(p) == p1.usage_of(p),
            p2.range_start() == p1.range_start(),
            p2.range_end() == p1.range_end(),
        ensures
            self.tables_in_use(p2),
    {
        assert forall|s: int| 0 <= s < self.ppns@.len() implies !p2.free_set().contains(#[trigger] self.ppns@[s] as int)
            && p2.range_start() <= self.ppns@[s] < p2.range_end()
            && p2.usage_of(self.ppns@[s] as int) == PageUsage::PageTable by {
            let t = self.ppns@[s] as int;
            assert(p1.usage_of(t) == PageUsage::PageTable);
            assert(!block.contains(t));
        }
    }

    /// The tables of a map whose tables the allocator holds never fill the table storage: they
    /// are distinct pages of the allocator, which has fewer pages than that.
    pub proof fn lemma_not_full(&self, pmm: PhysAllocator)
        requires
            self.wf(),
            pmm.wf(),
            self.tables_in_use(pmm),
        ensures
            !self.tables_full(),
    {
        crate::mem::pmm::lemma_range_fits(pmm);
        let q = self.ppns@.map_values(|p: usize| p as int);
        assert(q.no_duplicates()) by {
            assert forall|i: int, j: int| 0 <= i < q.len() && 0 <= j < q.len() && i != j implies q[i] != q[j] by {
                assert(self.ppns@[i] != self.ppns@[j]);
            }
        }
        q.unique_seq_to_set();
        let lo = pmm.range_start();
        let hi = pmm.range_end();
        vstd::set_lib::lemma_int_range(lo, hi);
        assert(q.to_set().subset_of(vstd::set_lib::set_int_range(lo, hi))) by {
            assert forall|x: int| q.to_set().contains(x) implies vstd::set_lib::set_int_range(lo, hi).contains(x) by {
                let i = choose|i: int| 0 <= i < q.len() && q[i] == x;
                assert(q[i] == self.ppns@[i] as int);
            }
        }
        vstd::set_lib::lemma_len_subset(q.to_set(), vstd::set_lib::set_int_range(lo, hi));
        assert(q.len() == self.ppns@.len());
        assert(self.ppns@.len() <= usize::MAX / PAGE_SIZE);
        assert(PTES_PER_TABLE * self.ppns@.len() <= usize::MAX - PTES_PER_TABLE) by (nonlinear_arith)
            requires
                self.ppns@.len() <= usize::MAX / 4096,
                PTES_PER_TABLE == 512,
                usize::MAX >= 0xffff_ffff,
        ;
    }

    proof fn lemma_slot_of(&self, s: int)
        requires
            forall|s1: int, s2: int|
                0 <= s1 < self.ppns@.len() && 0 <= s2 < self.ppns@.len() && s1 != s2
                    ==> #[trigger] self.ppns@[s1] != #[trigger] self.ppns@[s2],
            0 <= s < self.ppns@.len(),
        ensures
            self.slot_of(self.ppns@[s] as int) == s,
    {
        let p = self.ppns@[s] as int;
        assert(exists|t: int| 0 <= t < self.ppns@.len() && self.ppns@[t] == p);
        let c = choose|t: int| 0 <= t < self.ppns@.len() && self.ppns@[t] == p;
        assert(c == s);
    }

    proof fn lemma_slot_range(&self, ppn: int)
        ensures
            self.slot_of(ppn) == -1 || (0 <= self.slot_of(ppn) < self.ppns@.len() && self.ppns@[self.slot_of(ppn)] == ppn),
    {
    }

    /// The table storage holds so many tables that no further one fits in a `usize`-indexed
    /// vector.
    pub closed spec fn tables_full(&self) -> bool {
        self.entries@.len() > usize::MAX - PTES_PER_TABLE
    }

    /// `b` comes from `self` by clearing entries and splitting superpages: every table stays,
    /// at its level, and each of its entries is unchanged, cleared, or was a superpage.
    pub closed spec fn clears_to(&self, b: PhysMap) -> bool {
        &&& forall|t: int| #[trigger] self.slot_of(t) >= 0 ==> b.slot_of(t) >= 0
            && b.tlevels@[b.slot_of(t)] == self.tlevels@[self.slot_of(t)]
        &&& forall|t: int, j: int|
            self.slot_of(t) >= 0 && 0 <= j < PTES_PER_TABLE ==> {
                let e = self.read(t, j);
                let f = #[trigger] b.read(t, j);
                f == e || !f.valid || (e.valid && e.leaf && self.tlevels@[self.slot_of(t)] > 0)
            }
    }

    /// Every map clears to itself.
    pub proof fn lemma_clears_refl(&self)
        ensures
            self.clears_to(*self),
    {
    }

    /// Clearing twice is clearing.
    pub proof fn lemma_clears_trans(a: PhysMap, b: PhysMap, c: PhysMap)
        requires
            a.clears_to(b),
            b.clears_to(c),
        ensures
            a.clears_to(c),
    {
        assert forall|t: int, j: int| a.slot_of(t) >= 0 && 0 <= j < PTES_PER_TABLE implies {
            let e = a.read(t, j);
            let f = #[trigger] c.read(t, j);
            f == e || !f.valid || (e.valid && e.leaf && a.tlevels@[a.slot_of(t)] > 0)
        } by {
            assert(b.slot_of(t) >= 0);
            let m = b.read(t, j);
            assert(c.read(t, j) == m || !c.read(t, j).valid || (m.valid && m.leaf && b.tlevels@[b.slot_of(t)] > 0));
            assert(m == a.read(t, j) || !m.valid || (a.read(t, j).valid && a.read(t, j).leaf && a.tlevels@[a.slot_of(t)] > 0));
        }
    }

    /// Under clearing, a walk from a table gives what it gave, an invalid entry, or went
    /// through a superpage before.
    proof fn lemma_clears_walk_from(a: &PhysMap, b: &PhysMap, ppn: int, vpn: usize, level: nat)
        requires
            a.wf(),
            a.clears_to(*b),
            a.slot_of(ppn) >= 0,
            a.tlevels@[a.slot_of(ppn)] == level,
        ensures
            ({
                let wa = a.walk_from(ppn, vpn, level, 0);
                let wb = b.walk_from(ppn, vpn, level, 0);
                wb == wa || !wb.valid || (wa.valid && wa.leaf && wa.level > 0)
            }),
        decreases level,
    {
        let i = vpn_index(vpn, level);
        lemma_vpn_index_range(vpn, level);
        let sl = a.slot_of(ppn);
        a.lemma_slot_range(ppn);
        assert(a.entry_ok(sl, a.entry(sl, i)));
        let ra = a.read(ppn, i);
        let rb = b.read(ppn, i);
        assert(rb == ra || !rb.valid || (ra.valid && ra.leaf && level > 0));
        if rb == ra {
            if level > 0 && ra.valid && !ra.leaf {
                let t = choose|t: int|
                    0 <= t < a.ppns@.len() && #[trigger] a.ppns@[t] == ra.ppn && a.tlevels@[t] + 1
                        == a.tlevels@[sl];
                a.lemma_slot_of(t);
                PhysMap::lemma_clears_walk_from(a, b, ra.ppn as int, vpn, (level - 1) as nat);
            }
        }
    }

    /// Under clearing, every page translates as before, not at all, or was in a superpage.
    pub proof fn lemma_clears_walk(a: &PhysMap, b: &PhysMap, vpn: usize)
        requires
            a.wf(),
            a.clears_to(*b),
            b.spec_root() == a.spec_root(),
            b.spec_levels() == a.spec_levels(),
        ensures
            ({
                let wa = a.walk_spec(vpn, 0);
                let wb = b.walk_spec(vpn, 0);
                wb == wa || !wb.valid || is_superpage(wa)
            }),
    {
        PhysMap::lemma_clears_walk_from(a, b, a.root as int, vpn, (a.levels - 1) as nat);
    }

    /// Position of the page table at page number `ppn`.
    fn find_slot(&self, ppn: usize) -> (r: Option<usize>)
        requires
            self.wf(),
        ensures
            match r {
                Some(s) => s as int == self.slot_of(ppn as int) && s < self.ppns@.len(),
                None => self.slot_of(ppn as int) == -1,
            },
    {
        let mut s: usize = 0;
        while s < self.ppns.len()
            invariant
                self.wf(),
                s <= self.ppns@.len(),
                forall|t: int| 0 <= t < s ==> self.ppns@[t] != ppn,
            decreases self.ppns@.len() - s,
        {
            if self.ppns[s] == ppn {
                proof {
                    self.lemma_slot_of(s as int);
                }
                return Some(s);
            }
            s = s + 1;
        }
        None
    }

    /// Entry `i` of the table at position `s`, as the hardware would see it at `level`.
    fn load(&self, s: usize, i: usize, level: u32) -> (r: PTE)
        requires
            self.wf(),
            s < self.ppns@.len(),
            i < PTES_PER_TABLE,
        ensures
            r == (PTE { level: level as u8, ..self.entry(s as int, i as int) }),
    {
        let n = self.entries.len();
        proof {
            assert(PTES_PER_TABLE * s + i < PTES_PER_TABLE * self.ppns@.len()) by (nonlinear_arith)
                requires
                    s < self.ppns@.len(),
                    i < PTES_PER_TABLE,
            ;
        }
        let raw = self.entries[PTES_PER_TABLE * s + i];
        PTE { level: level as u8, ..raw }
    }

    /// What a walk from a table of the right level can return.
    proof fn lemma_walk_result(&self, ppn: int, vpn: usize, level: nat, min_level: nat)
        requires
            self.wf(),
            min_level <= level < self.levels,
            self.slot_of(ppn) >= 0 ==> self.tlevels@[self.slot_of(ppn)] == level,
        ensures
            ({
                let r = self.walk_from(ppn, vpn, level, min_level);
                &&& min_level <= r.level <= level
                &&& !r.valid ==> r.ppn == 0
                &&& (r.valid && r.leaf) ==> leaf_fits(r.ppn, r.level as nat)
                &&& (r.valid && !r.leaf) ==> r.level == min_level && r.level > 0 && r.ppn * PAGE_SIZE <= usize::MAX
            }),
        decreases level,
    {
        let i = vpn_index(vpn, level);
        assert(0 <= i < PTES_PER_TABLE) by {
            lemma_pow2_pos((BITS_PER_LEVEL * level) as nat);
        }
        let sl = self.slot_of(ppn);
        self.lemma_slot_range(ppn);
        if sl >= 0 {
            assert(self.entry_ok(sl, self.entry(sl, i)));
        }
        let raw = self.read(ppn, i);
        let pte = PTE { level: level as u8, ..raw };
        if level <= min_level || (!pte.valid && level > 0) {
        } else if pte.valid && !pte.leaf {
            let t = choose|t: int|
                0 <= t < self.ppns@.len() && #[trigger] self.ppns@[t] == raw.ppn && self.tlevels@[t] + 1
                    == self.tlevels@[sl];
            self.lemma_slot_of(t);
            self.lemma_walk_result(raw.ppn as int, vpn, (level - 1) as nat, min_level);
        } else {
        }
    }

    /// Walk down the page table and read the target page's PTE.
    pub fn walk(&self, vpn: usize) -> (r: PTE)
        requires
            self.wf(),
        ensures
            r == self.walk_spec(vpn, 0),
    {
        self.walk_shallow(vpn, 0)
    }

    /// Walk down the page table, no deeper than `min_level`, and read the target page's PTE.
    pub fn walk_shallow(&self, vpn: usize, min_level: u32) -> (r: PTE)
        requires
            self.wf(),
            min_level < self.spec_levels(),
        ensures
            r == self.walk_spec(vpn, min_level as nat),
    {
        let mut ppn = self.root;
        let mut level: u32 = self.levels - 1;
        loop
            invariant
                self.wf(),
                min_level <= level < self.levels,
                self.walk_from(ppn as int, vpn, level as nat, min_level as nat) == self.walk_spec(vpn, min_level as nat),
            decreases level,
        {
            let index = get_vpn_index(vpn, level as u8);
            let pte = match self.find_slot(ppn) {
                Some(s) => self.load(s, index, level),
                None => PTE { level: level as u8, ..PTE::null() },
            };
            assert(pte == (PTE { level: level as u8, ..self.read(ppn as int, vpn_index(vpn, level as nat)) }));
            if level == min_level || !pte.valid && level > 0 {
                return pte;
            } else if pte.valid && !pte.leaf {
                ppn = pte.ppn;
                level = level - 1;
            } else {
                return pte;
            }
        }
    }

    /// Number of levels of page table of this map.
    pub fn levels(&self) -> (r: u32)
        ensures
            r == self.spec_levels(),
            self.wf() ==> levels_ok(r),
    {
        self.levels
    }

    /// Get the physical page number of the root page table.
    pub fn root(&self) -> (r: usize)
        ensures
            r == self.spec_root(),
    {
        self.root
    }

    /// The result of a virtual to physical lookup of `vaddr`.
    pub open spec fn virt2phys_spec(&self, vaddr: usize) -> Virt2Phys {
        if !canon_addr(vaddr, self.spec_levels()) {
            Virt2Phys {
                page_vaddr: (vaddr - vaddr % PAGE_SIZE) as usize,
                page_paddr: 0,
                size: PAGE_SIZE,
                paddr: 0,
                flags: 0,
                valid: false,
            }
        } else {
            let pte = self.walk_spec((vaddr / PAGE_SIZE) as usize, 0);
            let size = PAGE_SIZE * level_pages(pte.level as nat);
            Virt2Phys {
                page_vaddr: (vaddr - vaddr as int % size) as usize,
                page_paddr: (pte.ppn * PAGE_SIZE) as usize,
                size: size as usize,
                paddr: (pte.ppn * PAGE_SIZE + vaddr as int % size) as usize,
                flags: pte.flags,
                valid: pte.valid,
            }
        }
    }

    /// Do a virtual to physical address lookup.
    pub fn virt2phys(&self, vaddr: usize) -> (r: Virt2Phys)
        requires
            self.wf(),
        ensures
            r == self.virt2phys_spec(vaddr),
            !canon_addr(vaddr, self.spec_levels()) ==> r == (Virt2Phys {
                page_vaddr: (vaddr - vaddr % PAGE_SIZE) as usize,
                page_paddr: 0,
                size: PAGE_SIZE,
                paddr: 0,
                flags: 0,
                valid: false,
            }),
            canon_addr(vaddr, self.spec_levels()) ==> ({
                let pte = self.walk_spec((vaddr / PAGE_SIZE) as usize, 0);
                let size = PAGE_SIZE * level_pages(pte.level as nat);
                &&& r.size == size
                &&& r.page_vaddr == vaddr - vaddr as int % size
                &&& r.page_paddr == pte.ppn * PAGE_SIZE
                &&& r.paddr == pte.ppn * PAGE_SIZE + vaddr as int % size
                &&& r.flags == pte.flags
                &&& r.valid == pte.valid
            }),
    {
        if !is_canon_addr(vaddr, self.levels) {
            return Virt2Phys {
                page_vaddr: vaddr - vaddr % PAGE_SIZE,
                page_paddr: 0,
                size: PAGE_SIZE,
                paddr: 0,
                flags: 0,
                valid: false,
            };
        }
        let pte = self.walk(vaddr / PAGE_SIZE);
        proof {
            self.lemma_slot_of(self.slot_of(self.root as int));
            self.lemma_walk_result(self.root as int, (vaddr / PAGE_SIZE) as usize, (self.levels - 1) as nat, 0);
        }
        let k: usize = (BITS_PER_LEVEL * pte.level as u32) as usize;
        proof {
            lemma_pow2_usize_bits();
            lemma_pow2_adds(PAGE_SHIFT as nat, k as nat);
            lemma2_to64();
            lemma_pow2_mono((PAGE_SHIFT as nat + k) as nat, (usize::BITS - 1) as nat);
            lemma_pow2_pos(k as nat);
            lemma_shl(PAGE_SIZE, k);
        }
        let size: usize = PAGE_SIZE << k;
        let offset = vaddr % size;
        assert(offset <= vaddr) by (nonlinear_arith)
            requires
                offset == vaddr % size,
                size > 0,
        ;
        let page_vaddr = vaddr - offset;
        proof {
            if pte.valid {
                assert((pte.ppn + level_pages(pte.level as nat)) * PAGE_SIZE <= usize::MAX + 1);
                assert(pte.ppn * PAGE_SIZE + offset < (pte.ppn + level_pages(pte.level as nat)) * PAGE_SIZE) by (nonlinear_arith)
                    requires
                        offset < size,
                        size == PAGE_SIZE * level_pages(pte.level as nat),
                ;
            }
        }
        let page_paddr = pte.ppn * PAGE_SIZE;
        Virt2Phys {
            page_vaddr,
            page_paddr,
            size,
            paddr: page_paddr + offset,
            flags: pte.flags,
            valid: pte.valid,
        }
    }

    /// A well-formed map has a paging mode with at least one level whose addresses fit.
    pub proof fn lemma_wf_levels(&self)
        requires
            self.wf(),
        ensures
            levels_ok(self.spec_levels()),
    {
    }

    /// A walk to the last level that ends on a valid entry ends on a leaf: a table never
    /// stands where a page should.
    pub proof fn lemma_valid_walk_is_leaf(&self, vpn: usize)
        requires
            self.wf(),
        ensures
            self.walk_spec(vpn, 0).valid ==> self.walk_spec(vpn, 0).leaf,
    {
        self.lemma_slot_of(self.slot_of(self.root as int));
        self.lemma_walk_result(self.root as int, vpn, (self.levels - 1) as nat, 0);
    }

    /// The translation of the first byte of page `vpn` is the walk to that page: invalid where
    /// the walk is, and where the page is canonical and mapped by a page-sized leaf, that leaf's
    /// page and flags.
    pub proof fn lemma_page_translation(&self, vpn: usize)
        requires
            self.wf(),
            vpn * PAGE_SIZE <= usize::MAX,
        ensures
            ({
                let t = self.virt2phys_spec((vpn * PAGE_SIZE) as usize);
                let w = self.walk_spec(vpn, 0);
                &&& !w.valid ==> !t.valid
                &&& canon_page(vpn, self.spec_levels()) && w.valid && w.level == 0 ==> {
                    &&& t.valid
                    &&& t.page_vaddr == vpn * PAGE_SIZE
                    &&& t.page_paddr == w.ppn * PAGE_SIZE
                    &&& t.flags == w.flags
                }
            }),
    {
        let a = (vpn * PAGE_SIZE) as usize;
        assert(a / PAGE_SIZE == vpn && a % PAGE_SIZE == 0) by (nonlinear_arith)
            requires
                a == vpn * 4096,
                PAGE_SIZE == 4096,
        ;
        lemma_page_of_addr(vpn, self.spec_levels());
        vstd::arithmetic::div_mod::lemma_small_mod(vpn as nat * PAGE_SIZE as nat, (usize::MAX + 1) as nat);
        assert(vpn.wrapping_mul(PAGE_SIZE) == a);
        lemma2_to64();
        assert(level_pages(0) == 1);
        let w = self.walk_spec(vpn, 0);
        self.lemma_slot_of(self.slot_of(self.root as int));
        self.lemma_walk_result(self.root as int, vpn, (self.levels - 1) as nat, 0);
        if w.valid && w.level == 0 {
            assert(w.leaf);
            assert((w.ppn + 1) * PAGE_SIZE <= usize::MAX + 1);
            assert(w.ppn * PAGE_SIZE <= usize::MAX) by (nonlinear_arith)
                requires
                    (w.ppn + 1) * 4096 <= usize::MAX + 1,
                    PAGE_SIZE == 4096,
            ;
            assert(PAGE_SIZE * level_pages(w.level as nat) == 4096);
            assert(a as int % 4096 == 0);
        }
    }

    /// A translation names a whole page of physical memory, with the address inside it.
    pub proof fn lemma_v2p_ok(&self, vaddr: usize)
        requires
            self.wf(),
        ensures
            v2p_ok(self.virt2phys_spec(vaddr)),
    {
        if canon_addr(vaddr, self.levels) {
            self.lemma_slot_of(self.slot_of(self.root as int));
            self.lemma_walk_result(self.root as int, (vaddr / PAGE_SIZE) as usize, (self.levels - 1) as nat, 0);
            let pte = self.walk_spec((vaddr / PAGE_SIZE) as usize, 0);
            let k: nat = (BITS_PER_LEVEL * pte.level) as nat;
            lemma_pow2_usize_bits();
            lemma_pow2_adds(PAGE_SHIFT as nat, k);
            lemma2_to64();
            lemma_pow2_mono((PAGE_SHIFT as nat + k) as nat, (usize::BITS - 1) as nat);
            lemma_pow2_pos(k);
            let size = PAGE_SIZE * level_pages(pte.level as nat);
            let offset = vaddr as int % size;
            assert(0 <= offset < size) by (nonlinear_arith)
                requires
                    offset == vaddr as int % size,
                    size > 0,
            ;
            if pte.valid {
                assert(pte.ppn * PAGE_SIZE + offset < (pte.ppn + level_pages(pte.level as nat)) * PAGE_SIZE) by (nonlinear_arith)
                    requires
                        offset < size,
                        size == PAGE_SIZE * level_pages(pte.level as nat),
                ;
            }
        }
    }

    /// Tables reached on the way to a page have the level at which they are reached.
    proof fn lemma_path_table(&self, vpn: usize, l: int)
        requires
            self.wf(),
            0 <= l < self.levels,
        ensures
            self.path(vpn, l) matches Some(t) ==> self.slot_of(t as int) >= 0 && self.tlevels@[self.slot_of(t as int)] == l,
        decreases self.levels - 1 - l,
    {
        if l < self.levels - 1 {
            self.lemma_path_table(vpn, l + 1);
            match self.path(vpn, l + 1) {
                Some(t) => {
                    let sl = self.slot_of(t as int);
                    let i = vpn_index(vpn, (l + 1) as nat);
                    lemma_vpn_index_range(vpn, (l + 1) as nat);
                    assert(self.entry_ok(sl, self.entry(sl, i)));
                    let e = self.read(t as int, i);
                    if e.valid && !e.leaf {
                        let w = choose|w: int|
                            0 <= w < self.ppns@.len() && #[trigger] self.ppns@[w] == e.ppn && self.tlevels@[w] + 1
                                == self.tlevels@[sl];
                        self.lemma_slot_of(w);
                    }
                },
                None => {},
            }
        }
    }

    /// A walk passes through the tables on the way to its page.
    proof fn lemma_walk_path(&self, vpn: usize, l: int, min_level: nat)
        requires
            self.wf(),
            min_level <= l < self.levels,
            self.path(vpn, l) is Some,
        ensures
            self.walk_spec(vpn, min_level) == self.walk_from(self.path(vpn, l)->Some_0 as int, vpn, l as nat, min_level),
        decreases self.levels - 1 - l,
    {
        if l < self.levels - 1 {
            self.lemma_walk_path(vpn, l + 1, min_level);
        }
    }

    /// Changes below the given level leave the way down to it as it was.
    proof fn lemma_path_frame(a: &PhysMap, b: &PhysMap, vpn: usize, lvl: int, l: int)
        requires
            a.wf(),
            a.root == b.root,
            a.levels == b.levels,
            lvl <= l < a.levels,
            0 <= l,
            forall|t: int, j: int|
                a.slot_of(t) >= 0 && a.tlevels@[a.slot_of(t)] > lvl && 0 <= j < PTES_PER_TABLE
                    ==> #[trigger] b.read(t, j) == a.read(t, j),
        ensures
            b.path(vpn, l) == a.path(vpn, l),
        decreases a.levels - 1 - l,
    {
        if l < a.levels - 1 {
            PhysMap::lemma_path_frame(a, b, vpn, lvl, l + 1);
            a.lemma_path_table(vpn, l + 1);
            lemma_vpn_index_range(vpn, (l + 1) as nat);
            match a.path(vpn, l + 1) {
                Some(t) => {
                    assert(b.read(t as int, vpn_index(vpn, (l + 1) as nat)) == a.read(t as int, vpn_index(vpn, (l + 1) as nat)));
                },
                None => {},
            }
        }
    }

    /// Two pages whose ways down reach the same table agree on every index above that level.
    proof fn lemma_path_unique(&self, v: usize, w: usize, l: int)
        requires
            self.wf(),
            0 <= l < self.levels,
            self.path(v, l) is Some,
            self.path(v, l) == self.path(w, l),
        ensures
            forall|k: int| l < k < self.levels ==> #[trigger] vpn_index(v, k as nat) == vpn_index(w, k as nat),
        decreases self.levels - 1 - l,
    {
        if l < self.levels - 1 {
            let pv = self.path(v, l + 1)->Some_0;
            let pw = self.path(w, l + 1)->Some_0;
            self.lemma_path_table(v, l + 1);
            self.lemma_path_table(w, l + 1);
            let iv = vpn_index(v, (l + 1) as nat);
            let iw = vpn_index(w, (l + 1) as nat);
            lemma_vpn_index_range(v, (l + 1) as nat);
            lemma_vpn_index_range(w, (l + 1) as nat);
            let sv = self.slot_of(pv as int);
            let sw = self.slot_of(pw as int);
            self.lemma_slot_range(pv as int);
            self.lemma_slot_range(pw as int);
            assert(self.read(pv as int, iv) == self.entry(sv, iv));
            assert(self.read(pw as int, iw) == self.entry(sw, iw));
            assert(is_table_ptr(self.entry(sv, iv)) && is_table_ptr(self.entry(sw, iw)));
            assert(sv == sw && iv == iw);
            self.lemma_path_unique(v, w, l + 1);
        }
    }

    /// A walk from a table on the way to `v` sees the same in `b` as in `a` when the only
    /// entry of `a`'s tables that `b` changes, entry `j0` of the table at `t0`, is not on that
    /// way.
    proof fn lemma_walk_frame_from(a: &PhysMap, b: &PhysMap, t0: int, j0: int, v: usize, l: int)
        requires
            a.wf(),
            0 <= l < a.levels,
            a.path(v, l) is Some,
            forall|t: int, j: int| a.slot_of(t) >= 0 && 0 <= j < PTES_PER_TABLE && !(t == t0 && j == j0)
                ==> #[trigger] b.read(t, j) == a.read(t, j),
            forall|k: int| 0 <= k <= l ==> !(a.path(v, k) == Some(t0 as usize) && vpn_index(v, k as nat) == j0),
        ensures
            b.walk_from(a.path(v, l)->Some_0 as int, v, l as nat, 0) == a.walk_from(a.path(v, l)->Some_0 as int, v, l as nat, 0),
        decreases l,
    {
        let p = a.path(v, l)->Some_0;
        a.lemma_path_table(v, l);
        let i = vpn_index(v, l as nat);
        lemma_vpn_index_range(v, l as nat);
        assert(b.read(p as int, i) == a.read(p as int, i));
        let e = a.read(p as int, i);
        if l > 0 && e.valid && !e.leaf {
            assert(a.path(v, l - 1) == Some(e.ppn));
            PhysMap::lemma_walk_frame_from(a, b, t0, j0, v, l - 1);
        }
    }

    /// Whole walks: when `b` changes at most entry `j0` of the table at `t0` among `a`'s tables,
    /// and the way down to `v` does not use that entry, `v` translates alike in both.
    proof fn lemma_walk_frame(a: &PhysMap, b: &PhysMap, t0: int, j0: int, v: usize)
        requires
            a.wf(),
            b.spec_root() == a.spec_root(),
            b.spec_levels() == a.spec_levels(),
            forall|t: int, j: int| a.slot_of(t) >= 0 && 0 <= j < PTES_PER_TABLE && !(t == t0 && j == j0)
                ==> #[trigger] b.read(t, j) == a.read(t, j),
            forall|k: int| 0 <= k < a.spec_levels() ==> !(a.path(v, k) == Some(t0 as usize) && vpn_index(v, k as nat) == j0),
        ensures
            b.walk_spec(v, 0) == a.walk_spec(v, 0),
    {
        let top = a.levels - 1;
        PhysMap::lemma_walk_frame_from(a, b, t0, j0, v, top as int);
    }

    /// Append a page table at page number `ppn` of the given level: empty, or holding the
    /// pages of the superpage `leaf` one level down.
    fn push_table(&mut self, ppn: usize, level: u32, leaf: Option<PTE>)
        requires
            old(self).wf(),
            level < old(self).levels,
            forall|s: int| 0 <= s < old(self).ppns@.len() ==> old(self).ppns@[s] != ppn,
            leaf matches Some(e) ==> e.valid && e.leaf && leaf_fits(e.ppn, (level + 1) as nat),
            old(self).entries@.len() + PTES_PER_TABLE <= usize::MAX,
        ensures
            final(self).wf(),
            final(self).root == old(self).root,
            final(self).levels == old(self).levels,
            final(self).ppns@ == old(self).ppns@.push(ppn),
            final(self).tlevels@ == old(self).tlevels@.push(level),
            final(self).slot_of(ppn as int) == old(self).ppns@.len(),
            final(self).tlevels@[final(self).slot_of(ppn as int)] == level,
            forall|t: int| #[trigger] old(self).slot_of(t) >= 0 ==> final(self).slot_of(t) == old(self).slot_of(t),
            forall|t: int, j: int|
                old(self).slot_of(t) >= 0 && 0 <= j < PTES_PER_TABLE ==> #[trigger] final(self).read(t, j) == old(self).read(t, j),
            forall|j: int| 0 <= j < PTES_PER_TABLE ==> #[trigger] final(self).read(ppn as int, j) == match leaf {
                None => null_pte(),
                Some(e) => PTE { ppn: (e.ppn + j * level_pages(level as nat)) as usize, level: level as u8, ..e },
            },
    {
        let ghost a = *self;
        let base = self.entries.len();
        let k: usize = (BITS_PER_LEVEL * level) as usize;
        proof {
            lemma_pow2_pos(k as nat);
            lemma_pow2_adds(k as nat, BITS_PER_LEVEL as nat);
            lemma2_to64();
            if leaf is Some {
                lemma_pow2_usize_bits();
            }
        }
        let mut i: usize = 0;
        while i < PTES_PER_TABLE
            invariant
                base == a.entries@.len(),
                base + PTES_PER_TABLE <= usize::MAX,
                self.ppns == a.ppns,
                self.tlevels == a.tlevels,
                self.root == a.root,
                self.levels == a.levels,
                level < a.levels,
                levels_ok(a.levels),
                k == BITS_PER_LEVEL * level,
                pow2((k + BITS_PER_LEVEL) as nat) == PTES_PER_TABLE * pow2(k as nat),
                pow2(k as nat) > 0,
                leaf matches Some(e) ==> e.valid && e.leaf && leaf_fits(e.ppn, (level + 1) as nat),
                i <= PTES_PER_TABLE,
                self.entries@.len() == base + i,
                forall|j: int| 0 <= j < base ==> self.entries@[j] == a.entries@[j],
                forall|j: int| 0 <= j < i ==> #[trigger] self.entries@[base + j] == match leaf {
                    None => null_pte(),
                    Some(e) => PTE { ppn: (e.ppn + j * level_pages(level as nat)) as usize, level: level as u8, ..e },
                },
            decreases PTES_PER_TABLE - i,
        {
            let e = match leaf {
                None => PTE::null(),
                Some(orig) => {
                    proof {
                        assert(i * pow2(k as nat) < PTES_PER_TABLE * pow2(k as nat)) by (nonlinear_arith)
                            requires
                                i < PTES_PER_TABLE,
                                pow2(k as nat) > 0,
                        ;
                        assert(orig.ppn + PTES_PER_TABLE * pow2(k as nat) <= usize::MAX) by (nonlinear_arith)
                            requires
                                (orig.ppn + PTES_PER_TABLE * pow2(k as nat)) * PAGE_SIZE <= usize::MAX + 1,
                                PAGE_SIZE == 4096,
                        ;
                        lemma_pow2_mono(k as nat, (usize::BITS - 1) as nat);
                        lemma_pow2_usize_bits();
                        lemma_shl(i, k);
                    }
                    PTE { ppn: orig.ppn + (i << k), level: level as u8, ..orig }
                },
            };
            self.entries.push(e);
            i = i + 1;
        }
        self.ppns.push(ppn);
        self.tlevels.push(level);
        proof {
            assert forall|s2: int, j: int| 0 <= s2 < self.ppns@.len() && 0 <= j < PTES_PER_TABLE
                && is_table_ptr(#[trigger] self.entry(s2, j)) implies s2 < a.ppns@.len() && self.entry(s2, j) == a.entry(s2, j) by {
                if s2 < a.ppns@.len() {
                    assert(PTES_PER_TABLE * s2 + j < base) by (nonlinear_arith)
                        requires
                            0 <= s2 < a.ppns@.len(),
                            0 <= j < PTES_PER_TABLE,
                            base == PTES_PER_TABLE * a.ppns@.len(),
                    ;
                } else {
                    assert(PTES_PER_TABLE * s2 + j == base + j);
                }
            }
            assert(self.tree()) by {
                assert forall|s1: int, i1: int, s2: int, i2: int|
                    0 <= s1 < self.ppns@.len() && 0 <= i1 < PTES_PER_TABLE && 0 <= s2 < self.ppns@.len() && 0 <= i2
                        < PTES_PER_TABLE && is_table_ptr(#[trigger] self.entry(s1, i1)) && is_table_ptr(#[trigger] self.entry(s2, i2))
                        && self.entry(s1, i1).ppn == self.entry(s2, i2).ppn implies s1 == s2 && i1 == i2 by {
                    assert(is_table_ptr(a.entry(s1, i1)) && is_table_ptr(a.entry(s2, i2)));
                }
            }
            assert(self.entries@.len() == PTES_PER_TABLE * self.ppns@.len());
            self.lemma_slot_of(a.ppns@.len() as int);
            assert forall|t: int| #[trigger] a.slot_of(t) >= 0 implies self.slot_of(t) == a.slot_of(t) by {
                a.lemma_slot_range(t);
                self.lemma_slot_of(a.slot_of(t));
            }
            assert forall|t: int, j: int|
                a.slot_of(t) >= 0 && 0 <= j < PTES_PER_TABLE implies #[trigger] self.read(t, j) == a.read(t, j) by {
                a.lemma_slot_range(t);
                self.lemma_slot_of(a.slot_of(t));
                let sl = a.slot_of(t);
                assert(PTES_PER_TABLE * sl + j < base) by (nonlinear_arith)
                    requires
                        0 <= sl < a.ppns@.len(),
                        0 <= j < PTES_PER_TABLE,
                        base == PTES_PER_TABLE * a.ppns@.len(),
                ;
            }
            assert forall|j: int| 0 <= j < PTES_PER_TABLE implies #[trigger] self.read(ppn as int, j) == match leaf {
                None => null_pte(),
                Some(e) => PTE { ppn: (e.ppn + j * level_pages(level as nat)) as usize, level: level as u8, ..e },
            } by {
                assert(PTES_PER_TABLE * a.ppns@.len() + j == base + j);
            }
            // Well-formedness.
            self.lemma_slot_of(a.slot_of(a.root as int));
            assert forall|s1: int, s2: int|
                0 <= s1 < self.ppns@.len() && 0 <= s2 < self.ppns@.len() && s1 != s2
                    implies #[trigger] self.ppns@[s1] != #[trigger] self.ppns@[s2] by {
            }
            assert forall|s: int, j: int|
                0 <= s < self.ppns@.len() && 0 <= j < PTES_PER_TABLE implies self.entry_ok(s, #[trigger] self.entry(s, j)) by {
                if s < a.ppns@.len() {
                    assert(PTES_PER_TABLE * s + j < base) by (nonlinear_arith)
                        requires
                            0 <= s < a.ppns@.len(),
                            0 <= j < PTES_PER_TABLE,
                            base == PTES_PER_TABLE * a.ppns@.len(),
                    ;
                    assert(self.entry(s, j) == a.entry(s, j));
                    assert(a.entry_ok(s, a.entry(s, j)));
                    let e = a.entry(s, j);
                    if e.valid && !e.leaf && a.tlevels@[s] > 0 {
                        let w = choose|w: int|
                            0 <= w < a.ppns@.len() && #[trigger] a.ppns@[w] == e.ppn && a.tlevels@[w] + 1 == a.tlevels@[s];
                        assert(self.ppns@[w] == e.ppn);
                    }
                } else {
                    assert(s == a.ppns@.len());
                    assert(PTES_PER_TABLE * s + j == base + j);
                    match leaf {
                        None => {},
                        Some(o) => {
                            let c = self.entry(s, j);
                            assert(leaf_fits(c.ppn, level as nat)) by {
                                assert((o.ppn + j * pow2(k as nat) + pow2(k as nat)) * PAGE_SIZE <= (o.ppn + PTES_PER_TABLE * pow2(k as nat)) * PAGE_SIZE) by (nonlinear_arith)
                                    requires
                                        0 <= j < PTES_PER_TABLE,
                                        pow2(k as nat) > 0,
                                ;
                                assert(o.ppn + j * pow2(k as nat) <= usize::MAX) by (nonlinear_arith)
                                    requires
                                        (o.ppn + PTES_PER_TABLE * pow2(k as nat)) * PAGE_SIZE <= usize::MAX + 1,
                                        0 <= j < PTES_PER_TABLE,
                                        pow2(k as nat) > 0,
                                ;
                            }
                        },
                    }
                }
            }
        }
    }

    /// Overwrite entry `i` of the table at position `s`.
    fn store(&mut self, s: usize, i: usize, e: PTE)
        requires
            old(self).wf(),
            s < old(self).ppns@.len(),
            i < PTES_PER_TABLE,
            old(self).entry_ok(s as int, e),
            is_table_ptr(e) ==> forall|s2: int, i2: int|
                0 <= s2 < old(self).ppns@.len() && 0 <= i2 < PTES_PER_TABLE && is_table_ptr(#[trigger] old(self).entry(s2, i2))
                    ==> old(self).entry(s2, i2).ppn != e.ppn,
        ensures
            final(self).wf(),
            final(self).root == old(self).root,
            final(self).levels == old(self).levels,
            final(self).ppns == old(self).ppns,
            final(self).tlevels == old(self).tlevels,
            final(self).read(old(self).ppns@[s as int] as int, i as int) == e,
            forall|t: int, j: int|
                !(t == old(self).ppns@[s as int] && j == i) && 0 <= j < PTES_PER_TABLE
                    ==> #[trigger] final(self).read(t, j) == old(self).read(t, j),
    {
        let ghost a = *self;
        let n = self.entries.len();
        proof {
            assert(PTES_PER_TABLE * s + i < PTES_PER_TABLE * self.ppns@.len()) by (nonlinear_arith)
                requires
                    s < self.ppns@.len(),
                    i < PTES_PER_TABLE,
            ;
        }
        self.entries.set(PTES_PER_TABLE * s + i, e);
        proof {
            a.lemma_slot_of(s as int);
            assert forall|t: int, j: int|
                !(t == a.ppns@[s as int] && j == i) && 0 <= j < PTES_PER_TABLE implies #[trigger] self.read(t, j) == a.read(t, j) by {
                a.lemma_slot_range(t);
                let sl = a.slot_of(t);
                assert(self.slot_of(t) == sl);
                if sl >= 0 {
                    assert(PTES_PER_TABLE * sl + j != PTES_PER_TABLE * s + i) by (nonlinear_arith)
                        requires
                            sl != s || j != i,
                            0 <= j < PTES_PER_TABLE,
                            i < PTES_PER_TABLE,
                    ;
                    assert(self.entry(sl, j) == a.entry(sl, j));
                }
            }
            assert forall|s2: int, j: int|
                0 <= s2 < self.ppns@.len() && 0 <= j < PTES_PER_TABLE implies self.entry_ok(s2, #[trigger] self.entry(s2, j)) by {
                if s2 != s || j != i {
                    assert(PTES_PER_TABLE * s2 + j != PTES_PER_TABLE * s + i) by (nonlinear_arith)
                        requires
                            s2 != s || j != i,
                            0 <= j < PTES_PER_TABLE,
                            i < PTES_PER_TABLE,
                    ;
                    assert(a.entry_ok(s2, a.entry(s2, j)));
                }
            }
            assert forall|s2: int, j: int| 0 <= s2 < self.ppns@.len() && 0 <= j < PTES_PER_TABLE
                implies #[trigger] self.entry(s2, j) == (if s2 == s && j == i { e } else { a.entry(s2, j) }) by {
                if s2 != s || j != i {
                    assert(PTES_PER_TABLE * s2 + j != PTES_PER_TABLE * s + i) by (nonlinear_arith)
                        requires
                            s2 != s || j != i,
                            0 <= j < PTES_PER_TABLE,
                            i < PTES_PER_TABLE,
                    ;
                }
            }
            assert(self.tree()) by {
                assert forall|s1: int, i1: int, s2: int, i2: int|
                    0 <= s1 < self.ppns@.len() && 0 <= i1 < PTES_PER_TABLE && 0 <= s2 < self.ppns@.len() && 0 <= i2
                        < PTES_PER_TABLE && is_table_ptr(#[trigger] self.entry(s1, i1)) && is_table_ptr(#[trigger] self.entry(s2, i2))
                        && self.entry(s1, i1).ppn == self.entry(s2, i2).ppn implies s1 == s2 && i1 == i2 by {
                    if (s1 == s && i1 == i) != (s2 == s && i2 == i) {
                        if s1 == s && i1 == i {
                            assert(is_table_ptr(a.entry(s2, i2)));
                        } else {
                            assert(is_table_ptr(a.entry(s1, i1)));
                        }
                    } else if !(s1 == s && i1 == i) {
                        assert(is_table_ptr(a.entry(s1, i1)) && is_table_ptr(a.entry(s2, i2)));
                    }
                }
            }
        }
    }

    /// Allocate a page for a page table and append it: empty, or holding the pages of the
    /// superpage `leaf` one level down.
    fn new_table(&mut self, pmm: &mut PhysAllocator, level: u32, leaf: Option<PTE>) -> (r: EResult<usize>)
        requires
            old(self).wf(),
            old(pmm).wf(),
            old(self).tables_in_use(*old(pmm)),
            level < old(self).levels,
            leaf matches Some(e) ==> e.valid && e.leaf && leaf_fits(e.ppn, (level + 1) as nat),
        ensures
            final(self).wf(),
            final(pmm).wf(),
            final(self).tables_in_use(*final(pmm)),
            final(self).root == old(self).root,
            final(self).levels == old(self).levels,
            final(pmm).range_start() == old(pmm).range_start(),
            final(pmm).range_end() == old(pmm).range_end(),
            allocated_from(*old(pmm), *final(pmm)),
            r is Err ==> r == Err::<usize, Errno>(Errno::ENOMEM) && *final(self) == *old(self)
                && *final(pmm) == *old(pmm),
            r is Err ==> lowest_from(old(pmm).free_blocks(), 0) == 64 || old(self).tables_full(),
            r is Ok ==> {
                let ppn = r->Ok_0;
                &&& ppn * PAGE_SIZE <= usize::MAX
                &&& final(self).ppns@ == old(self).ppns@.push(ppn)
                &&& final(self).tlevels@ == old(self).tlevels@.push(level)
                &&& final(self).slot_of(ppn as int) == old(self).ppns@.len()
                &&& final(self).tlevels@[final(self).slot_of(ppn as int)] == level
                &&& forall|t: int| #[trigger] old(self).slot_of(t) >= 0 ==> final(self).slot_of(t) == old(self).slot_of(t)
                &&& forall|t: int, j: int|
                    old(self).slot_of(t) >= 0 && 0 <= j < PTES_PER_TABLE ==> #[trigger] final(self).read(t, j) == old(self).read(t, j)
                &&& forall|j: int| 0 <= j < PTES_PER_TABLE ==> #[trigger] final(self).read(ppn as int, j) == match leaf {
                    None => null_pte(),
                    Some(e) => PTE { ppn: (e.ppn + j * level_pages(level as nat)) as usize, level: level as u8, ..e },
                }
            },
    {
        if self.entries.len() > usize::MAX - PTES_PER_TABLE {
            return Err(Errno::ENOMEM);
        }
        let ghost p0 = *pmm;
        let paddr = match pmm.page_alloc(0, PageUsage::PageTable) {
            Ok(p) => p,
            Err(e) => {
                return Err(e);
            },
        };
        let ppn = paddr / PAGE_SIZE;
        proof {
            let s = lowest_from(p0.free_blocks(), 0);
            let bp = p0.free_blocks()[last_of(p0.free_blocks(), s as u8)].ppn as int;
            lemma_page_div(bp, PAGE_SIZE as int);
            assert(ppn == bp);
            assert(pow2(0) == 1) by {
                lemma2_to64();
            }
            assert(block_set(bp, 0) =~= set![bp]);
            assert(pmm.free_set() =~= p0.free_set().remove(bp));
            crate::mem::pmm::lemma_free_in_range(p0, bp);
            assert forall|t: int| 0 <= t < self.ppns@.len() implies self.ppns@[t] != ppn by {
                assert(!p0.free_set().contains(self.ppns@[t] as int));
            }
        }
        self.push_table(ppn, level, leaf);
        Ok(ppn)
    }

    /// Create or replace the entry for `vpn` at page-table level `level`, or clear it if
    /// `new_pte` is `None`, splitting superpages and creating page tables on the way down.
    /// Clearing a page that no page table reaches changes nothing.
    #[verifier::rlimit(60)]
    fn map_raw_impl(&mut self, pmm: &mut PhysAllocator, vpn: usize, new_pte: Option<PTE>, level: u8) -> (r: EResult<()>)
        requires
            old(self).wf(),
            old(pmm).wf(),
            old(self).tables_in_use(*old(pmm)),
            (level as u32) < old(self).spec_levels(),
            new_pte matches Some(p) ==> p.level == level && storable(p, level as nat),
        ensures
            final(self).wf(),
            final(pmm).wf(),
            final(self).tables_in_use(*final(pmm)),
            final(self).spec_root() == old(self).spec_root(),
            final(self).spec_levels() == old(self).spec_levels(),
            final(pmm).range_start() == old(pmm).range_start(),
            final(pmm).range_end() == old(pmm).range_end(),
            allocated_from(*old(pmm), *final(pmm)),
            r is Err ==> r == Err::<(), Errno>(Errno::ENOMEM),
            r is Ok ==> match new_pte {
                Some(p) => if p.ppn == 0 && p.flags == 0 && !p.valid {
                    !final(self).walk_spec(vpn, level as nat).valid
                } else {
                    final(self).walk_spec(vpn, level as nat) == p
                },
                None => !final(self).walk_spec(vpn, level as nat).valid,
            },
            r is Err ==> lowest_from(final(pmm).free_blocks(), 0) == 64 || final(self).tables_full(),
            forall|v: usize| differs_above(v, vpn, level as int, old(self).spec_levels())
                ==> #[trigger] walk_kept(*old(self), *final(self), v),
            forall|v: usize| differs_above(v, vpn, level as int, old(self).spec_levels())
                ==> #[trigger] translation_kept(*old(self), *final(self), v),
            new_pte is None ==> old(self).clears_to(*final(self)),
            (new_pte is None && !({
                let w = old(self).walk_spec(vpn, level as nat);
                w.valid && w.leaf && w.level > level
            })) ==> r is Ok,
    {
        let null_pte = match new_pte {
            Some(p) => p.is_null(),
            None => true,
        };
        let global_flag: u32 = if is_canon_kernel_page(vpn, self.levels) {
            mmu::G
        } else {
            0
        };
        let ghost p_in = *pmm;
        let ghost old_super = {
            let w = old(self).walk_spec(vpn, level as nat);
            w.valid && w.leaf && w.level > level
        };
        proof {
            old(self).lemma_clears_refl();
            assert forall|v: usize| differs_above(v, vpn, level as int, old(self).spec_levels())
                implies #[trigger] walk_kept(*old(self), *self, v) by {
            }
            assert forall|v: usize| differs_above(v, vpn, level as int, old(self).spec_levels())
                implies #[trigger] translation_kept(*old(self), *self, v) by {
            }
        }
        let mut cur = self.root;
        let mut lvl: u32 = self.levels - 1;
        // Descend the page table to the target level.
        while lvl > level as u32
            invariant
                self.wf(),
                pmm.wf(),
                self.tables_in_use(*pmm),
                self.root == old(self).root,
                self.levels == old(self).levels,
                pmm.range_start() == old(pmm).range_start(),
                pmm.range_end() == old(pmm).range_end(),
                allocated_from(*old(pmm), *pmm),
                (level as u32) <= lvl < self.levels,
                self.path(vpn, lvl as int) == Some(cur),
                null_pte == match new_pte {
                    Some(p) => p.ppn == 0 && p.flags == 0 && !p.valid,
                    None => true,
                },
                new_pte is None ==> old(self).clears_to(*self),
                old_super == {
                    let w = old(self).walk_spec(vpn, level as nat);
                    w.valid && w.leaf && w.level > level
                },
                (new_pte is None && !old_super) ==> *self == *old(self),
                forall|v: usize| differs_above(v, vpn, level as int, old(self).spec_levels())
                    ==> #[trigger] walk_kept(*old(self), *self, v),
                forall|v: usize| differs_above(v, vpn, level as int, old(self).spec_levels())
                    ==> #[trigger] translation_kept(*old(self), *self, v),
            decreases lvl,
        {
            let index = get_vpn_index(vpn, lvl as u8);
            proof {
                self.lemma_path_table(vpn, lvl as int);
            }
            let s = match self.find_slot(cur) {
                Some(s) => s,
                None => {
                    return Ok(());
                },
            };
            let pte = self.load(s, index, lvl);
            let ghost a = *self;
            if !pte.valid || pte.leaf {
                if !pte.valid && null_pte {
                    // Nothing is mapped here, so there is nothing to clear either.
                    proof {
                        self.lemma_walk_path(vpn, lvl as int, level as nat);
                    }
                    return Ok(());
                }
                proof {
                    if new_pte is None && !old_super {
                        self.lemma_walk_path(vpn, lvl as int, level as nat);
                        assert(self.read(cur as int, vpn_index(vpn, lvl as nat)) == self.entry(s as int, index as int));
                        assert(pte.valid && pte.leaf);
                        assert(self.walk_from(cur as int, vpn, lvl as nat, level as nat) == pte);
                        assert(false);
                    }
                }
                let split = if pte.valid {
                    proof {
                        assert(a.entry_ok(s as int, a.entry(s as int, index as int)));
                    }
                    Some(pte)
                } else {
                    None
                };
                // Create a new level of page table, or split a superpage into smaller pages.
                let child = self.new_table(pmm, lvl - 1, split)?;
                let ghost m = *self;
                proof {
                    assert forall|t: int| #[trigger] a.slot_of(t) >= 0 implies m.slot_of(t) >= 0
                        && m.tlevels@[m.slot_of(t)] == a.tlevels@[a.slot_of(t)] by {
                        a.lemma_slot_range(t);
                        m.lemma_slot_of(a.slot_of(t));
                    }
                    assert(a.clears_to(m));
                    if new_pte is None {
                        PhysMap::lemma_clears_trans(*old(self), a, m);
                    }
                    a.lemma_slot_of(s as int);
                    m.lemma_slot_of(s as int);
                    assert(m.ppns@[a.ppns@.len() as int] == child);
                    assert(m.entry_ok(s as int, PTE { ppn: child, flags: global_flag, valid: true, leaf: false, level: lvl as u8 }));
                    assert forall|s2: int, i2: int|
                        0 <= s2 < m.ppns@.len() && 0 <= i2 < PTES_PER_TABLE && is_table_ptr(#[trigger] m.entry(s2, i2))
                            implies m.entry(s2, i2).ppn != child by {
                        m.lemma_slot_of(s2);
                        if s2 < a.ppns@.len() {
                            a.lemma_slot_of(s2);
                            assert(m.ppns@[s2] == a.ppns@[s2]);
                            assert(m.read(a.ppns@[s2] as int, i2) == a.read(a.ppns@[s2] as int, i2));
                            assert(m.entry(s2, i2) == a.entry(s2, i2));
                            assert(a.entry_ok(s2, a.entry(s2, i2)));
                            let w = choose|w: int|
                                0 <= w < a.ppns@.len() && #[trigger] a.ppns@[w] == a.entry(s2, i2).ppn && a.tlevels@[w] + 1 == a.tlevels@[s2];
                            assert(m.ppns@[w] == a.ppns@[w]);
                            assert(m.ppns@[w] != m.ppns@[a.ppns@.len() as int]);
                        } else {
                            assert(m.ppns@[s2] == child);
                            assert(m.read(child as int, i2) == m.entry(s2, i2));
                        }
                    }
                }
                self.store(s, index, PTE { ppn: child, flags: global_flag, valid: true, leaf: false, level: lvl as u8 });
                proof {
                    PhysMap::lemma_path_frame(&a, &m, vpn, -1, lvl as int);
                    assert forall|t: int, j: int|
                        m.slot_of(t) >= 0 && m.tlevels@[m.slot_of(t)] > lvl && 0 <= j < PTES_PER_TABLE
                            implies #[trigger] self.read(t, j) == m.read(t, j) by {
                        m.lemma_slot_range(t);
                        if t == m.ppns@[s as int] {
                            m.lemma_slot_of(s as int);
                        }
                    }
                    PhysMap::lemma_path_frame(&m, self, vpn, lvl as int, lvl as int);
                    assert(self.path(vpn, lvl - 1) == Some(child));
                    a.lemma_path_table(vpn, lvl as int);
                    assert forall|t: int| #[trigger] m.slot_of(t) >= 0 implies self.slot_of(t) >= 0
                        && self.tlevels@[self.slot_of(t)] == m.tlevels@[m.slot_of(t)] by {
                    }
                    if new_pte is None {
                        assert forall|t: int, j: int| m.slot_of(t) >= 0 && 0 <= j < PTES_PER_TABLE implies {
                            let e = m.read(t, j);
                            let f = #[trigger] self.read(t, j);
                            f == e || !f.valid || (e.valid && e.leaf && m.tlevels@[m.slot_of(t)] > 0)
                        } by {
                            if t == m.ppns@[s as int] && j == index {
                                a.lemma_slot_of(s as int);
                                assert(a.slot_of(t) == s);
                                assert(m.read(t, j) == a.read(t, j));
                                assert(a.read(t, j) == a.entry(s as int, index as int));
                                assert(m.slot_of(t) == a.slot_of(t));
                                assert(a.tlevels@[s as int] == lvl);
                            }
                        }
                        assert(m.clears_to(*self));
                        PhysMap::lemma_clears_trans(*old(self), m, *self);
                    }
                }
                proof {
                    assert forall|t: int, j: int| a.slot_of(t) >= 0 && 0 <= j < PTES_PER_TABLE && !(t == cur && j == index)
                        implies #[trigger] self.read(t, j) == a.read(t, j) by {
                        a.lemma_slot_of(s as int);
                        a.lemma_slot_range(t);
                    }
                    assert forall|v: usize| differs_above(v, vpn, level as int, old(self).spec_levels())
                        implies #[trigger] walk_kept(*old(self), *self, v) by {
                        assert(walk_kept(*old(self), a, v));
                        if a.path(v, lvl as int) == Some(cur) && vpn_index(v, lvl as nat) == index {
                            a.lemma_walk_path(v, lvl as int, 0);
                            a.lemma_slot_of(s as int);
                            assert(a.read(cur as int, index as int) == a.entry(s as int, index as int));
                            if pte.valid {
                                assert(is_superpage(a.walk_spec(v, 0)));
                            } else {
                                PhysMap::lemma_path_frame(&a, &m, v, -1, lvl as int);
                                PhysMap::lemma_path_frame(&m, self, v, lvl as int, lvl as int);
                                assert(self.path(v, lvl as int) == Some(cur));
                                assert(self.path(v, lvl - 1) == Some(child));
                                self.lemma_walk_path(v, lvl - 1, 0);
                                lemma_vpn_index_range(v, (lvl - 1) as nat);
                                assert(m.read(child as int, vpn_index(v, (lvl - 1) as nat)) == crate::mem::physmap::null_pte());
                                assert(self.read(child as int, vpn_index(v, (lvl - 1) as nat)) == crate::mem::physmap::null_pte());
                                assert(!self.walk_spec(v, 0).valid);
                            }
                        } else {
                            assert forall|k: int| 0 <= k < a.spec_levels() implies !(a.path(v, k) == Some(cur as usize)
                                && vpn_index(v, k as nat) == index) by {
                                a.lemma_path_table(v, k);
                                a.lemma_path_table(vpn, lvl as int);
                            }
                            PhysMap::lemma_walk_frame(&a, self, cur as int, index as int, v);
                        }
                    }
                    assert forall|v: usize| differs_above(v, vpn, level as int, old(self).spec_levels())
                        implies #[trigger] translation_kept(*old(self), *self, v) by {
                        assert(translation_kept(*old(self), a, v));
                        if a.path(v, lvl as int) == Some(cur) && vpn_index(v, lvl as nat) == index {
                            a.lemma_walk_path(v, lvl as int, 0);
                            a.lemma_slot_of(s as int);
                            assert(a.read(cur as int, index as int) == a.entry(s as int, index as int));
                            PhysMap::lemma_path_frame(&a, &m, v, -1, lvl as int);
                            PhysMap::lemma_path_frame(&m, self, v, lvl as int, lvl as int);
                            assert(self.path(v, lvl as int) == Some(cur));
                            assert(self.path(v, lvl - 1) == Some(child));
                            self.lemma_walk_path(v, lvl - 1, 0);
                            lemma_vpn_index_range(v, (lvl - 1) as nat);
                            let j = vpn_index(v, (lvl - 1) as nat);
                            assert(self.read(child as int, j) == m.read(child as int, j));
                            if pte.valid {
                                assert(a.walk_spec(v, 0) == pte);
                                lemma_split_page(v, lvl as nat);
                                let l = level_pages((lvl - 1) as nat);
                                assert(leaf_fits(pte.ppn, lvl as nat));
                                assert(pte.ppn + j * l < pte.ppn + level_pages(lvl as nat) && pte.ppn + level_pages(lvl as nat)
                                    <= usize::MAX) by (nonlinear_arith)
                                    requires
                                        0 <= j < 512,
                                        l > 0,
                                        level_pages(lvl as nat) == l * 512,
                                        (pte.ppn + level_pages(lvl as nat)) * 4096 <= usize::MAX + 1,
                                ;
                                let raw = m.read(child as int, j);
                                assert(raw.ppn == pte.ppn + j * l);
                                assert(raw.level == lvl - 1);
                                assert(self.walk_spec(v, 0) == raw);
                                assert(translation_kept(a, *self, v));
                            } else {
                                assert(!self.walk_spec(v, 0).valid);
                            }
                        } else {
                            assert forall|k: int| 0 <= k < a.spec_levels() implies !(a.path(v, k) == Some(cur as usize)
                                && vpn_index(v, k as nat) == index) by {
                                a.lemma_path_table(v, k);
                                a.lemma_path_table(vpn, lvl as int);
                            }
                            PhysMap::lemma_walk_frame(&a, self, cur as int, index as int, v);
                        }
                        lemma_translation_kept_trans(*old(self), a, *self, v);
                    }
                }
                cur = child;
            } else {
                cur = pte.ppn;
            }
            lvl = lvl - 1;
        }
        // Write the new PTE.
        let index = get_vpn_index(vpn, level);
        proof {
            self.lemma_path_table(vpn, lvl as int);
        }
        let s = match self.find_slot(cur) {
            Some(s) => s,
            None => {
                return Ok(());
            },
        };
        let e = match new_pte {
            Some(p) => p,
            None => PTE::null(),
        };
        let ghost a = *self;
        proof {
            a.lemma_slot_of(s as int);
        }
        self.store(s, index, e);
        proof {
            assert forall|t: int, j: int|
                a.slot_of(t) >= 0 && a.tlevels@[a.slot_of(t)] > level && 0 <= j < PTES_PER_TABLE
                    implies #[trigger] self.read(t, j) == a.read(t, j) by {
                a.lemma_slot_range(t);
            }
            PhysMap::lemma_path_frame(&a, self, vpn, level as int, level as int);
            self.lemma_walk_path(vpn, level as int, level as nat);
            assert forall|t: int, j: int| a.slot_of(t) >= 0 && 0 <= j < PTES_PER_TABLE && !(t == cur && j == index)
                implies #[trigger] self.read(t, j) == a.read(t, j) by {
                a.lemma_slot_range(t);
            }
            assert forall|v: usize| differs_above(v, vpn, level as int, old(self).spec_levels())
                implies #[trigger] walk_kept(*old(self), *self, v) by {
                assert(walk_kept(*old(self), a, v));
                assert forall|k: int| 0 <= k < a.spec_levels() implies !(a.path(v, k) == Some(cur as usize)
                    && vpn_index(v, k as nat) == index) by {
                    a.lemma_path_table(v, k);
                    a.lemma_path_table(vpn, level as int);
                    if a.path(v, k) == Some(cur as usize) && vpn_index(v, k as nat) == index {
                        assert(k == level);
                        a.lemma_path_unique(vpn, v, level as int);
                        let kk = choose|kk: int| level <= kk < old(self).spec_levels() && #[trigger] vpn_index(v, kk as nat) != vpn_index(vpn, kk as nat);
                        assert(vpn_index(vpn, kk as nat) == vpn_index(v, kk as nat));
                    }
                }
                PhysMap::lemma_walk_frame(&a, self, cur as int, index as int, v);
            }
            assert forall|v: usize| differs_above(v, vpn, level as int, old(self).spec_levels())
                implies #[trigger] translation_kept(*old(self), *self, v) by {
                assert(translation_kept(*old(self), a, v));
                assert forall|k: int| 0 <= k < a.spec_levels() implies !(a.path(v, k) == Some(cur as usize)
                    && vpn_index(v, k as nat) == index) by {
                    a.lemma_path_table(v, k);
                    a.lemma_path_table(vpn, level as int);
                    if a.path(v, k) == Some(cur as usize) && vpn_index(v, k as nat) == index {
                        assert(k == level);
                        a.lemma_path_unique(vpn, v, level as int);
                        let kk = choose|kk: int| level <= kk < old(self).spec_levels() && #[trigger] vpn_index(v, kk as nat) != vpn_index(vpn, kk as nat);
                        assert(vpn_index(vpn, kk as nat) == vpn_index(v, kk as nat));
                    }
                }
                PhysMap::lemma_walk_frame(&a, self, cur as int, index as int, v);
                lemma_translation_kept_trans(*old(self), a, *self, v);
            }
            if new_pte is None {
                assert forall|t: int| #[trigger] a.slot_of(t) >= 0 implies self.slot_of(t) >= 0
                    && self.tlevels@[self.slot_of(t)] == a.tlevels@[a.slot_of(t)] by {
                }
                assert(a.clears_to(*self));
                PhysMap::lemma_clears_trans(*old(self), a, *self);
            }
        }
        Ok(())
    }

    /// Create or replace one page-sized mapping.
    pub fn map(&mut self, pmm: &mut PhysAllocator, vpn: usize, ppn: usize, flags: u32) -> (r: EResult<()>)
        requires
            old(self).wf(),
            old(pmm).wf(),
            old(self).tables_in_use(*old(pmm)),
            leaf_fits(ppn, 0),
        ensures
            final(self).wf(),
            final(pmm).wf(),
            final(self).tables_in_use(*final(pmm)),
            final(self).spec_root() == old(self).spec_root(),
            final(self).spec_levels() == old(self).spec_levels(),
            final(pmm).range_start() == old(pmm).range_start(),
            final(pmm).range_end() == old(pmm).range_end(),
            allocated_from(*old(pmm), *final(pmm)),
            r is Err ==> r == Err::<(), Errno>(Errno::ENOMEM),
            r is Ok ==> final(self).walk_spec(vpn, 0) == (PTE { ppn, flags, level: 0, valid: true, leaf: true }),
            r is Err ==> lowest_from(final(pmm).free_blocks(), 0) == 64,
            forall|v: usize| differs_above(v, vpn, 0, old(self).spec_levels())
                ==> #[trigger] walk_kept(*old(self), *final(self), v),
            canon_page(vpn, old(self).spec_levels()) ==> forall|v: usize| canon_page(v, old(self).spec_levels())
                && vpn_bits(v) != vpn_bits(vpn) ==> #[trigger] walk_kept(*old(self), *final(self), v),
            forall|v: usize| differs_above(v, vpn, 0, old(self).spec_levels())
                ==> #[trigger] translation_kept(*old(self), *final(self), v),
            canon_page(vpn, old(self).spec_levels()) ==> forall|v: usize| canon_page(v, old(self).spec_levels())
                && vpn_bits(v) != vpn_bits(vpn) ==> #[trigger] translation_kept(*old(self), *final(self), v),
            r is Ok && vpn * PAGE_SIZE <= usize::MAX && canon_page(vpn, old(self).spec_levels()) ==> {
                let t = final(self).virt2phys_spec((vpn * PAGE_SIZE) as usize);
                &&& t.valid
                &&& t.page_vaddr == vpn * PAGE_SIZE
                &&& t.page_paddr == ppn * PAGE_SIZE
                &&& t.flags == flags
            },
    {
        let r = self.map_raw_impl(pmm, vpn, Some(PTE { ppn, flags, level: 0, valid: true, leaf: true }), 0);
        proof {
            self.lemma_not_full(*pmm);
            if r is Ok && vpn * PAGE_SIZE <= usize::MAX {
                self.lemma_page_translation(vpn);
            }
            if canon_page(vpn, old(self).spec_levels()) {
                assert forall|v: usize| canon_page(v, old(self).spec_levels()) && vpn_bits(v) != vpn_bits(vpn)
                    implies #[trigger] walk_kept(*old(self), *self, v) by {
                    lemma_canon_pages_differ(v, vpn, old(self).spec_levels());
                }
                assert forall|v: usize| canon_page(v, old(self).spec_levels()) && vpn_bits(v) != vpn_bits(vpn)
                    implies #[trigger] translation_kept(*old(self), *self, v) by {
                    lemma_canon_pages_differ(v, vpn, old(self).spec_levels());
                }
            }
        }
        r
    }

    /// Delete one page-sized mapping.
    pub fn unmap(&mut self, pmm: &mut PhysAllocator, vpn: usize) -> (r: EResult<()>)
        requires
            old(self).wf(),
            old(pmm).wf(),
            old(self).tables_in_use(*old(pmm)),
        ensures
            final(self).wf(),
            final(pmm).wf(),
            final(self).tables_in_use(*final(pmm)),
            final(self).spec_root() == old(self).spec_root(),
            final(self).spec_levels() == old(self).spec_levels(),
            final(pmm).range_start() == old(pmm).range_start(),
            final(pmm).range_end() == old(pmm).range_end(),
            allocated_from(*old(pmm), *final(pmm)),
            r is Err ==> r == Err::<(), Errno>(Errno::ENOMEM),
            r is Ok ==> !final(self).walk_spec(vpn, 0).valid,
            old(self).clears_to(*final(self)),
            !is_superpage(old(self).walk_spec(vpn, 0)) ==> r is Ok,
            r is Err ==> lowest_from(final(pmm).free_blocks(), 0) == 64,
            forall|v: usize| differs_above(v, vpn, 0, old(self).spec_levels())
                ==> #[trigger] walk_kept(*old(self), *final(self), v),
            canon_page(vpn, old(self).spec_levels()) ==> forall|v: usize| canon_page(v, old(self).spec_levels())
                && vpn_bits(v) != vpn_bits(vpn) ==> #[trigger] walk_kept(*old(self), *final(self), v),
            forall|v: usize| differs_above(v, vpn, 0, old(self).spec_levels())
                ==> #[trigger] translation_kept(*old(self), *final(self), v),
            canon_page(vpn, old(self).spec_levels()) ==> forall|v: usize| canon_page(v, old(self).spec_levels())
                && vpn_bits(v) != vpn_bits(vpn) ==> #[trigger] translation_kept(*old(self), *final(self), v),
            r is Ok && vpn * PAGE_SIZE <= usize::MAX ==> !final(self).virt2phys_spec((vpn * PAGE_SIZE) as usize).valid,
    {
        let r = self.map_raw_impl(pmm, vpn, None, 0);
        proof {
            self.lemma_not_full(*pmm);
            if r is Ok && vpn * PAGE_SIZE <= usize::MAX {
                self.lemma_page_translation(vpn);
            }
            if canon_page(vpn, old(self).spec_levels()) {
                assert forall|v: usize| canon_page(v, old(self).spec_levels()) && vpn_bits(v) != vpn_bits(vpn)
                    implies #[trigger] walk_kept(*old(self), *self, v) by {
                    lemma_canon_pages_differ(v, vpn, old(self).spec_levels());
                }
                assert forall|v: usize| canon_page(v, old(self).spec_levels()) && vpn_bits(v) != vpn_bits(vpn)
                    implies #[trigger] translation_kept(*old(self), *self, v) by {
                    lemma_canon_pages_differ(v, vpn, old(self).spec_levels());
                }
            }
        }
        r
    }

    /// Create an address map with an empty root page table, for a paging mode with `levels`
    /// levels of page table.
    pub fn new(pmm: &mut PhysAllocator, levels: u32) -> (r: EResult<Self>)
        requires
            old(pmm).wf(),
            levels_ok(levels),
        ensures
            final(pmm).wf(),
            final(pmm).range_start() == old(pmm).range_start(),
            final(pmm).range_end() == old(pmm).range_end(),
            allocated_from(*old(pmm), *final(pmm)),
            r is Err ==> r == Err::<Self, Errno>(Errno::ENOMEM),
            (r is Err) <==> lowest_from(old(pmm).free_blocks(), 0) == 64,
            r is Err ==> *final(pmm) == *old(pmm),
            r is Ok ==> {
                let m = r->Ok_0;
                &&& m.wf()
                &&& m.tables_in_use(*final(pmm))
                &&& m.spec_levels() == levels
                &&& forall|vpn: usize| !(#[trigger] m.walk_spec(vpn, 0)).valid
            },
    {
        let ghost p0 = *pmm;
        let paddr = match pmm.page_alloc(0, PageUsage::PageTable) {
            Ok(p) => p,
            Err(e) => {
                return Err(e);
            },
        };
        let root = paddr / PAGE_SIZE;
        let mut entries: Vec<PTE> = Vec::new();
        let mut i: usize = 0;
        while i < PTES_PER_TABLE
            invariant
                i <= PTES_PER_TABLE,
                entries@.len() == i,
                forall|j: int| 0 <= j < i ==> #[trigger] entries@[j] == null_pte(),
            decreases PTES_PER_TABLE - i,
        {
            entries.push(PTE::null());
            i = i + 1;
        }
        let mut ppns: Vec<usize> = Vec::new();
        ppns.push(root);
        let mut tlevels: Vec<u32> = Vec::new();
        tlevels.push(levels - 1);
        let m = PhysMap { root, levels, ppns, tlevels, entries };
        proof {
            let s = lowest_from(p0.free_blocks(), 0);
            let bp = p0.free_blocks()[last_of(p0.free_blocks(), s as u8)].ppn as int;
            lemma_page_div(bp, PAGE_SIZE as int);
            assert(pow2(0) == 1) by {
                lemma2_to64();
            }
            assert(block_set(bp, 0) =~= set![bp]);
            assert(pmm.free_set() =~= p0.free_set().remove(bp));
            crate::mem::pmm::lemma_free_in_range(p0, bp);
            m.lemma_slot_of(0);
            assert forall|s: int, j: int|
                0 <= s < m.ppns@.len() && 0 <= j < PTES_PER_TABLE implies m.entry_ok(s, #[trigger] m.entry(s, j)) by {
                assert(s == 0);
            }
            assert forall|vpn: usize| !(#[trigger] m.walk_spec(vpn, 0)).valid by {
                lemma_vpn_index_range(vpn, (levels - 1) as nat);
            }
        }
        Ok(m)
    }
}

/// Number of trailing zero bits of `x` (`usize::BITS` for zero).
pub open spec fn trailing_zeros(x: usize) -> nat
    decreases x,
{
    if x == 0 {
        usize::BITS as nat
    } else if x % 2 == 1 {
        0
    } else {
        1 + trailing_zeros(x / 2)
    }
}

/// The base-2 logarithm of `x`, rounded down.
pub open spec fn floor_log2(x: usize) -> nat
    decreases x,
{
    if x <= 1 {
        0
    } else {
        1 + floor_log2(x / 2)
    }
}

/// Number of trailing zero bits of `x`.
fn count_trailing_zeros(x: usize) -> (r: u32)
    ensures
        r == trailing_zeros(x),
        r <= usize::BITS,
{
    if x == 0 {
        return usize::BITS;
    }
    let mut n: u32 = 0;
    let mut y: usize = x;
    proof {
        lemma2_to64();
    }
    while y % 2 == 0
        invariant
            y > 0,
            n < usize::BITS,
            x == y * pow2(n as nat),
            trailing_zeros(x) == n + trailing_zeros(y),
        decreases y,
    {
        proof {
            lemma_pow2_pos(n as nat);
            lemma_pow2_succ(n as nat);
            assert(x == (y / 2) * pow2((n + 1) as nat)) by (nonlinear_arith)
                requires
                    x == y * pow2(n as nat),
                    y % 2 == 0,
                    pow2((n + 1) as nat) == 2 * pow2(n as nat),
            ;
            assert(pow2((n + 1) as nat) <= x) by (nonlinear_arith)
                requires
                    x == (y / 2) * pow2((n + 1) as nat),
                    y / 2 >= 1,
            ;
            lemma_pow2_fits_usize((n + 1) as nat);
        }
        y = y / 2;
        n = n + 1;
    }
    n
}

/// The base-2 logarithm of `x`, rounded down.
fn log2_floor(x: usize) -> (r: u32)
    requires
        x > 0,
    ensures
        r == floor_log2(x),
{
    let mut n: u32 = 0;
    let mut y: usize = x;
    proof {
        lemma2_to64();
    }
    while y > 1
        invariant
            y >= 1,
            y * pow2(n as nat) <= x,
            floor_log2(x) == n + floor_log2(y),
        decreases y,
    {
        proof {
            lemma_pow2_pos(n as nat);
            lemma_pow2_succ(n as nat);
            assert((y / 2) * pow2((n + 1) as nat) <= x) by (nonlinear_arith)
                requires
                    y * pow2(n as nat) <= x,
                    pow2((n + 1) as nat) == 2 * pow2(n as nat),
                    pow2(n as nat) > 0,
            ;
            assert(pow2((n + 1) as nat) <= x) by (nonlinear_arith)
                requires
                    (y / 2) * pow2((n + 1) as nat) <= x,
                    y / 2 >= 1,
            ;
            lemma_pow2_fits_usize((n + 1) as nat);
        }
        y = y / 2;
        n = n + 1;
    }
    n
}

/// The highest page-table level at which a mapping of `size` pages from `vpn` to `ppn` can
/// start: the smaller of the alignment of both page numbers and the size, in levels.
pub open spec fn superpage_level(vpn: usize, ppn: usize, size: usize) -> int {
    let tz = trailing_zeros(vpn | ppn);
    let lg = floor_log2(size);
    (if tz < lg { tz } else { lg }) as int / BITS_PER_LEVEL as int
}

/// Determine the highest order of page that can be used for the start of a certain mapping.
pub fn calc_superpage(vpn: usize, ppn: usize, size: usize) -> (r: u8)
    requires
        size > 0,
    ensures
        r == superpage_level(vpn, ppn, size),
{
    let tz = count_trailing_zeros(vpn | ppn);
    let lg = log2_floor(size);
    let m = if tz < lg { tz } else { lg };
    (m / BITS_PER_LEVEL) as u8
}

} // verus!
