//! Physical memory manager: a buddy allocator over page frames.
use vstd::prelude::*;
use vstd::arithmetic::power2::*;
use crate::config::PAGE_SIZE;
use crate::errno::{Errno, EResult};
use crate::mem::arith::{
    lemma_align_merge_even, lemma_align_merge_odd, lemma_align_split, lemma_shr, lemma_one_shl, lemma_page_div, lemma_pow2_fits_usize, lemma_pow2_mono,
    lemma_pow2_pos_int, lemma_pow2_succ, lemma_pow2_usize_bits,
};
use vstd::pervasive::VecAdditionalExecFns;
use crate::mem::map::{KernelVmSpace, Mapping, map_result, kernel_bounds, kernel_map_flags, describes};
use crate::mem::memobject::RawMemory;
use crate::mem::prot;

verus! {

/// Unsigned integer that can store a physical address.
pub type PAddrr = usize;

/// Physical page number.
pub type PPN = usize;

/// Maximum order that blocks can be coalesced into.
pub const MAX_ORDER: u8 = 64;

/// Size in bytes of the metadata record kept for one physical page.
pub const PAGE_META_SIZE: usize = 8;

/// How many pages the metadata records of the pages in `start..end` (byte addresses) take.
pub open spec fn meta_pages(start: int, end: int) -> int {
    (PAGE_META_SIZE * ((end - start) / PAGE_SIZE as int) + PAGE_SIZE - 1) / PAGE_SIZE as int
}

/// Kinds of usage for pages of memory.
#[derive(Clone, Copy, Debug, PartialEq, Eq, Structural)]
pub enum PageUsage {
    /// Dummy entry for unusable page.
    Unusable,
    /// Unused page.
    Free,
    /// Part of a page table.
    PageTable,
    /// Contains cached data.
    Cache,
    /// Part of a mmap'ed file.
    Mmap,
    /// Anonymous user memory.
    UserAnon,
    /// Anonymous kernel memory.
    KernelAnon,
    /// Kernel slabs memory.
    KernelSlab,
    /// The kernel executable itself, be that code or data.
    KernelSegment,
}

/// Physical memory page metadata.
#[derive(Clone, Copy, Debug)]
pub struct Page {
    /// Page refcount, may be used for arbitrary purposes by the owner.
    pub refcount: u32,
    /// Order of the buddy block this page belongs to.
    order: u8,
    /// Current page usage.
    usage: PageUsage,
}

impl Page {
    /// Metadata of a page that is not usable: what the allocator starts every page with.
    pub fn unusable() -> (r: Page)
        ensures
            r.spec_refcount() == 0,
            r.spec_order() == 0,
            r.spec_usage() == PageUsage::Unusable,
    {
        Page { refcount: 0, order: 0, usage: PageUsage::Unusable }
    }

    pub closed spec fn spec_refcount(&self) -> u32 {
        self.refcount
    }

    pub closed spec fn spec_order(&self) -> u8 {
        self.order
    }

    pub closed spec fn spec_usage(&self) -> PageUsage {
        self.usage
    }

    /// Get the buddy alloc page order.
    pub fn order(&self) -> (r: u8)
        ensures
            r == self.spec_order(),
    {
        self.order
    }

    /// Get the current page usage.
    pub fn usage(&self) -> (r: PageUsage)
        ensures
            r == self.spec_usage(),
    {
        self.usage
    }
}

/// `r` is the least exponent with `n <= 2^r`.
pub open spec fn is_ceil_log2(n: int, r: nat) -> bool {
    &&& n <= pow2(r)
    &&& (r == 0 || pow2((r - 1) as nat) < n)
}

/// There is only one least exponent.
pub proof fn lemma_ceil_log2_unique(n: int, a: nat, b: nat)
    requires
        is_ceil_log2(n, a),
        is_ceil_log2(n, b),
    ensures
        a == b,
{
    if a < b {
        lemma_pow2_mono(a, (b - 1) as nat);
    } else if b < a {
        lemma_pow2_mono(b, (a - 1) as nat);
    }
}

/// Smallest order whose block holds `pages` pages.
fn ceil_log2(pages: usize) -> (r: u8)
    requires
        pages > 0,
    ensures
        is_ceil_log2(pages as int, r as nat),
        r <= usize::BITS,
{
    let mut r: u8 = 0;
    while (r as u32) < usize::BITS && (1usize << (r as usize)) < pages
        invariant
            r <= usize::BITS,
            pages > 0,
            r == 0 || pow2((r - 1) as nat) < pages,
        decreases usize::BITS - r,
    {
        proof {
            lemma_one_shl(r as usize);
        }
        r = r + 1;
    }
    proof {
        if (r as u32) < usize::BITS {
            lemma_one_shl(r as usize);
        } else {
            lemma_pow2_usize_bits();
        }
    }
    r
}

/// Calculates the minimum sized order that will fit this many bytes.
pub fn size_to_order(byte_size: usize) -> (r: u8)
    requires
        byte_size > 0,
    ensures
        is_ceil_log2((byte_size as int + PAGE_SIZE - 1) / PAGE_SIZE as int, r as nat),
{
    let pages = byte_size / PAGE_SIZE + if byte_size % PAGE_SIZE != 0 { 1usize } else { 0usize };
    assert(pages == (byte_size as int + PAGE_SIZE - 1) / PAGE_SIZE as int);
    ceil_log2(pages)
}

/// Calculates how many bytes are in a block of a certain order.
pub fn order_to_size(order: u8) -> (r: usize)
    requires
        (order as u32) < usize::BITS,
    ensures
        r == PAGE_SIZE << (order as usize),
        PAGE_SIZE * pow2(order as nat) <= usize::MAX ==> r == PAGE_SIZE * pow2(order as nat),
{
    proof {
        if PAGE_SIZE * pow2(order as nat) <= usize::MAX {
            vstd::bits::lemma_usize_shl_is_mul(PAGE_SIZE, order as usize);
        }
    }
    PAGE_SIZE << (order as usize)
}

/// Calculates the minimum sized order that will fit this many pages.
pub fn pages_to_order(pages: usize) -> (r: u8)
    requires
        pages > 0,
    ensures
        is_ceil_log2(pages as int, r as nat),
{
    ceil_log2(pages)
}

/// Calculates how many pages are in a block of a certain order.
pub fn order_to_pages(order: u8) -> (r: usize)
    requires
        (order as u32) < usize::BITS,
    ensures
        r == pow2(order as nat),
{
    proof {
        lemma_one_shl(order as usize);
    }
    1usize << (order as usize)
}


/// One free block of the buddy allocator: `2^order` pages starting at page number `ppn`.
#[derive(Clone, Copy, Debug, PartialEq, Eq, Structural)]
pub struct FreeBlock {
    pub ppn: PPN,
    pub order: u8,
}

/// Page `p` lies inside free block `fb`.
pub open spec fn fb_has(fb: FreeBlock, p: int) -> bool {
    fb.ppn <= p < fb.ppn + pow2(fb.order as nat)
}

/// Two free blocks share no page.
pub open spec fn fb_disjoint(a: FreeBlock, b: FreeBlock) -> bool {
    a.ppn + pow2(a.order as nat) <= b.ppn || b.ppn + pow2(b.order as nat) <= a.ppn
}

/// The pages of the block of `2^k` pages starting at `ppn`.
pub open spec fn block_set(ppn: int, k: nat) -> Set<int> {
    Set::new(|p: int| ppn <= p < ppn + pow2(k))
}

/// The pages covered by a sequence of free blocks.
pub open spec fn covered(s: Seq<FreeBlock>) -> Set<int> {
    Set::new(|p: int| exists|i: int| 0 <= i < s.len() && fb_has(#[trigger] s[i], p))
}

/// No two blocks of the sequence overlap.
pub open spec fn all_disjoint(s: Seq<FreeBlock>) -> bool {
    forall|i: int, j: int| 0 <= i < s.len() && 0 <= j < s.len() && i != j
        ==> fb_disjoint(#[trigger] s[i], #[trigger] s[j])
}

/// Index of the most recently linked block of order `k` (the head of that order's free list), or -1.
pub open spec fn last_of(s: Seq<FreeBlock>, k: u8) -> int
    decreases s.len(),
{
    if s.len() == 0 {
        -1
    } else if s.last().order == k {
        s.len() - 1
    } else {
        last_of(s.drop_last(), k)
    }
}

/// The free list of order `k` is not empty.
pub open spec fn has_order(s: Seq<FreeBlock>, k: int) -> bool {
    last_of(s, k as u8) >= 0
}

/// The smallest order from `k` up whose free list is not empty, or [`MAX_ORDER`] if none is.
pub open spec fn lowest_from(s: Seq<FreeBlock>, k: int) -> int
    decreases 64 - k,
{
    if k >= 64 || k < 0 {
        64
    } else if has_order(s, k) {
        k
    } else {
        lowest_from(s, k + 1)
    }
}

proof fn lemma_last_of_at(s: Seq<FreeBlock>, k: u8, i: int)
    requires
        0 <= i < s.len(),
        s[i].order == k,
        forall|j: int| i < j < s.len() ==> (#[trigger] s[j]).order != k,
    ensures
        last_of(s, k) == i,
    decreases s.len(),
{
    if i < s.len() - 1 {
        assert(s.drop_last()[i] == s[i]);
        assert forall|j: int| i < j < s.drop_last().len() implies (#[trigger] s.drop_last()[j]).order != k by {
            assert(s.drop_last()[j] == s[j]);
        }
        lemma_last_of_at(s.drop_last(), k, i);
    }
}

proof fn lemma_last_of_none(s: Seq<FreeBlock>, k: u8)
    requires
        forall|j: int| 0 <= j < s.len() ==> (#[trigger] s[j]).order != k,
    ensures
        last_of(s, k) == -1,
    decreases s.len(),
{
    if s.len() > 0 {
        assert forall|j: int| 0 <= j < s.drop_last().len() implies (#[trigger] s.drop_last()[j]).order != k by {
            assert(s.drop_last()[j] == s[j]);
        }
        lemma_last_of_none(s.drop_last(), k);
    }
}

proof fn lemma_last_of_bounds(s: Seq<FreeBlock>, k: u8)
    ensures
        -1 <= last_of(s, k) < s.len(),
        last_of(s, k) >= 0 ==> s[last_of(s, k)].order == k,
    decreases s.len(),
{
    if s.len() > 0 && s.last().order != k {
        lemma_last_of_bounds(s.drop_last(), k);
    }
}

proof fn lemma_lowest_from_skip(s: Seq<FreeBlock>, k: int, m: int)
    requires
        0 <= k <= m <= 64,
        forall|j: int| k <= j < m ==> !#[trigger] has_order(s, j),
    ensures
        lowest_from(s, k) == lowest_from(s, m),
    decreases m - k,
{
    if k < m {
        lemma_lowest_from_skip(s, k + 1, m);
    }
}

proof fn lemma_covered_remove(s: Seq<FreeBlock>, i: int)
    requires
        0 <= i < s.len(),
        all_disjoint(s),
    ensures
        covered(s.remove(i)) == covered(s).difference(block_set(s[i].ppn as int, s[i].order as nat)),
{
    let r = s.remove(i);
    s.remove_ensures(i);
    assert forall|p: int| covered(r).contains(p) implies covered(s).difference(
        block_set(s[i].ppn as int, s[i].order as nat),
    ).contains(p) by {
        let j = choose|j: int| 0 <= j < r.len() && fb_has(#[trigger] r[j], p);
        let jj = if j < i { j } else { j + 1 };
        assert(r[j] == s[jj]);
        assert(fb_disjoint(s[i], s[jj]));
    }
    assert forall|p: int| covered(s).difference(
        block_set(s[i].ppn as int, s[i].order as nat),
    ).contains(p) implies covered(r).contains(p) by {
        let j = choose|j: int| 0 <= j < s.len() && fb_has(#[trigger] s[j], p);
        assert(j != i);
        let jj = if j < i { j } else { j - 1 };
        assert(r[jj] == s[j]);
    }
    assert(covered(r) =~= covered(s).difference(block_set(s[i].ppn as int, s[i].order as nat)));
}

proof fn lemma_covered_push(s: Seq<FreeBlock>, fb: FreeBlock)
    ensures
        covered(s.push(fb)) == covered(s).union(block_set(fb.ppn as int, fb.order as nat)),
{
    let r = s.push(fb);
    assert forall|p: int| covered(r).contains(p) implies covered(s).union(
        block_set(fb.ppn as int, fb.order as nat),
    ).contains(p) by {
        let j = choose|j: int| 0 <= j < r.len() && fb_has(#[trigger] r[j], p);
        if j < s.len() {
            assert(r[j] == s[j]);
        }
    }
    assert forall|p: int| covered(s).union(block_set(fb.ppn as int, fb.order as nat)).contains(p)
        implies covered(r).contains(p) by {
        if covered(s).contains(p) {
            let j = choose|j: int| 0 <= j < s.len() && fb_has(#[trigger] s[j], p);
            assert(r[j] == s[j]);
        } else {
            assert(r[s.len() as int] == fb);
            assert(fb_has(r[s.len() as int], p));
        }
    }
    assert(covered(r) =~= covered(s).union(block_set(fb.ppn as int, fb.order as nat)));
}

proof fn lemma_disjoint_remove(s: Seq<FreeBlock>, i: int)
    requires
        0 <= i < s.len(),
        all_disjoint(s),
    ensures
        all_disjoint(s.remove(i)),
{
    let r = s.remove(i);
    s.remove_ensures(i);
    assert forall|a: int, b: int| 0 <= a < r.len() && 0 <= b < r.len() && a != b implies fb_disjoint(
        #[trigger] r[a],
        #[trigger] r[b],
    ) by {
        let aa = if a < i { a } else { a + 1 };
        let bb = if b < i { b } else { b + 1 };
        assert(r[a] == s[aa]);
        assert(r[b] == s[bb]);
    }
}

proof fn lemma_disjoint_push(s: Seq<FreeBlock>, fb: FreeBlock)
    requires
        all_disjoint(s),
        forall|i: int| 0 <= i < s.len() ==> fb_disjoint(#[trigger] s[i], fb),
    ensures
        all_disjoint(s.push(fb)),
{
    let r = s.push(fb);
    assert forall|a: int, b: int| 0 <= a < r.len() && 0 <= b < r.len() && a != b implies fb_disjoint(
        #[trigger] r[a],
        #[trigger] r[b],
    ) by {
        if a < s.len() {
            assert(r[a] == s[a]);
        }
        if b < s.len() {
            assert(r[b] == s[b]);
        }
        if a == s.len() {
            assert(fb_disjoint(s[b], fb));
        }
        if b == s.len() {
            assert(fb_disjoint(s[a], fb));
        }
    }
}

/// Two overlapping blocks share the page where the later one starts.
proof fn lemma_overlap_witness(a: FreeBlock, b: FreeBlock)
    requires
        !fb_disjoint(a, b),
    ensures
        fb_has(a, if a.ppn >= b.ppn { a.ppn as int } else { b.ppn as int }),
        fb_has(b, if a.ppn >= b.ppn { a.ppn as int } else { b.ppn as int }),
{
    lemma_pow2_pos_int(a.order as nat);
    lemma_pow2_pos_int(b.order as nat);
}

/// The buddy of the aligned block of `2^k` pages at `ppn`: the other half of their common parent.
/// The block of order `k` at page `c` can merge with its buddy: the buddy is a free block of
/// the same order.
pub open spec fn coalescable(a: PhysAllocator, c: int, k: int) -> bool {
    let b = buddy_of(c, k as nat);
    &&& 0 <= b <= usize::MAX
    &&& a.free_blocks().contains(FreeBlock { ppn: b as usize, order: k as u8 })
    &&& a.page_meta(b).spec_order() == k
}

/// A block and its buddy do not overlap.
proof fn lemma_buddy_apart(c: int, k: nat)
    requires
        c % pow2(k) as int == 0,
    ensures
        buddy_of(c, k) >= c + pow2(k) || buddy_of(c, k) + pow2(k) <= c,
{
}

pub open spec fn buddy_of(ppn: int, k: nat) -> int {
    if (ppn / pow2(k) as int) % 2 == 0 {
        ppn + pow2(k)
    } else {
        ppn - pow2(k)
    }
}

/// Wrapping addition, as the atomic page counters do.
pub open spec fn wrap_add(a: usize, b: usize) -> usize {
    if a + b > usize::MAX { (a + b - usize::MAX - 1) as usize } else { (a + b) as usize }
}

/// Wrapping subtraction, as the atomic page counters do.
pub open spec fn wrap_sub(a: usize, b: usize) -> usize {
    if a - b < 0 { (a - b + usize::MAX + 1) as usize } else { (a - b) as usize }
}

/// The page-usage counters of the allocator.
#[derive(Clone, Copy, Debug, PartialEq, Eq, Structural)]
pub struct PageCounters {
    /// Total physical pages.
    pub total: usize,
    /// Physical pages that are used by the kernel.
    pub kernel: usize,
    /// Physical pages that are caches.
    pub cache: usize,
    /// Physical pages that are unused.
    pub free: usize,
    /// Physical pages in use.
    pub used: usize,
}

/// The counters after `n` pages of a block with usage `usage` are allocated.
pub open spec fn counters_after_alloc(c: PageCounters, usage: PageUsage, n: usize) -> PageCounters {
    let c1 = PageCounters { free: wrap_sub(c.free, n), ..c };
    match usage {
        PageUsage::Cache => PageCounters { cache: wrap_add(c1.cache, n), ..c1 },
        PageUsage::PageTable | PageUsage::KernelAnon | PageUsage::KernelSlab => PageCounters {
            kernel: wrap_add(c1.kernel, n),
            used: wrap_add(c1.used, n),
            ..c1
        },
        PageUsage::Mmap | PageUsage::UserAnon => PageCounters { used: wrap_add(c1.used, n), ..c1 },
        _ => c1,
    }
}

/// The counters after `n` pages of a block with usage `usage` are freed.
pub open spec fn counters_after_free(c: PageCounters, usage: PageUsage, n: usize) -> PageCounters {
    let c1 = match usage {
        PageUsage::Cache => PageCounters { cache: wrap_sub(c.cache, n), ..c },
        PageUsage::PageTable | PageUsage::KernelAnon | PageUsage::KernelSlab => PageCounters {
            kernel: wrap_sub(c.kernel, n),
            used: wrap_sub(c.used, n),
            ..c
        },
        PageUsage::Mmap | PageUsage::UserAnon => PageCounters { used: wrap_sub(c.used, n), ..c },
        _ => c,
    };
    PageCounters { free: wrap_add(c1.free, n), ..c1 }
}

/// `b` comes from `a` by allocations alone: its free pages are some of those of `a`, and every
/// page that was not free in `a` keeps its usage.
pub open spec fn allocated_from(a: PhysAllocator, b: PhysAllocator) -> bool {
    &&& b.free_set().subset_of(a.free_set())
    &&& forall|p: int| !a.free_set().contains(p) ==> #[trigger] b.usage_of(p) == a.usage_of(p)
}

/// Usages with which a block may be allocated.
pub open spec fn allocatable_usage(u: PageUsage) -> bool {
    u != PageUsage::Unusable && u != PageUsage::Free && u != PageUsage::KernelSegment
}

/// The buddy allocator: page metadata for a range of page numbers and the free blocks.
pub struct PhysAllocator {
    /// First page number covered by the allocator.
    start: PPN,
    /// One past the last page number covered by the allocator.
    end: PPN,
    /// Metadata of every page in `start..end`.
    pages: Vec<Page>,
    /// The free lists of all orders; the head of an order's list is its last block here.
    blocks: Vec<FreeBlock>,
    /// Page-usage accounting.
    counters: PageCounters,
}

impl PhysAllocator {
    pub closed spec fn range_start(&self) -> int {
        self.start as int
    }

    pub closed spec fn range_end(&self) -> int {
        self.end as int
    }

    /// The free blocks, in the order in which they were linked.
    pub closed spec fn free_blocks(&self) -> Seq<FreeBlock> {
        self.blocks@
    }

    /// The set of free page numbers.
    pub open spec fn free_set(&self) -> Set<int> {
        covered(self.free_blocks())
    }

    /// Metadata of page number `p`.
    pub closed spec fn page_meta(&self, p: int) -> Page {
        if self.start <= p < self.end {
            self.pages@[p - self.start]
        } else {
            Page { refcount: 0, order: 0, usage: PageUsage::Unusable }
        }
    }

    pub open spec fn usage_of(&self, p: int) -> PageUsage {
        self.page_meta(p).spec_usage()
    }

    pub closed spec fn spec_counters(&self) -> PageCounters {
        self.counters
    }

    /// `p` is a page number of the allocator's range.
    pub open spec fn in_range(&self, p: int) -> bool {
        self.range_start() <= p < self.range_end()
    }

    /// A block that lies in range, is aligned to its order and whose pages are all free.
    pub open spec fn block_ok(&self, fb: FreeBlock) -> bool {
        &&& self.range_start() <= fb.ppn
        &&& fb.ppn + pow2(fb.order as nat) <= self.range_end()
        &&& fb.ppn as int % pow2(fb.order as nat) as int == 0
        &&& forall|p: int| fb_has(fb, p) ==> #[trigger] self.usage_of(p) == PageUsage::Free
    }

    /// The allocator's invariant: well-formed free lists, and a free-page counter that counts
    /// exactly the free pages.
    pub open spec fn wf(&self) -> bool {
        &&& self.blocks_ok()
        &&& self.spec_counters().free == self.free_set().len()
    }

    /// The free lists hold disjoint blocks that lie in range, are aligned and are marked free.
    pub open spec fn blocks_ok(&self) -> bool {
        &&& self.wf_shape()
        &&& forall|i: int| 0 <= i < self.free_blocks().len() ==> self.block_ok(#[trigger] self.free_blocks()[i])
        &&& all_disjoint(self.free_blocks())
    }

    pub closed spec fn wf_shape(&self) -> bool {
        &&& self.start <= self.end
        &&& self.end <= usize::MAX / PAGE_SIZE
        &&& self.pages@.len() == self.end - self.start
    }

    /// Page number of the head of the free list of order `k`, if it is not empty.
    fn head_index(&self, k: u8) -> (r: Option<usize>)
        ensures
            match r {
                Some(i) => i == last_of(self.free_blocks(), k) && i < self.free_blocks().len(),
                None => last_of(self.free_blocks(), k) == -1,
            },
    {
        let mut i = self.blocks.len();
        while i > 0
            invariant
                i <= self.blocks@.len(),
                forall|j: int| i <= j < self.blocks@.len() ==> (#[trigger] self.blocks@[j]).order != k,
            decreases i,
        {
            if self.blocks[i - 1].order == k {
                proof {
                    lemma_last_of_at(self.blocks@, k, i - 1);
                }
                return Some(i - 1);
            }
            i = i - 1;
        }
        proof {
            lemma_last_of_none(self.blocks@, k);
        }
        None
    }

    /// Position of a block in the free lists, if it is there.
    fn find_block(&self, ppn: PPN, order: u8) -> (r: Option<usize>)
        ensures
            match r {
                Some(i) => i < self.free_blocks().len() && self.free_blocks()[i as int] == (FreeBlock { ppn, order }),
                None => forall|j: int| 0 <= j < self.free_blocks().len() ==> #[trigger] self.free_blocks()[j] != (FreeBlock { ppn, order }),
            },
    {
        let mut i: usize = 0;
        while i < self.blocks.len()
            invariant
                i <= self.blocks@.len(),
                forall|j: int| 0 <= j < i ==> #[trigger] self.blocks@[j] != (FreeBlock { ppn, order }),
            decreases self.blocks@.len() - i,
        {
            let b = self.blocks[i];
            if b.ppn == ppn && b.order == order {
                return Some(i);
            }
            i = i + 1;
        }
        None
    }

    /// Check whether a block is in the free list of its order.
    pub fn free_list_contains(&self, block: PAddrr, order: u8) -> (r: bool)
        requires
            block % PAGE_SIZE == 0,
        ensures
            r == self.free_blocks().contains(FreeBlock { ppn: (block / PAGE_SIZE) as usize, order }),
    {
        let r = self.find_block(block / PAGE_SIZE, order);
        proof {
            let fb = FreeBlock { ppn: (block / PAGE_SIZE) as usize, order };
            if let Some(i) = r {
                assert(self.free_blocks()[i as int] == fb);
            }
        }
        r.is_some()
    }

    /// Replace the metadata of page `p`.
    fn set_page(&mut self, p: PPN, page: Page)
        requires
            old(self).wf_shape(),
            old(self).in_range(p as int),
        ensures
            final(self).wf_shape(),
            final(self).page_meta(p as int) == page,
            forall|q: int| q != p ==> #[trigger] final(self).page_meta(q) == old(self).page_meta(q),
            final(self).free_blocks() == old(self).free_blocks(),
            final(self).range_start() == old(self).range_start(),
            final(self).range_end() == old(self).range_end(),
            final(self).spec_counters() == old(self).spec_counters(),
    {
        let idx = p - self.start;
        self.pages.set(idx, page);
        assert forall|q: int| q != p implies #[trigger] self.page_meta(q) == old(self).page_meta(q) by {
            assert(q - self.start != idx);
        }
    }

    /// Split the head block of order `cur` into its two halves on the free list of order `cur - 1`.
    /// The lower half becomes the head of that list; its metadata records `target` as its order.
    fn split_head(&mut self, cur: u8, target: u8, Ghost(ppn): Ghost<int>)
        requires
            old(self).wf(),
            0 < cur < MAX_ORDER,
            last_of(old(self).free_blocks(), cur) >= 0,
            old(self).free_blocks()[last_of(old(self).free_blocks(), cur)].ppn == ppn,
        ensures
            final(self).wf(),
            0 <= last_of(final(self).free_blocks(), (cur - 1) as u8) < final(self).free_blocks().len(),
            final(self).free_blocks()[last_of(final(self).free_blocks(), (cur - 1) as u8)] == (FreeBlock { ppn: ppn as usize, order: (cur - 1) as u8 }),
            final(self).free_set() == old(self).free_set(),
            forall|q: int| #[trigger] final(self).usage_of(q) == old(self).usage_of(q),
            forall|q: int| #[trigger] final(self).page_meta(q).spec_refcount() == old(self).page_meta(q).spec_refcount(),
            final(self).range_start() == old(self).range_start(),
            final(self).range_end() == old(self).range_end(),
            final(self).spec_counters() == old(self).spec_counters(),
            final(self).free_blocks().contains(FreeBlock { ppn: (ppn + pow2((cur - 1) as nat)) as usize, order: (cur - 1) as u8 }),
            forall|b: FreeBlock| old(self).free_blocks().contains(b) && b != old(self).free_blocks()[last_of(old(self).free_blocks(), cur)]
                ==> #[trigger] final(self).free_blocks().contains(b),
            forall|q: int| q != ppn ==> #[trigger] final(self).page_meta(q) == old(self).page_meta(q),
    {
        let idx = self.head_index(cur).unwrap();
        let fb = self.blocks[idx];
        let ghost old_blocks = self.blocks@;
        proof {
            lemma_last_of_bounds(old_blocks, cur);
        }
        assert(self.block_ok(old_blocks[idx as int]));
        let half_order: u8 = cur - 1;
        proof {
            lemma_pow2_succ(half_order as nat);
            lemma_pow2_pos_int(half_order as nat);
            lemma_pow2_fits_usize(cur as nat);
            lemma_one_shl(half_order as usize);
            lemma_align_split(fb.ppn as int, half_order as nat);
        }
        let half: usize = 1usize << (half_order as usize);
        self.blocks.remove(idx);
        proof {
            lemma_covered_remove(old_blocks, idx as int);
            lemma_disjoint_remove(old_blocks, idx as int);
            old_blocks.remove_ensures(idx as int);
        }
        let mut meta = self.pages[fb.ppn - self.start];
        let ghost orig = meta;
        assert(orig == old(self).page_meta(fb.ppn as int));
        meta.order = target;
        self.set_page(fb.ppn, meta);
        assert forall|q: int| #[trigger] self.page_meta(q).spec_refcount() == old(self).page_meta(q).spec_refcount() by {
            if q != fb.ppn {
                assert(self.page_meta(q) == old(self).page_meta(q));
            }
        }
        assert forall|q: int| #[trigger] self.usage_of(q) == old(self).usage_of(q) by {
            if q != fb.ppn {
                assert(self.page_meta(q) == old(self).page_meta(q));
            }
        }
        let upper = FreeBlock { ppn: fb.ppn + half, order: half_order };
        let lower = FreeBlock { ppn: fb.ppn, order: half_order };
        let ghost rem = self.blocks@;
        assert forall|i: int| 0 <= i < rem.len() implies self.block_ok(#[trigger] rem[i]) by {
            let j = if i < idx { i } else { i + 1 };
            assert(rem[i] == old_blocks[j]);
            assert(old(self).block_ok(old_blocks[j]));
            assert forall|p: int| fb_has(rem[i], p) implies #[trigger] self.usage_of(p) == PageUsage::Free by {
                assert(old(self).usage_of(p) == PageUsage::Free);
            }
        }
        assert forall|i: int| 0 <= i < rem.len() implies fb_disjoint(#[trigger] rem[i], upper) && fb_disjoint(rem[i], lower) by {
            let j = if i < idx { i } else { i + 1 };
            assert(rem[i] == old_blocks[j]);
            assert(fb_disjoint(old_blocks[j], old_blocks[idx as int]));
        }
        assert(self.block_ok(upper)) by {
            assert forall|p: int| fb_has(upper, p) implies #[trigger] self.usage_of(p) == PageUsage::Free by {
                assert(fb_has(fb, p));
                assert(old(self).usage_of(p) == PageUsage::Free);
            }
        }
        assert(self.block_ok(lower)) by {
            assert forall|p: int| fb_has(lower, p) implies #[trigger] self.usage_of(p) == PageUsage::Free by {
                assert(fb_has(fb, p));
                assert(old(self).usage_of(p) == PageUsage::Free);
            }
        }
        let ghost s1 = *self;
        self.blocks.push(upper);
        proof {
            lemma_covered_push(rem, upper);
            lemma_disjoint_push(rem, upper);
        }
        let ghost rem2 = self.blocks@;
        assert forall|i: int| 0 <= i < rem2.len() implies fb_disjoint(#[trigger] rem2[i], lower) by {
            if i < rem.len() {
                assert(rem2[i] == rem[i]);
            } else {
                assert(rem2[i] == upper);
            }
        }
        self.blocks.push(lower);
        proof {
            lemma_covered_push(rem2, lower);
            lemma_disjoint_push(rem2, lower);
            let nb = self.blocks@;
            assert forall|p: int| #[trigger] self.page_meta(p) == s1.page_meta(p) by {}
            assert forall|p: int| #[trigger] self.usage_of(p) == s1.usage_of(p) by {}
            assert forall|i: int| 0 <= i < nb.len() implies self.block_ok(#[trigger] nb[i]) by {
                assert(s1.block_ok(nb[i]) ==> self.block_ok(nb[i]));
                if i < rem.len() {
                    assert(nb[i] == rem[i]);
                } else if i == rem.len() {
                    assert(nb[i] == upper);
                } else {
                    assert(nb[i] == lower);
                }
            }
            lemma_last_of_at(nb, half_order, nb.len() - 1);
            let whole = block_set(fb.ppn as int, cur as nat);
            let up = block_set(upper.ppn as int, half_order as nat);
            let lo = block_set(lower.ppn as int, half_order as nat);
            assert(whole =~= up.union(lo));
            assert(whole.subset_of(old(self).free_set())) by {
                assert forall|p: int| whole.contains(p) implies old(self).free_set().contains(p) by {
                    assert(fb_has(old_blocks[idx as int], p));
                }
            }
            assert(self.free_set() =~= old(self).free_set());
            assert(nb[rem.len() as int] == upper);
            assert(upper.ppn == ppn + pow2(half_order as nat));
            assert forall|b: FreeBlock| old_blocks.contains(b) && b != old_blocks[idx as int]
                implies #[trigger] nb.contains(b) by {
                let k = choose|k: int| 0 <= k < old_blocks.len() && old_blocks[k] == b;
                let k2 = if k < idx { k } else { k - 1 };
                assert(rem[k2] == b);
                assert(nb[k2] == b);
            }
        }
    }

    /// Allocate `1 << order` pages of physical memory.
    ///
    /// The block comes from the lowest order from `order` up whose free list is not empty: its head
    /// is split into halves down to `order`, and the lowest of them is handed out.
    pub fn page_alloc(&mut self, order: u8, usage: PageUsage) -> (r: EResult<PAddrr>)
        requires
            old(self).wf(),
            order < MAX_ORDER,
            allocatable_usage(usage),
        ensures
            final(self).wf(),
            final(self).range_start() == old(self).range_start(),
            final(self).range_end() == old(self).range_end(),
            (r is Err) <==> lowest_from(old(self).free_blocks(), order as int) == 64,
            r is Err ==> r == Err::<PAddrr, Errno>(Errno::ENOMEM) && *final(self) == *old(self),
            allocated_from(*old(self), *final(self)),
            r is Ok ==> {
                let s = lowest_from(old(self).free_blocks(), order as int);
                let ppn = old(self).free_blocks()[last_of(old(self).free_blocks(), s as u8)].ppn as int;
                &&& r->Ok_0 == ppn * PAGE_SIZE
                &&& block_set(ppn, order as nat).subset_of(old(self).free_set())
                &&& forall|p: int| ppn <= p < ppn + pow2(order as nat) ==> #[trigger] final(self).in_range(p)
                &&& final(self).free_set() == old(self).free_set().difference(block_set(ppn, order as nat))
                &&& forall|p: int| ppn <= p < ppn + pow2(order as nat) ==> {
                    &&& #[trigger] final(self).usage_of(p) == usage
                    &&& final(self).page_meta(p).spec_order() == order
                    &&& final(self).page_meta(p).spec_refcount() == 0
                }
                &&& forall|p: int| !(ppn <= p < ppn + pow2(order as nat)) ==> #[trigger] final(self).usage_of(p) == old(self).usage_of(p)
                &&& final(self).spec_counters() == counters_after_alloc(old(self).spec_counters(), usage, pow2(order as nat) as usize)
                &&& final(self).spec_counters().free == old(self).spec_counters().free - pow2(order as nat)
                &&& forall|j: int| order <= j < s ==> #[trigger] final(self).free_blocks().contains(
                    FreeBlock { ppn: (ppn + pow2(j as nat)) as usize, order: j as u8 })
                &&& forall|b: FreeBlock| old(self).free_blocks().contains(b) && b != old(self).free_blocks()[last_of(old(self).free_blocks(), s as u8)]
                    && b != (FreeBlock { ppn: ppn as usize, order }) ==> #[trigger] final(self).free_blocks().contains(b)
                &&& forall|q: int| !(ppn <= q < ppn + pow2(order as nat)) ==> #[trigger] final(self).page_meta(q) == old(self).page_meta(q)
            },
    {
        // Determine order to split at.
        let mut split_order = order;
        while self.head_index(split_order).is_none()
            invariant
                self.wf(),
                order <= split_order < MAX_ORDER,
                forall|j: int| order <= j < split_order ==> !#[trigger] has_order(self.free_blocks(), j),
                *self == *old(self),
            decreases MAX_ORDER - split_order,
        {
            assert(!has_order(self.free_blocks(), split_order as int));
            if split_order >= MAX_ORDER - 1 {
                proof {
                    lemma_lowest_from_skip(self.blocks@, order as int, 64);
                }
                return Err(Errno::ENOMEM);
            }
            split_order = split_order + 1;
        }
        let ghost s0 = self.blocks@;
        proof {
            lemma_lowest_from_skip(s0, order as int, split_order as int);
            lemma_last_of_bounds(s0, split_order);
        }
        assert(self.free_blocks()[last_of(self.free_blocks(), split_order)].order == split_order);
        let ghost ppn = s0[last_of(s0, split_order)].ppn as int;
        assert(self.block_ok(s0[last_of(s0, split_order)]));

        // Split blocks until one of the desired order is created.
        let mut cur = split_order;
        while cur > order
            invariant
                self.wf(),
                order <= cur <= split_order < MAX_ORDER,
                0 <= last_of(self.free_blocks(), cur) < self.free_blocks().len(),
                self.free_blocks()[last_of(self.free_blocks(), cur)] == (FreeBlock { ppn: ppn as usize, order: cur }),
                self.free_set() == old(self).free_set(),
                0 <= ppn <= usize::MAX,
                forall|q: int| #[trigger] self.usage_of(q) == old(self).usage_of(q),
                self.range_start() == old(self).range_start(),
                self.range_end() == old(self).range_end(),
                self.spec_counters() == old(self).spec_counters(),
                forall|j: int| cur <= j < split_order ==> #[trigger] self.free_blocks().contains(
                    FreeBlock { ppn: (ppn + pow2(j as nat)) as usize, order: j as u8 }),
                forall|b: FreeBlock| s0.contains(b) && b != s0[last_of(s0, split_order)] && b != (FreeBlock { ppn: ppn as usize, order: cur })
                    ==> #[trigger] self.free_blocks().contains(b),
                forall|q: int| q != ppn ==> #[trigger] self.page_meta(q) == old(self).page_meta(q),
                s0 == old(self).free_blocks(),
                old(self).wf(),
                0 <= last_of(s0, split_order) < s0.len(),
                s0[last_of(s0, split_order)] == (FreeBlock { ppn: ppn as usize, order: split_order }),
            decreases cur,
        {
            let ghost prev = *self;
            self.split_head(cur, order, Ghost(ppn));
            proof {
                assert forall|b: FreeBlock| s0.contains(b) && b != s0[last_of(s0, split_order)] && b != (FreeBlock { ppn: ppn as usize, order: (cur - 1) as u8 })
                    implies #[trigger] self.free_blocks().contains(b) by {
                    if b == (FreeBlock { ppn: ppn as usize, order: cur }) {
                        // The block that was split was the split block itself.
                        assert(s0.contains(b));
                        let k1 = choose|k: int| 0 <= k < s0.len() && s0[k] == b;
                        lemma_last_of_bounds(s0, split_order);
                        let k2 = last_of(s0, split_order);
                        assert(old(self).block_ok(old(self).free_blocks()[k1]) && old(self).block_ok(old(self).free_blocks()[k2]));
                        if k1 != k2 {
                            assert(fb_disjoint(old(self).free_blocks()[k1], old(self).free_blocks()[k2]));
                            lemma_pow2_pos_int(cur as nat);
                            lemma_pow2_pos_int(split_order as nat);
                            assert(fb_has(s0[k1], ppn));
                            assert(fb_has(s0[k2], ppn));
                        }
                    } else {
                        assert(prev.free_blocks().contains(b));
                        assert(b != prev.free_blocks()[last_of(prev.free_blocks(), cur)]);
                    }
                }
                assert forall|j: int| cur - 1 <= j < split_order implies #[trigger] self.free_blocks().contains(
                    FreeBlock { ppn: (ppn + pow2(j as nat)) as usize, order: j as u8 }) by {
                    if j >= cur {
                        lemma_pow2_pos_int(j as nat);
                        let b = FreeBlock { ppn: (ppn + pow2(j as nat)) as usize, order: j as u8 };
                        assert(prev.free_blocks().contains(b));
                        assert(b != prev.free_blocks()[last_of(prev.free_blocks(), cur)]);
                    }
                }
            }
            cur = cur - 1;
        }

        // Mark block as in use.
        let idx = match self.head_index(order) {
            Some(i) => i,
            None => return Err(Errno::ENOMEM),
        };
        let fb = self.blocks[idx];
        let ghost before = self.blocks@;
        let ghost pre = *self;
        assert(self.block_ok(before[idx as int]));
        proof {
            lemma_covered_remove(before, idx as int);
            lemma_disjoint_remove(before, idx as int);
            before.remove_ensures(idx as int);
            lemma_pow2_fits_usize(order as nat);
            lemma_one_shl(order as usize);
        }
        self.blocks.remove(idx);
        let ghost rem = self.blocks@;
        let count: usize = 1usize << (order as usize);
        // Account memory usage (the pages themselves are marked below).
        self.counters.free = self.counters.free.wrapping_sub(count);
        match usage {
            PageUsage::Cache => {
                self.counters.cache = self.counters.cache.wrapping_add(count);
            },
            PageUsage::PageTable | PageUsage::KernelAnon | PageUsage::KernelSlab => {
                self.counters.kernel = self.counters.kernel.wrapping_add(count);
                self.counters.used = self.counters.used.wrapping_add(count);
            },
            PageUsage::Mmap | PageUsage::UserAnon => {
                self.counters.used = self.counters.used.wrapping_add(count);
            },
            _ => {},
        }
        let ghost mid = *self;
        assert forall|q: int| #[trigger] mid.usage_of(q) == old(self).usage_of(q) by {
            assert(mid.usage_of(q) == pre.usage_of(q));
        }
        let mut i: usize = 0;
        while i < count
            invariant
                mid.wf_shape(),
                self.wf_shape(),
                i <= count,
                count == pow2(order as nat),
                fb.ppn as int == ppn,
                fb.order == order,
                ppn + pow2(order as nat) <= self.range_end(),
                self.range_start() <= ppn,
                self.free_blocks() == rem,
                self.range_start() == mid.range_start(),
                self.range_end() == mid.range_end(),
                self.spec_counters() == mid.spec_counters(),
                forall|q: int| ppn <= q < ppn + i ==> {
                    &&& #[trigger] self.usage_of(q) == usage
                    &&& self.page_meta(q).spec_order() == order
                    &&& self.page_meta(q).spec_refcount() == 0
                },
                forall|q: int| !(ppn <= q < ppn + i) ==> #[trigger] self.page_meta(q) == mid.page_meta(q),
            decreases count - i,
        {
            let page = Page { refcount: 0, order, usage };
            let ghost before_set = *self;
            assert(page.spec_usage() == usage && page.spec_order() == order && page.spec_refcount() == 0);
            self.set_page(fb.ppn + i, page);
            assert(self.page_meta(ppn + i) == page);
            assert forall|q: int| ppn <= q < ppn + i + 1 implies {
                &&& #[trigger] self.usage_of(q) == usage
                &&& self.page_meta(q).spec_order() == order
                &&& self.page_meta(q).spec_refcount() == 0
            } by {
                if q != ppn + i {
                    assert(self.page_meta(q) == before_set.page_meta(q));
                    assert(before_set.usage_of(q) == usage);
                }
            }
            i = i + 1;
        }
        proof {
            assert forall|q: int| !(ppn <= q < ppn + pow2(order as nat)) implies #[trigger] self.usage_of(q) == old(self).usage_of(q) by {
                assert(self.page_meta(q) == mid.page_meta(q));
                assert(mid.usage_of(q) == old(self).usage_of(q));
            }
            assert forall|j: int| 0 <= j < rem.len() implies self.block_ok(#[trigger] rem[j]) by {
                let jj = if j < idx { j } else { j + 1 };
                assert(rem[j] == before[jj]);
                assert(pre.block_ok(before[jj]));
                assert forall|p: int| #[trigger] mid.usage_of(p) == pre.usage_of(p) by {}
                assert(fb_disjoint(before[jj], before[idx as int]));
                assert forall|p: int| fb_has(rem[j], p) implies #[trigger] self.usage_of(p) == PageUsage::Free by {
                    assert(self.page_meta(p) == mid.page_meta(p));
                    assert(mid.usage_of(p) == PageUsage::Free);
                }
            }
            assert(block_set(ppn, order as nat).subset_of(old(self).free_set())) by {
                assert forall|p: int| block_set(ppn, order as nat).contains(p) implies old(self).free_set().contains(p) by {
                    assert(fb_has(before[idx as int], p));
                }
            }
        }

        proof {
            lemma_page_div(ppn, PAGE_SIZE as int);
            assert(self.wf_shape());
            assert(all_disjoint(self.free_blocks()));
            assert(forall|j: int| 0 <= j < self.free_blocks().len() ==> self.block_ok(#[trigger] self.free_blocks()[j]));
            assert(split_order as int == lowest_from(old(self).free_blocks(), order as int));
            assert(s0 == old(self).free_blocks());
            assert(fb.ppn == ppn);
            assert(self.free_set() == old(self).free_set().difference(block_set(ppn, order as nat)));
            assert forall|b: FreeBlock| pre.free_blocks().contains(b) && b != before[idx as int]
                implies #[trigger] rem.contains(b) by {
                let k = choose|k: int| 0 <= k < before.len() && before[k] == b;
                let k2 = if k < idx { k } else { k - 1 };
                assert(rem[k2] == b);
            }
            assert forall|j: int| order <= j < split_order implies #[trigger] self.free_blocks().contains(
                FreeBlock { ppn: (ppn + pow2(j as nat)) as usize, order: j as u8 }) by {
                let b = FreeBlock { ppn: (ppn + pow2(j as nat)) as usize, order: j as u8 };
                assert(pre.free_blocks().contains(b));
                lemma_pow2_pos_int(j as nat);
            }
            assert forall|q: int| !(ppn <= q < ppn + pow2(order as nat)) implies #[trigger] self.page_meta(q) == old(self).page_meta(q) by {
                assert(i == count);
                lemma_pow2_pos_int(order as nat);
                assert(self.page_meta(q) == mid.page_meta(q));
                assert(mid.page_meta(q) == pre.page_meta(q));
                assert(q != ppn);
                assert(pre.page_meta(q) == old(self).page_meta(q));
            }
        }
        proof {
            let bs = block_set(ppn, order as nat);
            assert forall|p: int| ppn <= p < ppn + pow2(order as nat) implies #[trigger] self.in_range(p) by {
                assert(bs.contains(p));
                lemma_free_in_range(*old(self), p);
            }
            lemma_free_set_len(*old(self));
            lemma_block_set_len(ppn, order as nat);
            vstd::set_lib::lemma_len_subset(bs, old(self).free_set());
            vstd::set_lib::lemma_set_difference_len(old(self).free_set(), bs);
            assert(old(self).free_set().intersect(bs) =~= bs);
            assert(self.free_set().len() == old(self).free_set().len() - pow2(order as nat));
        }
        Ok(fb.ppn * PAGE_SIZE)
    }

    /// Try to coalesce the aligned block of `2^k` pages at `cur` with its buddy: if the buddy is a
    /// free block of the same order, unlink it and report success.
    fn try_coalesce(&mut self, cur: PPN, k: u8) -> (r: bool)
        requires
            old(self).blocks_ok(),
            k < MAX_ORDER,
            cur as int % pow2(k as nat) as int == 0,
            old(self).range_start() <= cur,
            cur + pow2(k as nat) <= old(self).range_end(),
        ensures
            final(self).blocks_ok(),
            final(self).range_start() == old(self).range_start(),
            final(self).range_end() == old(self).range_end(),
            final(self).spec_counters() == old(self).spec_counters(),
            forall|q: int| #[trigger] final(self).page_meta(q) == old(self).page_meta(q),
            r <==> {
                let b = buddy_of(cur as int, k as nat);
                &&& 0 <= b <= usize::MAX
                &&& old(self).free_blocks().contains(FreeBlock { ppn: b as usize, order: k })
                &&& old(self).page_meta(b).spec_order() == k
            },
            r ==> {
                let b = buddy_of(cur as int, k as nat);
                &&& old(self).free_blocks().contains(FreeBlock { ppn: b as usize, order: k })
                &&& 0 <= b <= usize::MAX
                &&& final(self).free_set() == old(self).free_set().difference(block_set(b, k as nat))
                &&& forall|p: int| block_set(b, k as nat).contains(p) ==> #[trigger] final(self).usage_of(p) == PageUsage::Free
            },
            !r ==> *final(self) == *old(self),
    {
        proof {
            lemma_pow2_pos_int(k as nat);
            lemma_pow2_fits_usize(k as nat);
            lemma_one_shl(k as usize);
            lemma_shr(cur, k as usize);
        }
        let size: usize = 1usize << (k as usize);
        let quot = cur >> (k as usize);
        assert(quot & 1 == quot % 2) by (bit_vector);
        let buddy = if quot & 1 == 0 {
            cur + size
        } else {
            proof {
                lemma_align_merge_odd(cur as int, k as nat);
            }
            cur - size
        };
        assert(buddy as int == buddy_of(cur as int, k as nat));
        let ghost fb = FreeBlock { ppn: buddy, order: k };
        proof {
            if self.free_blocks().contains(fb) {
                let i = choose|i: int| 0 <= i < self.free_blocks().len() && self.free_blocks()[i] == fb;
                assert(self.block_ok(self.free_blocks()[i]));
                assert(fb_has(fb, buddy as int));
                assert(self.usage_of(buddy as int) == PageUsage::Free);
                assert(self.range_start() <= buddy < self.range_end());
            }
        }
        // Determine whether coalescing is possible.
        if buddy < self.start || buddy >= self.end {
            return false;
        }
        let buddy_page = self.pages[buddy - self.start];
        proof {
            assert(self.page_meta(buddy as int) == buddy_page);
        }
        if buddy_page.usage != PageUsage::Free || buddy_page.order != k {
            return false;
        }
        // Remove buddy from freelist.
        let idx = match self.find_block(buddy, k) {
            Some(i) => i,
            None => {
                proof {
                    if self.free_blocks().contains(fb) {
                        let i = choose|i: int| 0 <= i < self.free_blocks().len() && self.free_blocks()[i] == fb;
                        assert(self.free_blocks()[i] != fb);
                    }
                }
                return false;
            },
        };
        let ghost before = self.blocks@;
        self.blocks.remove(idx);
        proof {
            lemma_covered_remove(before, idx as int);
            lemma_disjoint_remove(before, idx as int);
            before.remove_ensures(idx as int);
            assert(before[idx as int] == FreeBlock { ppn: buddy, order: k });
            assert(before.contains(FreeBlock { ppn: buddy, order: k }));
            let nb = self.blocks@;
            assert forall|p: int| #[trigger] self.usage_of(p) == old(self).usage_of(p) by {}
            assert forall|i: int| 0 <= i < nb.len() implies self.block_ok(#[trigger] nb[i]) by {
                let j = if i < idx { i } else { i + 1 };
                assert(nb[i] == before[j]);
                assert(old(self).block_ok(before[j]));
            }
            assert(old(self).block_ok(before[idx as int]));
            assert forall|p: int| block_set(buddy as int, k as nat).contains(p) implies #[trigger] self.usage_of(p) == PageUsage::Free by {
                assert(fb_has(before[idx as int], p));
            }
        }
        true
    }

    /// Mark a single block of arbitrary order as free, coalescing it with free buddies.
    pub fn page_free(&mut self, block: PAddrr, order: u8)
        requires
            old(self).wf(),
            order < MAX_ORDER,
            block % PAGE_SIZE == 0,
            (block / PAGE_SIZE) as int % pow2(order as nat) as int == 0,
            old(self).range_start() <= block / PAGE_SIZE,
            block / PAGE_SIZE + pow2(order as nat) <= old(self).range_end(),
            forall|p: int| block_set((block / PAGE_SIZE) as int, order as nat).contains(p)
                ==> #[trigger] old(self).usage_of(p) != PageUsage::Free,
            old(self).usage_of((block / PAGE_SIZE) as int) != PageUsage::KernelSegment,
        ensures
            final(self).wf(),
            final(self).range_start() == old(self).range_start(),
            final(self).range_end() == old(self).range_end(),
            final(self).free_set() == old(self).free_set().union(block_set((block / PAGE_SIZE) as int, order as nat)),
            forall|p: int| #[trigger] final(self).usage_of(p) == if block_set((block / PAGE_SIZE) as int, order as nat).contains(p) {
                PageUsage::Free
            } else {
                old(self).usage_of(p)
            },
            final(self).spec_counters() == counters_after_free(
                old(self).spec_counters(),
                old(self).usage_of((block / PAGE_SIZE) as int),
                pow2(order as nat) as usize,
            ),
            final(self).spec_counters().free == old(self).spec_counters().free + pow2(order as nat),
            exists|c: int, k: int| order <= k <= MAX_ORDER && (#[trigger] final(self).free_blocks().contains(
                FreeBlock { ppn: c as usize, order: k as u8 }))
                && block_set((block / PAGE_SIZE) as int, order as nat).subset_of(block_set(c, k as nat))
                && (k < MAX_ORDER ==> !coalescable(*final(self), c, k)),
    {
        let ppn0 = block / PAGE_SIZE;
        let ghost p0 = ppn0 as int;
        let ghost fresh = block_set(p0, order as nat);
        proof {
            lemma_pow2_pos_int(order as nat);
            lemma_pow2_fits_usize(order as nat);
            lemma_one_shl(order as usize);
        }
        let pages_freed: usize = 1usize << (order as usize);

        // Remove the pages from where they were previously accounted.
        let usage = self.pages[ppn0 - self.start].usage;
        match usage {
            PageUsage::Cache => {
                self.counters.cache = self.counters.cache.wrapping_sub(pages_freed);
            },
            PageUsage::PageTable | PageUsage::KernelAnon | PageUsage::KernelSlab => {
                self.counters.kernel = self.counters.kernel.wrapping_sub(pages_freed);
                self.counters.used = self.counters.used.wrapping_sub(pages_freed);
            },
            PageUsage::Mmap | PageUsage::UserAnon => {
                self.counters.used = self.counters.used.wrapping_sub(pages_freed);
            },
            _ => {},
        }
        // Account the memory as free.
        self.counters.free = self.counters.free.wrapping_add(pages_freed);
        let ghost start_state = *self;
        assert forall|p: int| #[trigger] start_state.usage_of(p) == old(self).usage_of(p) by {}

        // The freed block shares no page with any free block.
        assert forall|p: int| fresh.contains(p) implies !#[trigger] self.free_set().contains(p) by {
            if self.free_set().contains(p) {
                let j = choose|j: int| 0 <= j < self.free_blocks().len() && fb_has(#[trigger] self.free_blocks()[j], p);
                assert(self.block_ok(self.free_blocks()[j]));
                assert(old(self).usage_of(p) != PageUsage::Free);
            }
        }
        assert(old(self).free_set().disjoint(fresh)) by {
            assert(self.free_blocks() == old(self).free_blocks());
            assert forall|p: int| fresh.contains(p) implies !old(self).free_set().contains(p) by {
                assert(!self.free_set().contains(p));
            }
        }

        // Attempt to coalesce.
        let mut cur = ppn0;
        let mut k = order;
        loop
            invariant
                self.blocks_ok(),
                order <= k <= MAX_ORDER,
                cur as int % pow2(k as nat) as int == 0,
                self.range_start() == old(self).range_start(),
                self.range_end() == old(self).range_end(),
                self.range_start() <= cur,
                cur + pow2(k as nat) <= self.range_end(),
                fresh.subset_of(block_set(cur as int, k as nat)),
                self.free_set().union(block_set(cur as int, k as nat)) == old(self).free_set().union(fresh),
                self.free_set().disjoint(block_set(cur as int, k as nat)),
                forall|p: int| block_set(cur as int, k as nat).contains(p) && !fresh.contains(p)
                    ==> #[trigger] start_state.usage_of(p) == PageUsage::Free,
                forall|q: int| #[trigger] self.page_meta(q) == start_state.page_meta(q),
                self.spec_counters() == start_state.spec_counters(),
            ensures
                k < MAX_ORDER ==> !coalescable(*self, cur as int, k as int),
            decreases MAX_ORDER - k,
        {
            if k >= MAX_ORDER {
                break;
            }
            if !self.try_coalesce(cur, k) {
                break;
            }
            let ghost old_cur = cur as int;
            let ghost pk = pow2(k as nat) as int;
            let ghost b = buddy_of(old_cur, k as nat);
            let ghost prev = *self;
            proof {
                lemma_pow2_succ(k as nat);
                lemma_pow2_pos_int(k as nat);
                lemma_pow2_fits_usize(k as nat);
                lemma_one_shl(k as usize);
                lemma_shr(cur, k as usize);
            }
            // The buddy was a free block: its pages are free and in range.
            assert(self.free_set() =~= prev.free_set());
            let size: usize = 1usize << (k as usize);
            let quot = cur >> (k as usize);
            assert(quot & 1 == quot % 2) by (bit_vector);
            if quot & 1 != 0 {
                proof {
                    lemma_align_merge_odd(old_cur, k as nat);
                }
                cur = cur - size;
            } else {
                proof {
                    lemma_align_merge_even(old_cur, k as nat);
                }
            }
            k = k + 1;
            proof {
                let m = cur as int;
                assert(m == if b < old_cur { b } else { old_cur });
                assert(block_set(m, k as nat) =~= block_set(old_cur, (k - 1) as nat).union(block_set(b, (k - 1) as nat)));
                assert forall|p: int| block_set(m, k as nat).contains(p) && !fresh.contains(p)
                    implies #[trigger] start_state.usage_of(p) == PageUsage::Free by {
                    if block_set(b, (k - 1) as nat).contains(p) {
                        assert(self.usage_of(p) == PageUsage::Free);
                        assert(self.page_meta(p) == start_state.page_meta(p));
                    }
                }
            }
        }

        // Set the pages up for future usage.
        let ghost co = *self;
        proof {
            lemma_pow2_fits_usize(k as nat);
            lemma_one_shl(k as usize);
        }
        let count: usize = 1usize << (k as usize);
        let mut i: usize = 0;
        while i < count
            invariant
                self.wf_shape(),
                co.wf_shape(),
                i <= count,
                count == pow2(k as nat),
                co.range_start() <= cur,
                cur + count <= co.range_end(),
                self.range_start() == co.range_start(),
                self.range_end() == co.range_end(),
                self.free_blocks() == co.free_blocks(),
                self.spec_counters() == co.spec_counters(),
                forall|q: int| cur <= q < cur + i ==> #[trigger] self.usage_of(q) == PageUsage::Free
                    && self.page_meta(q).spec_order() == k,
                forall|q: int| !(cur <= q < cur + i) ==> #[trigger] self.page_meta(q) == co.page_meta(q),
            decreases count - i,
        {
            let old_page = self.pages[cur + i - self.start];
            let page = Page { refcount: old_page.refcount, order: k, usage: PageUsage::Free };
            let ghost before_set = *self;
            assert(page.spec_usage() == PageUsage::Free && page.spec_order() == k);
            self.set_page(cur + i, page);
            assert(self.page_meta(cur + i) == page);
            assert forall|q: int| cur <= q < cur + i + 1 implies #[trigger] self.usage_of(q) == PageUsage::Free
                && self.page_meta(q).spec_order() == k by {
                if q != cur + i {
                    assert(self.page_meta(q) == before_set.page_meta(q));
                    assert(before_set.usage_of(q) == PageUsage::Free);
                }
            }
            i = i + 1;
        }

        // Insert it into the freelist.
        let merged = FreeBlock { ppn: cur, order: k };
        let ghost fl = self.blocks@;
        proof {
            assert forall|j: int| 0 <= j < fl.len() implies self.block_ok(#[trigger] fl[j])
                && fb_disjoint(fl[j], merged) by {
                assert(co.block_ok(fl[j]));
                if !fb_disjoint(fl[j], merged) {
                    lemma_overlap_witness(fl[j], merged);
                    let w = if fl[j].ppn >= merged.ppn { fl[j].ppn as int } else { merged.ppn as int };
                    assert(co.free_set().contains(w));
                    assert(block_set(cur as int, k as nat).contains(w));
                }
                assert forall|p: int| fb_has(fl[j], p) implies #[trigger] self.usage_of(p) == PageUsage::Free by {
                    assert(co.free_set().contains(p));
                    assert(!block_set(cur as int, k as nat).contains(p));
                    assert(self.page_meta(p) == co.page_meta(p));
                    assert(co.usage_of(p) == PageUsage::Free);
                }
            }
            assert(self.block_ok(merged));
            lemma_covered_push(fl, merged);
            lemma_disjoint_push(fl, merged);
        }
        let ghost s2 = *self;
        assert(s2.block_ok(merged));
        self.blocks.push(merged);
        proof {
            let nb = self.blocks@;
            assert forall|p: int| #[trigger] self.page_meta(p) == s2.page_meta(p) by {}
            assert forall|p: int| #[trigger] self.usage_of(p) == s2.usage_of(p) by {}
            assert forall|j: int| 0 <= j < nb.len() implies self.block_ok(#[trigger] nb[j]) by {
                if j < fl.len() {
                    assert(nb[j] == fl[j]);
                    assert(s2.block_ok(fl[j]));
                } else {
                    assert(nb[j] == merged);
                }
            }
            assert forall|p: int| #[trigger] self.usage_of(p) == if fresh.contains(p) {
                PageUsage::Free
            } else {
                old(self).usage_of(p)
            } by {
                if block_set(cur as int, k as nat).contains(p) {
                    if !fresh.contains(p) {
                        assert(start_state.usage_of(p) == PageUsage::Free);
                    }
                } else {
                    assert(s2.page_meta(p) == co.page_meta(p));
                    assert(co.page_meta(p) == start_state.page_meta(p));
                    assert(!fresh.contains(p));
                }
            }
            assert(nb[nb.len() - 1] == merged);
            assert(self.free_blocks().contains(FreeBlock { ppn: cur, order: k }));
            if k < MAX_ORDER {
                let b = buddy_of(cur as int, k as nat);
                lemma_buddy_apart(cur as int, k as nat);
                lemma_pow2_pos_int(k as nat);
                if coalescable(*self, cur as int, k as int) {
                    let j = choose|j: int| 0 <= j < nb.len() && nb[j] == FreeBlock { ppn: b as usize, order: k };
                    assert(j < fl.len());
                    assert(co.free_blocks()[j] == FreeBlock { ppn: b as usize, order: k });
                    assert(self.page_meta(b) == co.page_meta(b));
                    assert(coalescable(co, cur as int, k as int));
                }
            }
            assert(block_set((block / PAGE_SIZE) as int, order as nat).subset_of(block_set(cur as int, k as nat)));
            let c = cur as int;
            let kk = k as int;
            assert(order <= kk <= MAX_ORDER);
            assert(self.free_blocks().contains(FreeBlock { ppn: c as usize, order: kk as u8 }));
            assert(kk < MAX_ORDER ==> !coalescable(*self, c, kk));
            lemma_free_set_len(*old(self));
            lemma_free_set_len(*self);
            lemma_block_set_len(p0, order as nat);
            vstd::set_lib::lemma_set_disjoint_lens(old(self).free_set(), fresh);
            assert(self.free_set().len() == old(self).free_set().len() + pow2(order as nat));
        }
    }

    /// The largest order of block that starts at page `cur` and fits in `len` pages.
    fn max_block_order(cur: PPN, len: usize) -> (k: u8)
        requires
            len > 0,
        ensures
            (k as u32) < usize::BITS,
            cur as int % pow2(k as nat) as int == 0,
            pow2(k as nat) <= len,
    {
        let mut k: u8 = 0;
        proof {
            lemma_pow2_usize_bits();
            lemma2_to64();
        }
        loop
            invariant
                (k as u32) < usize::BITS,
                cur as int % pow2(k as nat) as int == 0,
                pow2(k as nat) <= len,
            decreases usize::BITS - k,
        {
            if (k as u32) + 1 >= usize::BITS {
                break;
            }
            proof {
                lemma_one_shl((k + 1) as usize);
                lemma_pow2_pos_int((k + 1) as nat);
            }
            let size: usize = 1usize << ((k + 1) as usize);
            if cur % size != 0 || size > len {
                break;
            }
            k = k + 1;
        }
        k
    }

    /// Mark a range of memory as free, as blocks of the largest orders its alignment allows.
    pub fn mark_free(&mut self, memory: core::ops::Range<PAddrr>)
        requires
            old(self).wf(),
            memory.start % PAGE_SIZE == 0,
            memory.end % PAGE_SIZE == 0,
            memory.start <= memory.end,
            old(self).range_start() <= memory.start / PAGE_SIZE,
            memory.end / PAGE_SIZE <= old(self).range_end(),
            forall|p: int| memory.start / PAGE_SIZE <= p < memory.end / PAGE_SIZE
                ==> #[trigger] old(self).usage_of(p) != PageUsage::Free
                && old(self).usage_of(p) != PageUsage::KernelSegment,
        ensures
            final(self).wf(),
            final(self).range_start() == old(self).range_start(),
            final(self).range_end() == old(self).range_end(),
            final(self).free_set() == old(self).free_set().union(
                Set::new(|p: int| memory.start / PAGE_SIZE <= p < memory.end / PAGE_SIZE),
            ),
            forall|p: int| #[trigger] final(self).usage_of(p) == if memory.start / PAGE_SIZE <= p < memory.end / PAGE_SIZE {
                PageUsage::Free
            } else {
                old(self).usage_of(p)
            },
            (forall|p: int| memory.start / PAGE_SIZE <= p < memory.end / PAGE_SIZE
                ==> #[trigger] old(self).usage_of(p) == PageUsage::Unusable)
                && old(self).spec_counters().free + (memory.end / PAGE_SIZE - memory.start / PAGE_SIZE) <= usize::MAX
                ==> final(self).spec_counters() == (PageCounters {
                    free: (old(self).spec_counters().free + (memory.end / PAGE_SIZE - memory.start / PAGE_SIZE)) as usize,
                    ..old(self).spec_counters()
                }),
            old(self).spec_counters().free + (memory.end / PAGE_SIZE - memory.start / PAGE_SIZE) <= usize::MAX
                ==> final(self).spec_counters().free == old(self).spec_counters().free + (memory.end / PAGE_SIZE
                - memory.start / PAGE_SIZE),
    {
        let ghost plain = (forall|p: int| memory.start / PAGE_SIZE <= p < memory.end / PAGE_SIZE
            ==> #[trigger] old(self).usage_of(p) == PageUsage::Unusable)
            && old(self).spec_counters().free + (memory.end / PAGE_SIZE - memory.start / PAGE_SIZE) <= usize::MAX;
        let first = memory.start / PAGE_SIZE;
        let last = memory.end / PAGE_SIZE;
        let mut cur = first;
        while cur < last
            invariant
                self.wf(),
                first <= cur <= last,
                self.range_start() == old(self).range_start(),
                self.range_end() == old(self).range_end(),
                self.range_start() <= first,
                last <= self.range_end(),
                self.free_set() == old(self).free_set().union(Set::new(|p: int| first <= p < cur)),
                forall|p: int| #[trigger] self.usage_of(p) == if first <= p < cur {
                    PageUsage::Free
                } else {
                    old(self).usage_of(p)
                },
                forall|p: int| first <= p < last ==> #[trigger] old(self).usage_of(p) != PageUsage::Free
                    && old(self).usage_of(p) != PageUsage::KernelSegment,
                plain == ((forall|p: int| first <= p < last ==> #[trigger] old(self).usage_of(p) == PageUsage::Unusable)
                    && old(self).spec_counters().free + (last - first) <= usize::MAX),
                plain ==> self.spec_counters() == (PageCounters {
                    free: (old(self).spec_counters().free + (cur - first)) as usize,
                    ..old(self).spec_counters()
                }),
                old(self).spec_counters().free + (last - first) <= usize::MAX ==> self.spec_counters().free
                    == old(self).spec_counters().free + (cur - first),
            decreases last - cur,
        {
            // Max order of the block depends on its address and on the available space.
            let order = Self::max_block_order(cur, last - cur);
            proof {
                lemma_page_div(cur as int, PAGE_SIZE as int);
                assert(order < MAX_ORDER);
                assert forall|p: int| block_set(cur as int, order as nat).contains(p) implies #[trigger] self.usage_of(p) != PageUsage::Free by {
                    assert(old(self).usage_of(p) != PageUsage::Free);
                }
                assert(self.usage_of(cur as int) == old(self).usage_of(cur as int));
            }
            let ghost before = *self;
            proof {
                if plain {
                    assert(old(self).usage_of(cur as int) == PageUsage::Unusable);
                }
            }
            self.page_free(cur * PAGE_SIZE, order);
            let ghost next = cur + pow2(order as nat);
            proof {
                assert(before.free_set() == old(self).free_set().union(Set::new(|p: int| first <= p < cur)));
                assert(self.free_set() =~= old(self).free_set().union(Set::new(|p: int| first <= p < next)));
                assert forall|p: int| #[trigger] self.usage_of(p) == if first <= p < next {
                    PageUsage::Free
                } else {
                    old(self).usage_of(p)
                } by {
                    assert(before.usage_of(p) == if first <= p < cur {
                        PageUsage::Free
                    } else {
                        old(self).usage_of(p)
                    });
                }
                lemma_one_shl(order as usize);
                lemma_pow2_pos_int(order as nat);
            }
            cur = cur + (1usize << (order as usize));
        }
        proof {
            assert(self.free_set() =~= old(self).free_set().union(
                Set::new(|p: int| memory.start / PAGE_SIZE <= p < memory.end / PAGE_SIZE),
            ));
        }
    }

    /// Initialize the physical memory allocator for the memory `total`, of which `early` is usable.
    ///
    /// Every page starts out unusable; the early pool, except the pages set aside for the page
    /// metadata at its start, is then marked free.
    pub fn init(total: core::ops::Range<PAddrr>, early: core::ops::Range<PAddrr>) -> (r: Self)
        requires
            total.start % PAGE_SIZE == 0,
            total.end % PAGE_SIZE == 0,
            early.start % PAGE_SIZE == 0,
            early.end % PAGE_SIZE == 0,
            total.start <= early.start <= early.end <= total.end,
            (early.end - early.start) / PAGE_SIZE as int >= meta_pages(total.start as int, total.end as int) + 64,
        ensures
            r.wf(),
            r.range_start() == total.start / PAGE_SIZE,
            r.range_end() == total.end / PAGE_SIZE,
            r.free_set() == Set::new(|p: int|
                early.start / PAGE_SIZE + meta_pages(total.start as int, total.end as int) <= p < early.end / PAGE_SIZE),
            forall|p: int| #[trigger] r.usage_of(p) == if early.start / PAGE_SIZE + meta_pages(total.start as int, total.end as int) <= p
                && p < early.end / PAGE_SIZE {
                PageUsage::Free
            } else {
                PageUsage::Unusable
            },
            r.spec_counters() == (PageCounters {
                total: (total.end / PAGE_SIZE - total.start / PAGE_SIZE) as usize,
                kernel: 0,
                cache: 0,
                free: (early.end / PAGE_SIZE - early.start / PAGE_SIZE - meta_pages(total.start as int, total.end as int)) as usize,
                used: 0,
            }),
    {
        let start = total.start / PAGE_SIZE;
        let end = total.end / PAGE_SIZE;
        let n = end - start;
        // How many pages will be used by the page metadata structs.
        let meta_bytes = PAGE_META_SIZE * n;
        let meta = meta_bytes / PAGE_SIZE + if meta_bytes % PAGE_SIZE != 0 { 1usize } else { 0usize };
        // Mark all pages as unusable...
        let mut pages: Vec<Page> = Vec::new();
        let mut i: usize = 0;
        while i < n
            invariant
                i <= n,
                pages@.len() == i,
                forall|j: int| 0 <= j < i ==> #[trigger] pages@[j] == (Page { refcount: 0, order: 0, usage: PageUsage::Unusable }),
            decreases n - i,
        {
            pages.push(Page::unusable());
            i = i + 1;
        }
        let mut r = PhysAllocator {
            start,
            end,
            pages,
            blocks: Vec::new(),
            counters: PageCounters { total: n, kernel: 0, cache: 0, free: 0, used: 0 },
        };
        assert(r.free_set() =~= Set::<int>::empty());
        // ...but mark the early pool as free.
        r.mark_free(early.start + meta * PAGE_SIZE..early.end);
        assert(r.free_set() =~= Set::new(|p: int|
            early.start / PAGE_SIZE + meta_pages(total.start as int, total.end as int) <= p < early.end / PAGE_SIZE));
        r
    }

    /// Get the [`Page`] struct for some physical address.
    pub fn page_struct(&self, paddr: PAddrr) -> (r: &Page)
        requires
            self.wf(),
            paddr % PAGE_SIZE == 0,
            self.in_range((paddr / PAGE_SIZE) as int),
        ensures
            *r == self.page_meta((paddr / PAGE_SIZE) as int),
    {
        &self.pages[paddr / PAGE_SIZE - self.start]
    }

    /// Counters of free, used, kernel and cached pages.
    pub fn counters(&self) -> (r: PageCounters)
        ensures
            r == self.spec_counters(),
    {
        self.counters
    }
}

/// Helper struct for making page allocation cleanup easier: one allocated block.
pub struct PhysPtr {
    paddr: PAddrr,
    order: u8,
}

impl PhysPtr {
    pub closed spec fn spec_paddr(&self) -> PAddrr {
        self.paddr
    }

    pub closed spec fn spec_order(&self) -> u8 {
        self.order
    }

    /// Try to allocate a new block of memory from `alloc`.
    pub fn new(pmm: &mut PhysAllocator, order: u8, usage: PageUsage) -> (r: EResult<Self>)
        requires
            old(pmm).wf(),
            order < MAX_ORDER,
            allocatable_usage(usage),
        ensures
            final(pmm).wf(),
            (r is Err) <==> lowest_from(old(pmm).free_blocks(), order as int) == 64,
            r is Err ==> r == Err::<PhysPtr, Errno>(Errno::ENOMEM) && *final(pmm) == *old(pmm),
            r is Ok ==> {
                let s = lowest_from(old(pmm).free_blocks(), order as int);
                let ppn = old(pmm).free_blocks()[last_of(old(pmm).free_blocks(), s as u8)].ppn as int;
                &&& r->Ok_0.spec_paddr() == ppn * PAGE_SIZE
                &&& r->Ok_0.spec_order() == order
                &&& block_set(ppn, order as nat).subset_of(old(pmm).free_set())
                &&& final(pmm).free_set() == old(pmm).free_set().difference(block_set(ppn, order as nat))
                &&& forall|p: int| ppn <= p < ppn + pow2(order as nat) ==> #[trigger] final(pmm).usage_of(p) == usage
                    && final(pmm).in_range(p)
            },
            final(pmm).range_start() == old(pmm).range_start(),
            final(pmm).range_end() == old(pmm).range_end(),
            allocated_from(*old(pmm), *final(pmm)),
    {
        let paddr = pmm.page_alloc(order, usage)?;
        Ok(PhysPtr { paddr, order })
    }

    /// Create from physical address and order that were allocated earlier.
    pub fn from_raw_parts(paddr: PAddrr, order: u8) -> (r: Self)
        ensures
            r.spec_paddr() == paddr,
            r.spec_order() == order,
    {
        PhysPtr { paddr, order }
    }

    /// Log-base-2 of the allocation's size in pages.
    pub fn order(&self) -> (r: u8)
        ensures
            r == self.spec_order(),
    {
        self.order
    }

    /// Physical address of the start of the allocation.
    pub fn paddr(&self) -> (r: PAddrr)
        ensures
            r == self.spec_paddr(),
    {
        self.paddr
    }

    /// Decompose into physical address and order without freeing.
    pub fn into_raw_parts(self) -> (r: (PAddrr, u8))
        ensures
            r == (self.spec_paddr(), self.spec_order()),
    {
        (self.paddr, self.order)
    }

    /// Give the block back to `pmm` (what dropping the pointer does).
    pub fn free(self, pmm: &mut PhysAllocator)
        requires
            old(pmm).wf(),
            self.spec_order() < MAX_ORDER,
            self.spec_paddr() % PAGE_SIZE == 0,
            (self.spec_paddr() / PAGE_SIZE) as int % pow2(self.spec_order() as nat) as int == 0,
            old(pmm).range_start() <= self.spec_paddr() / PAGE_SIZE,
            self.spec_paddr() / PAGE_SIZE + pow2(self.spec_order() as nat) <= old(pmm).range_end(),
            forall|p: int| block_set((self.spec_paddr() / PAGE_SIZE) as int, self.spec_order() as nat).contains(p)
                ==> #[trigger] old(pmm).usage_of(p) != PageUsage::Free,
            old(pmm).usage_of((self.spec_paddr() / PAGE_SIZE) as int) != PageUsage::KernelSegment,
        ensures
            final(pmm).wf(),
            final(pmm).free_set() == old(pmm).free_set().union(
                block_set((self.spec_paddr() / PAGE_SIZE) as int, self.spec_order() as nat),
            ),
            final(pmm).range_start() == old(pmm).range_start(),
            final(pmm).range_end() == old(pmm).range_end(),
            forall|p: int| !block_set((self.spec_paddr() / PAGE_SIZE) as int, self.spec_order() as nat).contains(p)
                ==> #[trigger] final(pmm).usage_of(p) == old(pmm).usage_of(p),
    {
        pmm.page_free(self.paddr, self.order);
    }
}

/// The protection flags of the memory of a [`PhysBox`]: readable and writable, and also for I/O
/// with `io` and uncached with `nc`.
pub open spec fn box_prot(io: bool, nc: bool) -> u8 {
    prot::READ | prot::WRITE | (if io { prot::IO } else { 0u8 }) | (if nc { prot::NC } else { 0u8 })
}

/// A box for physical RAM allocations: an allocated block and the virtual address it is mapped at.
pub struct PhysBox {
    ptr: PhysPtr,
    vaddr: usize,
}

impl PhysBox {
    pub closed spec fn spec_paddr(&self) -> PAddrr {
        self.ptr.spec_paddr()
    }

    pub closed spec fn spec_vaddr(&self) -> usize {
        self.vaddr
    }

    /// Allocate a block of pages that holds `size` bytes and map it into the kernel's address
    /// space wherever there is room, with the protection [`box_prot`] gives: the memory object
    /// mapped is the block itself. `ENOMEM` if no block of that size is free, with nothing
    /// changed; if the mapping fails, the block is given back.
    pub fn try_new(size: usize, io: bool, nc: bool, kernel: &mut KernelVmSpace, pmm: &mut PhysAllocator) -> (r: EResult<Self>)
        requires
            size > 0,
            old(kernel).inner().wf(),
            old(pmm).wf(),
            old(kernel).inner().tables_in_use(*old(pmm)),
            // A `MappablePage` cannot name physical page 0, so no page may come from there.
            old(pmm).range_start() > 0,
        ensures
            final(kernel).inner().wf(),
            final(pmm).wf(),
            final(kernel).inner().tables_in_use(*final(pmm)),
            final(pmm).range_start() == old(pmm).range_start(),
            final(pmm).range_end() == old(pmm).range_end(),
            forall|k: nat| #[trigger] is_ceil_log2((size + PAGE_SIZE - 1) / PAGE_SIZE as int, k) ==> {
                let s = lowest_from(old(pmm).free_blocks(), k as int);
                let ppn = old(pmm).free_blocks()[last_of(old(pmm).free_blocks(), s as u8)].ppn as int;
                let bytes = (PAGE_SIZE * pow2(k)) as usize;
                let levels = old(kernel).inner().page_map().spec_levels();
                &&& s == 64 ==> r == Err::<Self, Errno>(Errno::ENOMEM) && *final(kernel) == *old(kernel)
                    && *final(pmm) == *old(pmm)
                &&& s != 64 ==> {
                    &&& ppn % pow2(k) as int == 0
                    &&& block_set(ppn, k).subset_of(old(pmm).free_set())
                    &&& exists|o: RawMemory| #[trigger] describes(o, (ppn * PAGE_SIZE) as usize, bytes) && map_result(
                        old(kernel).inner().regions(),
                        bytes,
                        0,
                        kernel_bounds(levels).0 as usize..kernel_bounds(levels).1 as usize,
                        kernel_map_flags(0),
                        box_prot(io, nc),
                        Some((Mapping { offset: 0, object: o })),
                        if r is Ok { Ok::<usize, Errno>(r->Ok_0.spec_vaddr()) } else { Err::<usize, Errno>(r->Err_0) },
                        final(kernel).inner().regions(),
                    )
                    &&& r matches Ok(b) ==> b.spec_paddr() == ppn * PAGE_SIZE && final(pmm).free_set().disjoint(block_set(ppn, k))
                    &&& r is Err ==> block_set(ppn, k).subset_of(final(pmm).free_set())
                }
            },
    {
        let order = size_to_order(size);
        let ghost n = (size + PAGE_SIZE - 1) / PAGE_SIZE as int;
        proof {
            lemma_pow2_usize_bits();
            lemma2_to64();
            let q = pow2((usize::BITS - 12) as nat) as int;
            lemma_pow2_adds(12, (usize::BITS - 12) as nat);
            assert(usize::MAX + 1 == 4096 * q);
            assert(n <= q) by (nonlinear_arith)
                requires
                    n == (size + 4095) / 4096,
                    size <= usize::MAX,
                    usize::MAX + 1 == 4096 * q,
            ;
            if order as int >= usize::BITS - 11 {
                lemma_pow2_mono((usize::BITS - 12) as nat, (order - 1) as nat);
            }
            assert(order < MAX_ORDER && (order as u32) < usize::BITS);
        }
        let ghost p0 = *pmm;
        let ptr = match PhysPtr::new(pmm, order, PageUsage::KernelAnon) {
            Ok(p) => p,
            Err(e) => {
                proof {
                    assert forall|k: nat| #[trigger] is_ceil_log2(n, k) implies k == order by {
                        lemma_ceil_log2_unique(n, k, order as nat);
                    }
                }
                return Err(e);
            },
        };
        let ghost p1 = *pmm;
        let paddr = ptr.paddr();
        let ghost sel = lowest_from(p0.free_blocks(), order as int);
        let ghost ppn = p0.free_blocks()[last_of(p0.free_blocks(), sel as u8)].ppn as int;
        let ghost last = ppn + pow2(order as nat) - 1;
        proof {
            lemma_alloc_aligned(p0, order);
            lemma_pow2_pos_int(order as nat);
            lemma_range_fits(p1);
            assert(p1.usage_of(ppn) == PageUsage::KernelAnon && p1.in_range(ppn));
            assert(p1.usage_of(last) == PageUsage::KernelAnon && p1.in_range(last));
            lemma_page_div(ppn, PAGE_SIZE as int);
            assert(pow2(order as nat) <= p1.range_end() - p1.range_start());
            assert((ppn + pow2(order as nat)) * 4096 <= usize::MAX - 4095 && pow2(order as nat) * 4096 <= usize::MAX - 4095)
                by (nonlinear_arith)
                requires
                    ppn + pow2(order as nat) <= p1.range_end(),
                    p1.range_end() <= usize::MAX / 4096,
                    ppn >= 0,
            ;
        }
        let pages = order_to_pages(order);
        let bytes = pages * PAGE_SIZE;
        let object = RawMemory::new(paddr, bytes);
        let prot_flags: u8 = prot::READ | prot::WRITE | (if io { prot::IO } else { 0u8 }) | (if nc { prot::NC } else { 0u8 });
        proof {
            kernel.inner().lemma_tables_in_use_shrink(p0, p1);
            assert(0u32 & 0x10u32 == 0) by (bit_vector);
        }
        let ghost k0 = *kernel;
        let res = kernel.map(bytes, 0, 0, prot_flags, Some(Mapping { offset: 0, object }), pmm);
        proof {
            assert forall|k: nat| #[trigger] is_ceil_log2(n, k) implies k == order by {
                lemma_ceil_log2_unique(n, k, order as nat);
            }
            assert(describes(object, (ppn * PAGE_SIZE) as usize, bytes));
        }
        match res {
            Ok(vaddr) => {
                proof {
                    assert forall|p: int| block_set(ppn, order as nat).contains(p) implies !pmm.free_set().contains(p) by {
                        assert(!p1.free_set().contains(p));
                    }
                }
                let b = PhysBox::from_parts(ptr, vaddr);
                proof {
                    let levels = k0.inner().page_map().spec_levels();
                    assert(b.spec_paddr() == ppn * PAGE_SIZE);
                    assert(pmm.free_set().disjoint(block_set(ppn, order as nat)));
                    assert(map_result(
                        k0.inner().regions(),
                        bytes,
                        0,
                        kernel_bounds(levels).0 as usize..kernel_bounds(levels).1 as usize,
                        kernel_map_flags(0),
                        box_prot(io, nc),
                        Some((Mapping { offset: 0, object: object })),
                        Ok::<usize, Errno>(b.spec_vaddr()),
                        kernel.inner().regions(),
                    ));
                    assert(bytes == (PAGE_SIZE * pow2(order as nat)) as usize);
                }
                Ok(b)
            },
            Err(e) => {
                let ghost p2 = *pmm;
                proof {
                    assert forall|p: int| block_set(ppn, order as nat).contains(p) implies #[trigger] p2.usage_of(p)
                        == PageUsage::KernelAnon by {
                        assert(!p1.free_set().contains(p));
                        assert(p1.usage_of(p) == PageUsage::KernelAnon);
                    }
                }
                ptr.free(pmm);
                proof {
                    kernel.inner().lemma_tables_in_use_free(p2, *pmm, block_set(ppn, order as nat));
                }
                Err(e)
            },
        }
    }

    /// Wrap an allocated block that has been mapped at `vaddr`.
    pub fn from_parts(ptr: PhysPtr, vaddr: usize) -> (r: Self)
        ensures
            r.spec_paddr() == ptr.spec_paddr(),
            r.spec_vaddr() == vaddr,
    {
        PhysBox { ptr, vaddr }
    }

    /// Get the underlying physical address.
    pub fn paddr(&self) -> (r: usize)
        ensures
            r == self.spec_paddr(),
    {
        self.ptr.paddr()
    }

    /// Get the virtual address the memory is mapped at.
    pub fn vaddr(&self) -> (r: usize)
        ensures
            r == self.spec_vaddr(),
    {
        self.vaddr
    }
}

/// Every free page is marked free.
pub proof fn lemma_free_usage(a: PhysAllocator, p: int)
    requires
        a.wf(),
        a.free_set().contains(p),
    ensures
        a.usage_of(p) == PageUsage::Free,
{
    let i = choose|i: int| 0 <= i < a.free_blocks().len() && fb_has(#[trigger] a.free_blocks()[i], p);
    assert(a.block_ok(a.free_blocks()[i]));
}

/// Every free page lies in the allocator's range.
pub proof fn lemma_free_in_range(a: PhysAllocator, p: int)
    requires
        a.wf(),
        a.free_set().contains(p),
    ensures
        a.in_range(p),
{
    let i = choose|i: int| 0 <= i < a.free_blocks().len() && fb_has(#[trigger] a.free_blocks()[i], p);
    assert(a.block_ok(a.free_blocks()[i]));
}

/// The free pages are finitely many: no more than the allocator's range holds.
proof fn lemma_free_set_len(a: PhysAllocator)
    requires
        a.blocks_ok(),
    ensures
        a.free_set().finite(),
        a.free_set().len() <= a.range_end() - a.range_start(),
{
    let r = vstd::set_lib::set_int_range(a.range_start(), a.range_end());
    assert forall|p: int| a.free_set().contains(p) implies r.contains(p) by {
        let i = choose|i: int| 0 <= i < a.free_blocks().len() && fb_has(#[trigger] a.free_blocks()[i], p);
        assert(a.block_ok(a.free_blocks()[i]));
    }
    vstd::set_lib::lemma_int_range(a.range_start(), a.range_end());
    vstd::set_lib::lemma_len_subset(a.free_set(), r);
}

/// A block of order `k` holds `2^k` pages.
proof fn lemma_block_set_len(ppn: int, k: nat)
    ensures
        block_set(ppn, k).finite(),
        block_set(ppn, k).len() == pow2(k),
{
    assert(block_set(ppn, k) =~= vstd::set_lib::set_int_range(ppn, ppn + pow2(k)));
    vstd::set_lib::lemma_int_range(ppn, ppn + pow2(k));
}

/// The allocator's pages have physical addresses that fit a `usize`.
pub proof fn lemma_range_fits(a: PhysAllocator)
    requires
        a.wf(),
    ensures
        0 <= a.range_start() <= a.range_end(),
        a.range_end() <= usize::MAX / PAGE_SIZE,
{
}

/// Allocating `n` pages takes them from the free count and adds them, modulo the counters'
/// width, to the cache count for cache pages, to the kernel and used counts for page tables
/// and kernel memory, to the used count alone for mapped files and user memory, and to no
/// other count for any other usage; the total never changes.
pub proof fn lemma_alloc_counts(c: PageCounters, usage: PageUsage, n: usize)
    ensures
        ({
            let d = counters_after_alloc(c, usage, n);
            let m = usize::MAX + 1;
            let cache = usage == PageUsage::Cache;
            let kernel = usage == PageUsage::PageTable || usage == PageUsage::KernelAnon || usage == PageUsage::KernelSlab;
            let user = usage == PageUsage::Mmap || usage == PageUsage::UserAnon;
            &&& d.total == c.total
            &&& (d.free + n) % m == c.free
            &&& d.cache == if cache { (c.cache + n) % m } else { c.cache as int }
            &&& d.kernel == if kernel { (c.kernel + n) % m } else { c.kernel as int }
            &&& d.used == if kernel || user { (c.used + n) % m } else { c.used as int }
        }),
{
    let m = usize::MAX + 1;
    let d = counters_after_alloc(c, usage, n);
    assert forall|a: usize, b: usize| #[trigger] wrap_add(a, b) == (a + b) % m by {
        if a + b > usize::MAX {
            vstd::arithmetic::div_mod::lemma_fundamental_div_mod_converse(a + b, m, 1, a + b - m);
        } else {
            vstd::arithmetic::div_mod::lemma_small_mod((a + b) as nat, m as nat);
        }
    }
    assert((d.free + n) % m == c.free) by {
        if c.free < n {
            vstd::arithmetic::div_mod::lemma_fundamental_div_mod_converse(d.free + n, m, 1, c.free as int);
        } else {
            vstd::arithmetic::div_mod::lemma_small_mod((d.free + n) as nat, m as nat);
        }
    }
}

/// Freeing a block of `n` pages with the usage it was allocated with gives back exactly the
/// counters there were before the allocation, even across the counters' wrap-around.
pub proof fn lemma_counters_roundtrip(c: PageCounters, usage: PageUsage, n: usize)
    ensures
        counters_after_free(counters_after_alloc(c, usage, n), usage, n) == c,
{
}

/// Wrapping additions and subtractions of the counters can be done in any order.
proof fn lemma_wrap_commute(a: usize, x: usize, y: usize)
    ensures
        wrap_sub(wrap_add(a, x), y) == wrap_add(wrap_sub(a, y), x),
        wrap_add(wrap_add(a, x), y) == wrap_add(wrap_add(a, y), x),
        wrap_sub(wrap_sub(a, x), y) == wrap_sub(wrap_sub(a, y), x),
{
}

/// Counting in one block and counting out another give the same counters in either order, so
/// that any interleaving of allocations and frees of the same blocks ends at the same counts.
#[verifier::rlimit(50)]
pub proof fn lemma_counters_commute(c: PageCounters, u1: PageUsage, n1: usize, u2: PageUsage, n2: usize)
    ensures
        counters_after_free(counters_after_alloc(c, u1, n1), u2, n2) == counters_after_alloc(
            counters_after_free(c, u2, n2),
            u1,
            n1,
        ),
{
    lemma_wrap_commute(c.free, n2, n1);
    lemma_wrap_commute(c.used, n1, n2);
    lemma_wrap_commute(c.kernel, n1, n2);
    lemma_wrap_commute(c.cache, n1, n2);
}

/// Two allocations change the counters alike in either order.
#[verifier::rlimit(50)]
pub proof fn lemma_counters_commute_allocs(c: PageCounters, u1: PageUsage, n1: usize, u2: PageUsage, n2: usize)
    ensures
        counters_after_alloc(counters_after_alloc(c, u1, n1), u2, n2) == counters_after_alloc(
            counters_after_alloc(c, u2, n2),
            u1,
            n1,
        ),
{
    lemma_wrap_commute(c.free, n1, n2);
    lemma_wrap_commute(c.used, n1, n2);
    lemma_wrap_commute(c.kernel, n1, n2);
    lemma_wrap_commute(c.cache, n1, n2);
}

/// Two frees change the counters alike in either order.
#[verifier::rlimit(50)]
pub proof fn lemma_counters_commute_frees(c: PageCounters, u1: PageUsage, n1: usize, u2: PageUsage, n2: usize)
    ensures
        counters_after_free(counters_after_free(c, u1, n1), u2, n2) == counters_after_free(
            counters_after_free(c, u2, n2),
            u1,
            n1,
        ),
{
    lemma_wrap_commute(c.free, n1, n2);
    lemma_wrap_commute(c.used, n1, n2);
    lemma_wrap_commute(c.kernel, n1, n2);
    lemma_wrap_commute(c.cache, n1, n2);
}

/// The free-page counter follows the free pages: two allocators with the same free pages
/// count the same number of them, whatever allocations and frees led to each.
pub proof fn lemma_free_count_of_free_set(a: PhysAllocator, b: PhysAllocator)
    requires
        a.wf(),
        b.wf(),
        a.free_set() == b.free_set(),
    ensures
        a.spec_counters().free == b.spec_counters().free,
{
}

/// Taking any set of free pages out, by allocations in any order, and putting the same pages
/// back, by frees in any order, restores the free pages and the free-page count.
pub proof fn lemma_free_count_restored(a0: PhysAllocator, a1: PhysAllocator, a2: PhysAllocator, taken: Set<int>)
    requires
        a0.wf(),
        a1.wf(),
        a2.wf(),
        taken.subset_of(a0.free_set()),
        a1.free_set() == a0.free_set().difference(taken),
        a2.free_set() == a1.free_set().union(taken),
    ensures
        a2.free_set() == a0.free_set(),
        a2.spec_counters().free == a0.spec_counters().free,
{
    assert(a2.free_set() =~= a0.free_set());
}

/// Freeing a block right after allocating it gives back exactly the free memory there was before.
pub proof fn lemma_alloc_free_roundtrip(a0: PhysAllocator, a1: PhysAllocator, a2: PhysAllocator, ppn: int, order: nat)
    requires
        block_set(ppn, order).subset_of(a0.free_set()),
        a1.free_set() == a0.free_set().difference(block_set(ppn, order)),
        a2.free_set() == a1.free_set().union(block_set(ppn, order)),
    ensures
        a2.free_set() == a0.free_set(),
{
    assert(a2.free_set() =~= a0.free_set());
}

/// Two successive allocations never hand out the same page.
pub proof fn lemma_successive_allocs_disjoint(
    a0: PhysAllocator,
    a1: PhysAllocator,
    a2: PhysAllocator,
    ppn1: int,
    order1: nat,
    ppn2: int,
    order2: nat,
)
    requires
        block_set(ppn1, order1).subset_of(a0.free_set()),
        a1.free_set() == a0.free_set().difference(block_set(ppn1, order1)),
        block_set(ppn2, order2).subset_of(a1.free_set()),
        a2.free_set() == a1.free_set().difference(block_set(ppn2, order2)),
    ensures
        block_set(ppn1, order1).disjoint(block_set(ppn2, order2)),
        a2.free_set().disjoint(block_set(ppn1, order1)),
        a2.free_set().disjoint(block_set(ppn2, order2)),
{
    assert forall|p: int| block_set(ppn2, order2).contains(p) implies !block_set(ppn1, order1).contains(p) by {
        assert(a1.free_set().contains(p));
    }
}

proof fn lemma_lowest_from_le(s: Seq<FreeBlock>, k: int)
    ensures
        lowest_from(s, k) <= 64,
    decreases 64 - k,
{
    if 0 <= k < 64 && !has_order(s, k) {
        lemma_lowest_from_le(s, k + 1);
    }
}

proof fn lemma_lowest_from_found(s: Seq<FreeBlock>, k: int)
    requires
        0 <= k,
        lowest_from(s, k) < 64,
    ensures
        k <= lowest_from(s, k),
        has_order(s, lowest_from(s, k)),
    decreases 64 - k,
{
    if k < 64 && !has_order(s, k) {
        lemma_lowest_from_found(s, k + 1);
    }
}

/// The block that [`PhysAllocator::page_alloc`] hands out for `order` is aligned to that order.
pub proof fn lemma_alloc_aligned(a: PhysAllocator, order: u8)
    requires
        a.wf(),
        order < MAX_ORDER,
        lowest_from(a.free_blocks(), order as int) != 64,
    ensures
        ({
            let s = lowest_from(a.free_blocks(), order as int);
            let ppn = a.free_blocks()[last_of(a.free_blocks(), s as u8)].ppn as int;
            ppn % pow2(order as nat) as int == 0
        }),
{
    let fb = a.free_blocks();
    lemma_lowest_from_le(fb, order as int);
    lemma_lowest_from_found(fb, order as int);
    let s = lowest_from(fb, order as int);
    lemma_last_of_bounds(fb, s as u8);
    let i = last_of(fb, s as u8);
    assert(a.block_ok(fb[i]));
    let ppn = fb[i].ppn as int;
    lemma_pow2_adds(order as nat, (s - order) as nat);
    lemma_pow2_pos(order as nat);
    lemma_pow2_pos((s - order) as nat);
    let x = pow2(order as nat) as int;
    let y = pow2((s - order) as nat) as int;
    assert(ppn % (x * y) == 0);
    assert(ppn % x == 0) by (nonlinear_arith)
        requires
            x > 0,
            y > 0,
            ppn % (x * y) == 0,
    {
        assert(ppn == (ppn / (x * y)) * (x * y));
        assert(ppn == ((ppn / (x * y)) * y) * x);
        vstd::arithmetic::div_mod::lemma_mod_multiples_basic((ppn / (x * y)) * y, x);
    }
}

} // verus!
