//! The kernel heap: small allocations come from slabs, blocks of equal-sized slots carved out of
//! a few pages each.
use vstd::prelude::*;
use vstd::arithmetic::power2::*;
use std::collections::BTreeMap;
use crate::config::PAGE_SIZE;
use crate::errno::{Errno, EResult};
use crate::mem::pmm::{PageUsage, PhysAllocator, lemma_alloc_aligned, lemma_free_in_range, lemma_free_usage, block_set, lowest_from, last_of, size_to_order, is_ceil_log2};
use crate::mem::arith::lemma_pow2_mono;

verus! {

broadcast use vstd::std_specs::btree::group_btree_axioms, vstd::laws_cmp::group_laws_cmp;

/// Smallest slab size.
pub const SMALLEST: usize = 8;
/// Factor between successive slab sizes.
pub const SIZE_MUL: usize = 2;
/// Number of slab sizes.
pub const SIZES: usize = 9;
/// Largest slab size.
pub const LARGEST: usize = 2048;
/// Buddy order of a slab block.
pub const BUDDY_ORDER: u8 = 2;
/// Size of a slab block in bytes.
pub const BLOCK_SIZE: usize = 16384;
/// Bytes of the header at the start of a slab block: its list links and three counters.
pub const SLAB_HEADER_SIZE: usize = 40;

/// The size of the slots of slab size class `k`.
pub open spec fn class_size(k: nat) -> int
    decreases k,
{
    if k == 0 {
        SMALLEST as int
    } else {
        SIZE_MUL * class_size((k - 1) as nat)
    }
}

/// The slab size class for an allocation of `size` bytes aligned to `align`: the smallest class
/// whose slots hold the size rounded up to the alignment, and that size; `None` if no class does.
pub open spec fn bucket_spec(size: int, align: int) -> Option<(usize, usize)> {
    let padded = (size + align - 1) / align * align;
    if exists|k: nat| k < SIZES && class_size(k) >= padded {
        let k = choose|k: nat| k < SIZES && class_size(k) >= padded && forall|j: nat| j < k ==> class_size(j) < padded;
        Some((k as usize, class_size(k) as usize))
    } else {
        None
    }
}

proof fn lemma_class_size_mono(j: nat, k: nat)
    requires
        j <= k,
    ensures
        class_size(j) <= class_size(k),
        class_size(j) >= SMALLEST,
    decreases k,
{
    if j < k {
        lemma_class_size_mono(j, (k - 1) as nat);
    } else if k > 0 {
        lemma_class_size_mono((k - 1) as nat, (k - 1) as nat);
    }
}

/// The slab bucket for an allocation of `size` bytes aligned to `align`: its index and slot size.
pub fn bucket_for(size: usize, align: usize) -> (r: Option<(usize, usize)>)
    requires
        size != 0,
        align != 0,
        size + align - 1 <= usize::MAX,
    ensures
        r == bucket_spec(size as int, align as int),
{
    let q = (size + (align - 1)) / align;
    assert(q * align <= size + align - 1) by (nonlinear_arith)
        requires
            q == (size + align - 1) / (align as int),
            align > 0,
    ;
    let padded = q * align;
    proof {
        reveal_with_fuel(class_size, 9);
        assert(class_size(7) == 1024);
        assert(class_size(8) == 2048);
    }
    let mut k: usize = 0;
    let mut slab: usize = SMALLEST;
    while k < SIZES - 1 && slab < padded
        invariant
            k <= SIZES - 1,
            slab == class_size(k as nat),
            forall|j: nat| j < k ==> class_size(j) < padded,
            class_size(7) == 1024,
        decreases SIZES - k,
    {
        proof {
            lemma_class_size_mono(k as nat, 7);
            assert(class_size((k + 1) as nat) == 2 * class_size(k as nat));
        }
        slab = slab * SIZE_MUL;
        k = k + 1;
    }
    if slab < padded {
        proof {
            if exists|j: nat| j < SIZES && class_size(j) >= padded {
                let j = choose|j: nat| j < SIZES && class_size(j) >= padded;
                lemma_class_size_mono(j, 8);
            }
        }
        None
    } else {
        proof {
            assert(exists|j: nat| j < SIZES && class_size(j) >= padded && forall|i: nat| i < j ==> class_size(i) < padded) by {
                assert(k < SIZES && class_size(k as nat) >= padded && forall|i: nat| i < k ==> class_size(i) < padded);
            }
            let c = choose|j: nat| j < SIZES && class_size(j) >= padded && forall|i: nat| i < j ==> class_size(i) < padded;
            if c < k {
            } else if c > k {
                assert(class_size(k as nat) < padded);
            }
        }
        Some((k, slab))
    }
}

/// `size` bytes aligned to `align`, rounded up to a multiple of the alignment.
pub open spec fn padded_size(size: int, align: int) -> int {
    (size + align - 1) / align * align
}

/// The buddy order of the smallest block of pages that holds `size` bytes aligned to `align`.
pub open spec fn block_order(size: int, align: int) -> nat {
    choose|o: nat| #[trigger] is_ceil_log2((padded_size(size, align) + PAGE_SIZE - 1) / PAGE_SIZE as int, o)
}

/// Round `size` up to a multiple of `align`.
fn pad_to_align(size: usize, align: usize) -> (r: usize)
    requires
        align != 0,
        size + align - 1 <= usize::MAX,
    ensures
        r == padded_size(size as int, align as int),
        size <= r,
{
    let q = (size + (align - 1)) / align;
    assert(size <= q * align <= size + align - 1) by (nonlinear_arith)
        requires
            q == (size + align - 1) / (align as int),
            align > 0,
    ;
    q * align
}

/// The buddy order that holds `padded` bytes is a valid order.
proof fn lemma_order_fits(padded: usize, order: u8)
    requires
        padded > 0,
        is_ceil_log2((padded as int + PAGE_SIZE - 1) / PAGE_SIZE as int, order as nat),
    ensures
        order < 64,
{
    lemma2_to64();
    lemma2_to64_rest();
    if order >= 64 {
        lemma_pow2_mono(63, (order - 1) as nat);
        assert(padded as int <= 0xffff_ffff_ffff_ffff);
        assert((padded as int + PAGE_SIZE - 1) / PAGE_SIZE as int <= 0x10_0000_0000_0000);
        assert(pow2(63) == 0x8000_0000_0000_0000);
    }
}

/// Allocator of whole blocks of pages, seen through the direct map of physical memory.
pub struct HhdmAlloc;

impl HhdmAlloc {
    /// Allocate the smallest block of pages that holds `size` bytes aligned to `align`, and
    /// return where the direct map at `hhdm` shows it.
    pub fn allocate(&self, size: usize, align: usize, pmm: &mut PhysAllocator, hhdm: usize) -> (r: EResult<usize>)
        requires
            old(pmm).wf(),
            size != 0,
            align != 0,
            size + align - 1 <= usize::MAX,
            hhdm + old(pmm).range_end() * PAGE_SIZE <= usize::MAX,
        ensures
            final(pmm).wf(),
            final(pmm).range_start() == old(pmm).range_start(),
            final(pmm).range_end() == old(pmm).range_end(),
            final(pmm).free_set().subset_of(old(pmm).free_set()),
            forall|p: int| #[trigger] final(pmm).usage_of(p) != old(pmm).usage_of(p) ==> old(pmm).free_set().contains(p),
            ({
                let order = block_order(size as int, align as int);
                &&& r is Err <==> lowest_from(old(pmm).free_blocks(), order as int) == 64
                &&& r is Err ==> r == Err::<usize, Errno>(Errno::ENOMEM)
                &&& r matches Ok(v) ==> v >= hhdm && block_set((v - hhdm) / PAGE_SIZE as int, order).subset_of(old(pmm).free_set())
                    && (v - hhdm) % PAGE_SIZE as int == 0
                    && final(pmm).free_set() == old(pmm).free_set().difference(block_set((v - hhdm) / PAGE_SIZE as int, order))
            }),
    {
        let padded = pad_to_align(size, align);
        let order = size_to_order(padded);
        proof {
            lemma_order_fits(padded, order);
            let o = block_order(size as int, align as int);
            crate::mem::pmm::lemma_ceil_log2_unique((padded as int + PAGE_SIZE - 1) / PAGE_SIZE as int, o, order as nat);
        }
        let ghost pm0 = *pmm;
        match pmm.page_alloc(order, PageUsage::KernelAnon) {
            Ok(paddr) => {
                proof {
                    let ppn = paddr as int / PAGE_SIZE as int;
                    assert(block_set(ppn, order as nat).contains(ppn)) by {
                        vstd::arithmetic::power2::lemma_pow2_pos(order as nat);
                    }
                    lemma_free_in_range(pm0, ppn);
                    assert((ppn * 4096) % 4096 == 0 && (ppn * 4096) / 4096 == ppn) by (nonlinear_arith)
                        requires
                            ppn >= 0,
                    ;
                }
                Ok(paddr + hhdm)
            },
            Err(e) => Err(e),
        }
    }

    /// Give back the block of pages at `ptr`, as the direct map at `hhdm` shows it, that was
    /// allocated for `size` bytes aligned to `align`.
    pub fn deallocate(&self, ptr: usize, size: usize, align: usize, pmm: &mut PhysAllocator, hhdm: usize)
        requires
            old(pmm).wf(),
            size != 0,
            align != 0,
            size + align - 1 <= usize::MAX,
            ptr >= hhdm,
            (ptr - hhdm) % PAGE_SIZE as int == 0,
            ({
                let ppn = (ptr - hhdm) / PAGE_SIZE as int;
                let order = block_order(size as int, align as int);
                &&& ppn % pow2(order) as int == 0
                &&& old(pmm).range_start() <= ppn
                &&& ppn + pow2(order) <= old(pmm).range_end()
                &&& forall|p: int| block_set(ppn, order).contains(p) ==> #[trigger] old(pmm).usage_of(p) != PageUsage::Free
                &&& old(pmm).usage_of(ppn) != PageUsage::KernelSegment
            }),
        ensures
            final(pmm).wf(),
            final(pmm).range_start() == old(pmm).range_start(),
            final(pmm).range_end() == old(pmm).range_end(),
            final(pmm).free_set() == old(pmm).free_set().union(
                block_set((ptr - hhdm) / PAGE_SIZE as int, block_order(size as int, align as int)),
            ),
            forall|p: int| #[trigger] final(pmm).usage_of(p) != old(pmm).usage_of(p) ==> block_set(
                (ptr - hhdm) / PAGE_SIZE as int,
                block_order(size as int, align as int),
            ).contains(p),
    {
        let padded = pad_to_align(size, align);
        let order = size_to_order(padded);
        proof {
            lemma_order_fits(padded, order);
            let o = block_order(size as int, align as int);
            crate::mem::pmm::lemma_ceil_log2_unique((padded as int + PAGE_SIZE - 1) / PAGE_SIZE as int, o, order as nat);
        }
        pmm.page_free(ptr - hhdm, order);
    }
}

/// Slot sizes that a slab block can be cut into: powers of two from a pointer's size up to the
/// whole block.
pub open spec fn slab_size_ok(s: usize) -> bool {
    s == 8 || s == 16 || s == 32 || s == 64 || s == 128 || s == 256 || s == 512 || s == 1024 || s == 2048
        || s == 4096 || s == 8192 || s == 16384
}

/// Slots of `s` bytes that the block header takes.
pub open spec fn overhead(s: int) -> int {
    (SLAB_HEADER_SIZE + s - 1) / s
}

/// Slots of `s` bytes that a block has after its header.
pub open spec fn capacity_of(s: int) -> int {
    BLOCK_SIZE as int / s - overhead(s)
}

proof fn lemma_slab_size(s: usize)
    requires
        slab_size_ok(s),
    ensures
        0 <= overhead(s as int),
        0 <= capacity_of(s as int),
        (overhead(s as int) + capacity_of(s as int)) * s == BLOCK_SIZE,
        overhead(s as int) * s >= SLAB_HEADER_SIZE,
{
}

/// Slot `i` of `s` bytes lies inside the block after the header, and different slots start at
/// different addresses.
proof fn lemma_slot_offset(s: usize, i: int, j: int)
    requires
        slab_size_ok(s),
        0 <= i < capacity_of(s as int),
        0 <= j < capacity_of(s as int),
    ensures
        SLAB_HEADER_SIZE <= (overhead(s as int) + i) * s,
        (overhead(s as int) + i) * s + s <= BLOCK_SIZE,
        i != j ==> (overhead(s as int) + i) * s != (overhead(s as int) + j) * s,
{
    lemma_slab_size(s);
    let o = overhead(s as int);
    let c = capacity_of(s as int);
    assert((o + i) * s >= o * s && (o + i) * s + s <= (o + c) * s) by (nonlinear_arith)
        requires
            0 <= i < c,
            s > 0,
            o >= 0,
    ;
    if i != j {
        assert((o + i) * s != (o + j) * s) by (nonlinear_arith)
            requires
                i != j,
                s > 0,
        ;
    }
}

/// Address of slot `i` of the block at `base` cut into slots of `s` bytes.
pub open spec fn slot_at(base: usize, s: usize, i: int) -> int {
    base + (overhead(s as int) + i) * s
}

/// A block of slab slots, its free slots in a list whose head is handed out first.
pub struct SlabBlock {
    base: usize,
    slab_size: usize,
    capacity: usize,
    occupancy: usize,
    /// The free slots; the last one is the head of the list.
    free: Vec<usize>,
}

impl SlabBlock {
    /// Address of the block.
    pub closed spec fn spec_base(&self) -> usize {
        self.base
    }

    /// Size of its slots.
    pub closed spec fn spec_slab_size(&self) -> usize {
        self.slab_size
    }

    /// How many slots it has.
    pub closed spec fn spec_capacity(&self) -> usize {
        self.capacity
    }

    /// How many slots are in use.
    pub closed spec fn spec_occupancy(&self) -> usize {
        self.occupancy
    }

    /// The free slots, the one handed out next last.
    pub closed spec fn free_list(&self) -> Seq<usize> {
        self.free@
    }

    /// Address of slot `i`.
    pub open spec fn slot(&self, i: int) -> int {
        slot_at(self.spec_base(), self.spec_slab_size(), i)
    }

    /// `a` is the address of one of the block's slots.
    pub open spec fn is_slot(&self, a: usize) -> bool {
        exists|i: int| 0 <= i < self.spec_capacity() && a == self.slot(i)
    }

    /// The slots in use.
    pub open spec fn used(&self) -> Set<usize> {
        Set::new(|a: usize| self.is_slot(a) && !self.free_list().contains(a))
    }

    /// The block's invariant.
    pub open spec fn wf(&self) -> bool {
        &&& slab_size_ok(self.spec_slab_size())
        &&& self.spec_base() + BLOCK_SIZE <= usize::MAX
        &&& self.spec_capacity() == capacity_of(self.spec_slab_size() as int)
        &&& self.free_list().len() + self.spec_occupancy() == self.spec_capacity()
        &&& self.free_list().no_duplicates()
        &&& forall|k: int| 0 <= k < self.free_list().len() ==> self.is_slot(#[trigger] self.free_list()[k])
        &&& self.used().finite()
        &&& self.used().len() == self.spec_occupancy()
    }

    /// Cut the block at `base` into slots of `slab_size` bytes after its header, all of them free
    /// and the lowest handed out first.
    pub fn new(base: usize, slab_size: usize) -> (r: Self)
        requires
            slab_size_ok(slab_size),
            base + BLOCK_SIZE <= usize::MAX,
        ensures
            r.wf(),
            r.spec_base() == base,
            r.spec_slab_size() == slab_size,
            r.spec_occupancy() == 0,
            r.used() == Set::<usize>::empty(),
            r.free_list() == Seq::new(r.spec_capacity() as nat, |k: int| slot_at(base, slab_size, r.spec_capacity() - 1 - k) as usize),
    {
        proof {
            lemma_slab_size(slab_size);
        }
        let head_slots = (SLAB_HEADER_SIZE + slab_size - 1) / slab_size;
        let capacity = BLOCK_SIZE / slab_size - head_slots;
        let mut free: Vec<usize> = Vec::new();
        let mut i: usize = capacity;
        while i > 0
            invariant
                slab_size_ok(slab_size),
                base + BLOCK_SIZE <= usize::MAX,
                head_slots == overhead(slab_size as int),
                capacity == capacity_of(slab_size as int),
                i <= capacity,
                free@ == Seq::new((capacity - i) as nat, |k: int| slot_at(base, slab_size, capacity - 1 - k) as usize),
            decreases i,
        {
            i = i - 1;
            proof {
                lemma_slot_offset(slab_size, i as int, i as int);
            }
            let a = base + (head_slots + i) * slab_size;
            let ghost f0 = free@;
            free.push(a);
            proof {
                assert(free@ =~= Seq::new((capacity - i) as nat, |k: int| slot_at(base, slab_size, capacity - 1 - k) as usize));
            }
        }
        let r = SlabBlock { base, slab_size, capacity, occupancy: 0, free };
        proof {
            assert forall|k: int| 0 <= k < r.free_list().len() implies r.is_slot(#[trigger] r.free_list()[k]) by {
                lemma_slot_offset(slab_size, capacity - 1 - k, capacity - 1 - k);
                assert(r.free_list()[k] == r.slot(capacity - 1 - k));
            }
            assert forall|k1: int, k2: int| 0 <= k1 < r.free_list().len() && 0 <= k2 < r.free_list().len() && k1 != k2
                implies r.free_list()[k1] != r.free_list()[k2] by {
                lemma_slot_offset(slab_size, capacity - 1 - k1, capacity - 1 - k2);
                lemma_slot_offset(slab_size, capacity - 1 - k2, capacity - 1 - k1);
                assert(r.free_list()[k1] == slot_at(base, slab_size, capacity - 1 - k1) as usize);
                assert(r.free_list()[k2] == slot_at(base, slab_size, capacity - 1 - k2) as usize);
            }
            assert forall|a: usize| !r.used().contains(a) by {
                if r.is_slot(a) {
                    let j = choose|j: int| 0 <= j < r.spec_capacity() && a == r.slot(j);
                    lemma_slot_offset(slab_size, j, j);
                    assert(r.free_list()[capacity - 1 - j] == a);
                }
            }
            assert(r.used() =~= Set::<usize>::empty());
        }
        r
    }

    /// Take the head of the free list.
    pub fn alloc_slot(&mut self) -> (r: usize)
        requires
            old(self).wf(),
            old(self).spec_occupancy() < old(self).spec_capacity(),
        ensures
            final(self).wf(),
            r == old(self).free_list().last(),
            final(self).free_list() == old(self).free_list().drop_last(),
            final(self).spec_occupancy() == old(self).spec_occupancy() + 1,
            final(self).spec_base() == old(self).spec_base(),
            final(self).spec_slab_size() == old(self).spec_slab_size(),
            final(self).spec_capacity() == old(self).spec_capacity(),
            old(self).is_slot(r),
            !old(self).used().contains(r),
            final(self).used() == old(self).used().insert(r),
    {
        let r = self.free.pop().unwrap();
        self.occupancy = self.occupancy + 1;
        proof {
            let f0 = old(self).free_list();
            assert forall|x: usize| self.is_slot(x) == old(self).is_slot(x) by {
                if self.is_slot(x) {
                    let i = choose|i: int| 0 <= i < self.spec_capacity() && x == self.slot(i);
                    assert(x == old(self).slot(i));
                }
                if old(self).is_slot(x) {
                    let i = choose|i: int| 0 <= i < old(self).spec_capacity() && x == old(self).slot(i);
                    assert(x == self.slot(i));
                }
            }
            assert(f0.last() == r);
            assert(self.free_list() =~= f0.drop_last());
            assert(old(self).is_slot(r));
            assert forall|a: usize| #[trigger] self.used().contains(a) == old(self).used().insert(r).contains(a) by {
                if a == r {
                    assert(!self.free_list().contains(r)) by {
                        if self.free_list().contains(r) {
                            let k = choose|k: int| 0 <= k < self.free_list().len() && self.free_list()[k] == r;
                            assert(f0[k] == f0[f0.len() - 1]);
                        }
                    }
                } else {
                    assert(self.free_list().contains(a) == f0.contains(a)) by {
                        if f0.contains(a) {
                            let k = choose|k: int| 0 <= k < f0.len() && f0[k] == a;
                            assert(k != f0.len() - 1);
                            assert(self.free_list()[k] == a);
                        }
                    }
                }
            }
            assert(self.used() =~= old(self).used().insert(r));
            assert(forall|k: int| 0 <= k < self.free_list().len() ==> self.free_list()[k] == f0[k]);
        }
        r
    }

    /// Put slot `a`, which is in use, back at the head of the free list.
    pub fn free_slot(&mut self, a: usize)
        requires
            old(self).wf(),
            old(self).used().contains(a),
        ensures
            final(self).wf(),
            final(self).free_list() == old(self).free_list().push(a),
            final(self).spec_occupancy() == old(self).spec_occupancy() - 1,
            final(self).spec_base() == old(self).spec_base(),
            final(self).spec_slab_size() == old(self).spec_slab_size(),
            final(self).spec_capacity() == old(self).spec_capacity(),
            final(self).used() == old(self).used().remove(a),
    {
        proof {
            assert(self.used().remove(a).len() == self.used().len() - 1);
        }
        self.free.push(a);
        self.occupancy = self.occupancy - 1;
        proof {
            let f0 = old(self).free_list();
            assert forall|x: usize| self.is_slot(x) == old(self).is_slot(x) by {
                if self.is_slot(x) {
                    let i = choose|i: int| 0 <= i < self.spec_capacity() && x == self.slot(i);
                    assert(x == old(self).slot(i));
                }
                if old(self).is_slot(x) {
                    let i = choose|i: int| 0 <= i < old(self).spec_capacity() && x == old(self).slot(i);
                    assert(x == self.slot(i));
                }
            }
            assert forall|x: usize| #[trigger] self.used().contains(x) == old(self).used().remove(a).contains(x) by {
                assert(self.free_list().contains(x) == (f0.contains(x) || x == a)) by {
                    if f0.contains(x) {
                        let k = choose|k: int| 0 <= k < f0.len() && f0[k] == x;
                        assert(self.free_list()[k] == x);
                    }
                    if x == a {
                        assert(self.free_list()[f0.len() as int] == a);
                    }
                    if self.free_list().contains(x) {
                        let k = choose|k: int| 0 <= k < self.free_list().len() && self.free_list()[k] == x;
                        if k < f0.len() {
                            assert(f0[k] == x);
                        }
                    }
                }
            }
            assert(self.used() =~= old(self).used().remove(a));
            assert forall|k1: int, k2: int| 0 <= k1 < self.free_list().len() && 0 <= k2 < self.free_list().len() && k1 != k2
                implies self.free_list()[k1] != self.free_list()[k2] by {
                if k1 == f0.len() && k2 < f0.len() {
                    assert(f0.contains(f0[k2]));
                } else if k2 == f0.len() && k1 < f0.len() {
                    assert(f0.contains(f0[k1]));
                }
            }
            assert forall|k: int| 0 <= k < self.free_list().len() implies self.is_slot(#[trigger] self.free_list()[k]) by {
                if k < f0.len() {
                    assert(self.free_list()[k] == f0[k]);
                }
            }
        }
    }
}

/// Block addresses are totally ordered, as the pool's map needs.
spec fn base_order_ok() -> bool {
    vstd::laws_cmp::obeys_cmp::<usize>()
}

proof fn lemma_base_order()
    ensures
        base_order_ok(),
{
}

/// The pages of the block at `base` are the allocator's, in use by the kernel, with the direct
/// map of physical memory at `hhdm`.
pub open spec fn block_owned(base: usize, pmm: PhysAllocator, hhdm: usize) -> bool {
    let paddr = base - hhdm;
    let ppn = paddr / PAGE_SIZE as int;
    &&& base >= hhdm
    &&& paddr % PAGE_SIZE as int == 0
    &&& ppn % 4 == 0
    &&& pmm.range_start() <= ppn
    &&& ppn + 4 <= pmm.range_end()
    &&& forall|p: int| ppn <= p < ppn + 4 ==> #[trigger] pmm.usage_of(p) == PageUsage::KernelAnon
}

/// `s` without duplicates, with its element at `i` removed.
proof fn lemma_remove_nodup(s: Seq<usize>, i: int)
    requires
        s.no_duplicates(),
        0 <= i < s.len(),
    ensures
        s.remove(i).no_duplicates(),
        forall|x: usize| #[trigger] s.remove(i).contains(x) <==> (s.contains(x) && x != s[i]),
{
    let r = s.remove(i);
    assert forall|x: usize| #[trigger] r.contains(x) <==> (s.contains(x) && x != s[i]) by {
        if r.contains(x) {
            let j = choose|j: int| 0 <= j < r.len() && r[j] == x;
            if j < i {
                assert(s[j] == x);
            } else {
                assert(s[j + 1] == x);
            }
        }
        if s.contains(x) && x != s[i] {
            let j = choose|j: int| 0 <= j < s.len() && s[j] == x;
            if j < i {
                assert(r[j] == x);
            } else {
                assert(j != i);
                assert(r[j - 1] == x);
            }
        }
    }
}

/// `s` without duplicates, with `x` appended where it was not yet.
proof fn lemma_push_nodup(s: Seq<usize>, x: usize)
    requires
        s.no_duplicates(),
        !s.contains(x),
    ensures
        s.push(x).no_duplicates(),
        forall|y: usize| #[trigger] s.push(y).contains(y),
        forall|y: usize| #[trigger] s.push(x).contains(y) <==> (s.contains(y) || y == x),
{
    assert forall|y: usize| #[trigger] s.push(x).contains(y) <==> (s.contains(y) || y == x) by {
        if s.contains(y) {
            let j = choose|j: int| 0 <= j < s.len() && s[j] == y;
            assert(s.push(x)[j] == y);
        }
        if y == x {
            assert(s.push(x)[s.len() as int] == y);
        }
    }
    assert forall|y: usize| #[trigger] s.push(y).contains(y) by {
        assert(s.push(y)[s.len() as int] == y);
    }
}

/// A slot of a block lies inside the block.
proof fn lemma_slot_in_block(b: SlabBlock, a: usize)
    requires
        b.wf(),
        b.is_slot(a),
    ensures
        b.spec_base() < a < b.spec_base() + BLOCK_SIZE,
{
    let i = choose|i: int| 0 <= i < b.spec_capacity() && a == b.slot(i);
    lemma_slot_offset(b.spec_slab_size(), i, i);
}

/// Index of `k` in `v`.
fn position(v: &Vec<usize>, k: usize) -> (r: usize)
    requires
        v@.contains(k),
    ensures
        r < v@.len(),
        v@[r as int] == k,
{
    let mut i: usize = 0;
    while i < v.len() && v[i] != k
        invariant
            i <= v@.len(),
            v@.contains(k),
            forall|j: int| 0 <= j < i ==> v@[j] != k,
        decreases v@.len() - i,
    {
        i = i + 1;
    }
    if i == v.len() {
        proof {
            let j = choose|j: int| 0 <= j < v@.len() && v@[j] == k;
        }
    }
    i
}

/// Slab blocks of one slot size: those with free and used slots, those that are full, and at
/// most one that is empty, kept for the next allocation.
pub struct SlabPool {
    slab_size: usize,
    blocks: BTreeMap<usize, SlabBlock>,
    empty: Option<usize>,
    partial: Vec<usize>,
    full: Vec<usize>,
}

impl SlabPool {
    /// Size of the pool's slots.
    pub closed spec fn spec_slab_size(&self) -> usize {
        self.slab_size
    }

    /// Addresses of the pool's blocks.
    pub closed spec fn block_bases(&self) -> Set<usize> {
        self.blocks@.dom()
    }

    /// The slots in use.
    pub closed spec fn used(&self) -> Set<usize> {
        Set::new(|a: usize| exists|k: usize| #[trigger] self.blocks@.contains_key(k) && self.blocks@[k].used().contains(a))
    }

    /// The pool's invariant.
    pub closed spec fn wf(&self) -> bool {
        &&& slab_size_ok(self.slab_size)
        &&& self.slab_size <= LARGEST
        &&& forall|k: usize| #[trigger] self.blocks@.contains_key(k) ==> {
            let b = self.blocks@[k];
            &&& b.wf()
            &&& b.spec_base() == k
            &&& b.spec_slab_size() == self.slab_size
            &&& (self.partial@.contains(k) <==> 0 < b.spec_occupancy() < b.spec_capacity())
            &&& (self.full@.contains(k) <==> b.spec_occupancy() == b.spec_capacity())
            &&& (self.empty == Some(k) <==> b.spec_occupancy() == 0)
        }
        &&& forall|k1: usize, k2: usize|
            #[trigger] self.blocks@.contains_key(k1) && #[trigger] self.blocks@.contains_key(k2) && k1 != k2
                ==> k1 + BLOCK_SIZE <= k2 || k2 + BLOCK_SIZE <= k1
        &&& self.partial@.no_duplicates()
        &&& self.full@.no_duplicates()
        &&& forall|i: int| 0 <= i < self.partial@.len() ==> self.blocks@.contains_key(#[trigger] self.partial@[i])
        &&& forall|i: int| 0 <= i < self.full@.len() ==> self.blocks@.contains_key(#[trigger] self.full@[i])
        &&& self.empty matches Some(k) ==> self.blocks@.contains_key(k)
        &&& base_order_ok()
    }

    /// The pool's blocks are pages of `pmm` that the kernel uses, seen through the direct map at
    /// `hhdm`.
    pub open spec fn owned(&self, pmm: PhysAllocator, hhdm: usize) -> bool {
        forall|k: usize| #[trigger] self.block_bases().contains(k) ==> block_owned(k, pmm, hhdm)
    }

    /// What taking a slot from block `k` of `p0` does to the pool, when the lists are kept in
    /// step with the block's new occupancy.
    proof fn lemma_alloc_step(&self, p0: SlabPool, k: usize, a: usize)
        requires
            p0.wf(),
            p0.blocks@.contains_key(k),
            self.slab_size == p0.slab_size,
            self.blocks@.dom() == p0.blocks@.dom(),
            forall|j: usize| j != k ==> self.blocks@[j] == p0.blocks@[j],
            ({
                let b0 = p0.blocks@[k];
                let b1 = self.blocks@[k];
                &&& b1.wf()
                &&& b1.spec_base() == b0.spec_base()
                &&& b1.spec_slab_size() == b0.spec_slab_size()
                &&& b1.spec_capacity() == b0.spec_capacity()
                &&& b1.spec_occupancy() == b0.spec_occupancy() + 1
                &&& b0.is_slot(a)
                &&& !b0.used().contains(a)
                &&& b1.used() == b0.used().insert(a)
            }),
            self.partial@.no_duplicates(),
            self.full@.no_duplicates(),
            forall|j: usize| #[trigger] self.partial@.contains(j) <==> if j == k {
                0 < self.blocks@[k].spec_occupancy() < self.blocks@[k].spec_capacity()
            } else {
                p0.partial@.contains(j)
            },
            forall|j: usize| #[trigger] self.full@.contains(j) <==> if j == k {
                self.blocks@[k].spec_occupancy() == self.blocks@[k].spec_capacity()
            } else {
                p0.full@.contains(j)
            },
            self.empty == (if p0.empty == Some(k) { None } else { p0.empty }),
        ensures
            self.wf(),
            self.block_bases() == p0.block_bases(),
            !p0.used().contains(a),
            self.used() == p0.used().insert(a),
    {
        let b0 = p0.blocks@[k];
        lemma_slot_in_block(b0, a);
        assert forall|j: usize| #[trigger] self.blocks@.contains_key(j) implies {
            let b = self.blocks@[j];
            &&& b.wf()
            &&& b.spec_base() == j
            &&& b.spec_slab_size() == self.slab_size
            &&& (self.partial@.contains(j) <==> 0 < b.spec_occupancy() < b.spec_capacity())
            &&& (self.full@.contains(j) <==> b.spec_occupancy() == b.spec_capacity())
            &&& (self.empty == Some(j) <==> b.spec_occupancy() == 0)
        } by {
            assert(p0.blocks@.contains_key(j));
        }
        assert forall|i: int| 0 <= i < self.partial@.len() implies self.blocks@.contains_key(#[trigger] self.partial@[i]) by {
            assert(self.partial@.contains(self.partial@[i]));
            if self.partial@[i] != k {
                let q = self.partial@[i];
                assert(p0.partial@.contains(q));
                let i0 = choose|i0: int| 0 <= i0 < p0.partial@.len() && p0.partial@[i0] == q;
                assert(p0.blocks@.contains_key(p0.partial@[i0]));
            }
        }
        assert forall|i: int| 0 <= i < self.full@.len() implies self.blocks@.contains_key(#[trigger] self.full@[i]) by {
            assert(self.full@.contains(self.full@[i]));
            if self.full@[i] != k {
                let q = self.full@[i];
                assert(p0.full@.contains(q));
                let i0 = choose|i0: int| 0 <= i0 < p0.full@.len() && p0.full@[i0] == q;
                assert(p0.blocks@.contains_key(p0.full@[i0]));
            }
        }
        assert(!p0.used().contains(a)) by {
            if p0.used().contains(a) {
                let j = choose|j: usize| #[trigger] p0.blocks@.contains_key(j) && p0.blocks@[j].used().contains(a);
                if j != k {
                    lemma_slot_in_block(p0.blocks@[j], a);
                }
            }
        }
        assert forall|x: usize| #[trigger] self.used().contains(x) == p0.used().insert(a).contains(x) by {
            if self.used().contains(x) {
                let j = choose|j: usize| #[trigger] self.blocks@.contains_key(j) && self.blocks@[j].used().contains(x);
                if x != a {
                    assert(p0.blocks@.contains_key(j) && p0.blocks@[j].used().contains(x));
                }
            }
            if p0.used().contains(x) {
                let j = choose|j: usize| #[trigger] p0.blocks@.contains_key(j) && p0.blocks@[j].used().contains(x);
                assert(self.blocks@.contains_key(j) && self.blocks@[j].used().contains(x));
            }
            if x == a {
                assert(self.blocks@.contains_key(k) && self.blocks@[k].used().contains(a));
            }
        }
        assert(self.used() =~= p0.used().insert(a));
        assert(self.block_bases() =~= p0.block_bases());
    }

    /// A block made of pages that were free lies apart from every block of the pool.
    proof fn lemma_new_block_apart(&self, pm0: PhysAllocator, hhdm: usize, ppn: int, base: usize)
        requires
            self.wf(),
            pm0.wf(),
            self.owned(pm0, hhdm),
            ppn >= 0,
            block_set(ppn, 2).subset_of(pm0.free_set()),
            base == ppn * PAGE_SIZE + hhdm,
        ensures
            forall|k: usize| #[trigger] self.blocks@.contains_key(k) ==> k + BLOCK_SIZE <= base || base + BLOCK_SIZE <= k,
            !self.blocks@.contains_key(base),
    {
        lemma2_to64();
        assert forall|k: usize| #[trigger] self.blocks@.contains_key(k) implies k + BLOCK_SIZE <= base || base + BLOCK_SIZE <= k by {
            assert(self.block_bases().contains(k));
            assert(block_owned(k, pm0, hhdm));
            let kp = (k - hhdm) / PAGE_SIZE as int;
            assert(k - hhdm == kp * PAGE_SIZE);
            if !(kp + 4 <= ppn || ppn + 4 <= kp) {
                let p = if kp <= ppn { ppn } else { kp };
                assert(block_set(ppn, 2).contains(p));
                lemma_free_usage(pm0, p);
                assert(pm0.usage_of(p) == PageUsage::KernelAnon);
            }
        }
    }

    /// What adding a new block at `base` made of the pages from `ppn` on, with one slot `a`
    /// taken, does to the pool.
    proof fn lemma_new_block_step(
        &self,
        p0: SlabPool,
        pm0: PhysAllocator,
        pm1: PhysAllocator,
        hhdm: usize,
        ppn: int,
        base: usize,
        a: usize,
    )
        requires
            p0.wf(),
            pm0.wf(),
            pm1.wf(),
            p0.owned(pm0, hhdm),
            p0.partial@.len() == 0,
            p0.empty is None,
            pm1.range_start() == pm0.range_start(),
            pm1.range_end() == pm0.range_end(),
            0 <= ppn,
            pm0.range_start() <= ppn,
            ppn + 4 <= pm0.range_end(),
            ppn % 4 == 0,
            base == ppn * PAGE_SIZE + hhdm,
            forall|p: int| ppn <= p < ppn + 4 ==> #[trigger] pm1.usage_of(p) == PageUsage::KernelAnon,
            forall|p: int| !(ppn <= p < ppn + 4) ==> #[trigger] pm1.usage_of(p) == pm0.usage_of(p),
            forall|k: usize| #[trigger] p0.blocks@.contains_key(k) ==> k + BLOCK_SIZE <= base || base + BLOCK_SIZE <= k,
            !p0.blocks@.contains_key(base),
            self.slab_size == p0.slab_size,
            self.blocks@.dom() == p0.blocks@.dom().insert(base),
            forall|j: usize| j != base ==> self.blocks@[j] == p0.blocks@[j],
            ({
                let b = self.blocks@[base];
                &&& b.wf()
                &&& b.spec_base() == base
                &&& b.spec_slab_size() == self.slab_size
                &&& b.spec_occupancy() == 1
                &&& b.used() == Set::<usize>::empty().insert(a)
            }),
            self.empty is None,
            self.full == p0.full,
            self.partial@ == p0.partial@.push(base),
        ensures
            self.wf(),
            self.owned(pm1, hhdm),
            self.block_bases() == p0.block_bases().insert(base),
            !p0.used().contains(a),
            self.used() == p0.used().insert(a),
    {
        let b = self.blocks@[base];
        lemma_slab_size(self.slab_size);
        assert(b.used().contains(a));
        lemma_slot_in_block(b, a);
        assert(self.partial@ =~= seq![base]);
        assert forall|j: usize| #[trigger] self.partial@.contains(j) <==> j == base by {
            if self.partial@.contains(j) {
                let i = choose|i: int| 0 <= i < self.partial@.len() && self.partial@[i] == j;
            }
            if j == base {
                assert(self.partial@[0] == base);
            }
        }
        assert(!self.full@.contains(base)) by {
            if self.full@.contains(base) {
                let i = choose|i: int| 0 <= i < p0.full@.len() && p0.full@[i] == base;
                assert(p0.blocks@.contains_key(p0.full@[i]));
            }
        }
        assert forall|j: usize| #[trigger] self.blocks@.contains_key(j) implies {
            let bj = self.blocks@[j];
            &&& bj.wf()
            &&& bj.spec_base() == j
            &&& bj.spec_slab_size() == self.slab_size
            &&& (self.partial@.contains(j) <==> 0 < bj.spec_occupancy() < bj.spec_capacity())
            &&& (self.full@.contains(j) <==> bj.spec_occupancy() == bj.spec_capacity())
            &&& (self.empty == Some(j) <==> bj.spec_occupancy() == 0)
        } by {
            if j != base {
                assert(p0.blocks@.contains_key(j));
                assert(!p0.partial@.contains(j));
            }
        }
        assert forall|k1: usize, k2: usize|
            #[trigger] self.blocks@.contains_key(k1) && #[trigger] self.blocks@.contains_key(k2) && k1 != k2
                implies k1 + BLOCK_SIZE <= k2 || k2 + BLOCK_SIZE <= k1 by {
            if k1 != base && k2 != base {
                assert(p0.blocks@.contains_key(k1) && p0.blocks@.contains_key(k2));
            } else if k1 == base {
                assert(p0.blocks@.contains_key(k2));
            } else {
                assert(p0.blocks@.contains_key(k1));
            }
        }
        assert forall|i: int| 0 <= i < self.full@.len() implies self.blocks@.contains_key(#[trigger] self.full@[i]) by {
            assert(p0.blocks@.contains_key(p0.full@[i]));
        }
        assert forall|i: int| 0 <= i < self.partial@.len() implies self.blocks@.contains_key(#[trigger] self.partial@[i]) by {
        }
        lemma2_to64();
        assert forall|k: usize| #[trigger] self.block_bases().contains(k) implies block_owned(k, pm1, hhdm) by {
            if k != base {
                assert(p0.block_bases().contains(k));
                assert(block_owned(k, pm0, hhdm));
                let kp = (k - hhdm) / PAGE_SIZE as int;
                assert(k - hhdm == kp * PAGE_SIZE);
                assert forall|p: int| kp <= p < kp + 4 implies #[trigger] pm1.usage_of(p) == PageUsage::KernelAnon by {
                    if ppn <= p < ppn + 4 {
                    } else {
                        assert(pm0.usage_of(p) == PageUsage::KernelAnon);
                    }
                }
            } else {
                assert((ppn * 4096) % 4096 == 0 && (ppn * 4096) / 4096 == ppn) by (nonlinear_arith)
                    requires
                        ppn >= 0,
                ;
                assert((base - hhdm) / PAGE_SIZE as int == ppn);
            }
        }
        assert(!p0.used().contains(a)) by {
            if p0.used().contains(a) {
                let j = choose|j: usize| #[trigger] p0.blocks@.contains_key(j) && p0.blocks@[j].used().contains(a);
                lemma_slot_in_block(p0.blocks@[j], a);
            }
        }
        assert forall|x: usize| #[trigger] self.used().contains(x) == p0.used().insert(a).contains(x) by {
            if self.used().contains(x) {
                let j = choose|j: usize| #[trigger] self.blocks@.contains_key(j) && self.blocks@[j].used().contains(x);
                if j != base {
                    assert(p0.blocks@.contains_key(j) && p0.blocks@[j].used().contains(x));
                }
            }
            if p0.used().contains(x) {
                let j = choose|j: usize| #[trigger] p0.blocks@.contains_key(j) && p0.blocks@[j].used().contains(x);
                assert(self.blocks@.contains_key(j) && self.blocks@[j].used().contains(x));
            }
            if x == a {
                assert(self.blocks@.contains_key(base) && self.blocks@[base].used().contains(a));
            }
        }
        assert(self.used() =~= p0.used().insert(a));
        assert(self.block_bases() =~= p0.block_bases().insert(base));
    }

    /// What putting slot `a` back into block `k` of `p0` does to the pool, when the block stays
    /// and the lists are kept in step with its new occupancy.
    proof fn lemma_free_step(&self, p0: SlabPool, k: usize, a: usize)
        requires
            p0.wf(),
            p0.blocks@.contains_key(k),
            self.slab_size == p0.slab_size,
            self.blocks@.dom() == p0.blocks@.dom(),
            forall|j: usize| j != k ==> self.blocks@[j] == p0.blocks@[j],
            ({
                let b0 = p0.blocks@[k];
                let b1 = self.blocks@[k];
                &&& b1.wf()
                &&& b1.spec_base() == b0.spec_base()
                &&& b1.spec_slab_size() == b0.spec_slab_size()
                &&& b1.spec_capacity() == b0.spec_capacity()
                &&& b1.spec_occupancy() == b0.spec_occupancy() - 1
                &&& b0.used().contains(a)
                &&& b1.used() == b0.used().remove(a)
            }),
            self.partial@.no_duplicates(),
            self.full@.no_duplicates(),
            forall|j: usize| #[trigger] self.partial@.contains(j) <==> if j == k {
                0 < self.blocks@[k].spec_occupancy() < self.blocks@[k].spec_capacity()
            } else {
                p0.partial@.contains(j)
            },
            forall|j: usize| #[trigger] self.full@.contains(j) <==> if j == k {
                self.blocks@[k].spec_occupancy() == self.blocks@[k].spec_capacity()
            } else {
                p0.full@.contains(j)
            },
            self.empty == (if self.blocks@[k].spec_occupancy() == 0 { Some(k) } else { p0.empty }),
            self.blocks@[k].spec_occupancy() == 0 ==> p0.empty is None,
        ensures
            self.wf(),
            self.block_bases() == p0.block_bases(),
            self.used() == p0.used().remove(a),
    {
        let b0 = p0.blocks@[k];
        lemma_slot_in_block(b0, a);
        assert forall|j: usize| #[trigger] self.blocks@.contains_key(j) implies {
            let b = self.blocks@[j];
            &&& b.wf()
            &&& b.spec_base() == j
            &&& b.spec_slab_size() == self.slab_size
            &&& (self.partial@.contains(j) <==> 0 < b.spec_occupancy() < b.spec_capacity())
            &&& (self.full@.contains(j) <==> b.spec_occupancy() == b.spec_capacity())
            &&& (self.empty == Some(j) <==> b.spec_occupancy() == 0)
        } by {
            assert(p0.blocks@.contains_key(j));
        }
        assert forall|i: int| 0 <= i < self.partial@.len() implies self.blocks@.contains_key(#[trigger] self.partial@[i]) by {
            assert(self.partial@.contains(self.partial@[i]));
            if self.partial@[i] != k {
                let q = self.partial@[i];
                assert(p0.partial@.contains(q));
                let i0 = choose|i0: int| 0 <= i0 < p0.partial@.len() && p0.partial@[i0] == q;
                assert(p0.blocks@.contains_key(p0.partial@[i0]));
            }
        }
        assert forall|i: int| 0 <= i < self.full@.len() implies self.blocks@.contains_key(#[trigger] self.full@[i]) by {
            assert(self.full@.contains(self.full@[i]));
            if self.full@[i] != k {
                let q = self.full@[i];
                assert(p0.full@.contains(q));
                let i0 = choose|i0: int| 0 <= i0 < p0.full@.len() && p0.full@[i0] == q;
                assert(p0.blocks@.contains_key(p0.full@[i0]));
            }
        }
        assert forall|x: usize| #[trigger] self.used().contains(x) == p0.used().remove(a).contains(x) by {
            if self.used().contains(x) {
                let j = choose|j: usize| #[trigger] self.blocks@.contains_key(j) && self.blocks@[j].used().contains(x);
                assert(p0.blocks@.contains_key(j) && p0.blocks@[j].used().contains(x));
                if x == a && j != k {
                    lemma_slot_in_block(p0.blocks@[j], a);
                }
            }
            if p0.used().contains(x) && x != a {
                let j = choose|j: usize| #[trigger] p0.blocks@.contains_key(j) && p0.blocks@[j].used().contains(x);
                assert(self.blocks@.contains_key(j) && self.blocks@[j].used().contains(x));
            }
        }
        assert(self.used() =~= p0.used().remove(a));
        assert(self.block_bases() =~= p0.block_bases());
    }

    /// The block whose slot `a` is in use is the one at `a` rounded down to a block.
    proof fn lemma_block_of(&self, pmm: PhysAllocator, hhdm: usize, a: usize) -> (k: usize)
        requires
            self.wf(),
            self.owned(pmm, hhdm),
            hhdm % BLOCK_SIZE == 0,
            self.used().contains(a),
        ensures
            k == a - a % BLOCK_SIZE,
            self.blocks@.contains_key(k),
            self.blocks@[k].used().contains(a),
    {
        let k = choose|k: usize| #[trigger] self.blocks@.contains_key(k) && self.blocks@[k].used().contains(a);
        lemma_slot_in_block(self.blocks@[k], a);
        assert(self.block_bases().contains(k));
        assert(block_owned(k, pmm, hhdm));
        let kp = (k - hhdm) / PAGE_SIZE as int;
        assert(k % BLOCK_SIZE == 0) by (nonlinear_arith)
            requires
                k - hhdm == kp * 4096 + (k - hhdm) % 4096,
                (k - hhdm) % 4096 == 0,
                kp % 4 == 0,
                hhdm % 16384 == 0,
                k >= hhdm,
                BLOCK_SIZE == 16384,
        ;
        assert(k == a - a % BLOCK_SIZE) by (nonlinear_arith)
            requires
                k % 16384 == 0,
                k < a < k + 16384,
                BLOCK_SIZE == 16384,
        ;
        k
    }

    /// What dropping block `k` of `p0`, left empty by putting back its last slot `a`, and giving
    /// its pages back to the allocator does to the pool.
    proof fn lemma_drop_step(&self, p0: SlabPool, pm0: PhysAllocator, pm1: PhysAllocator, hhdm: usize, k: usize, a: usize)
        requires
            p0.wf(),
            p0.owned(pm0, hhdm),
            p0.blocks@.contains_key(k),
            p0.blocks@[k].used() == Set::<usize>::empty().insert(a),
            0 < p0.blocks@[k].spec_occupancy() < p0.blocks@[k].spec_capacity(),
            self.slab_size == p0.slab_size,
            self.blocks@ == p0.blocks@.remove(k),
            self.full == p0.full,
            self.empty == p0.empty,
            p0.empty is Some,
            self.partial@.no_duplicates(),
            forall|j: usize| #[trigger] self.partial@.contains(j) <==> (p0.partial@.contains(j) && j != k),
            pm1.range_start() == pm0.range_start(),
            pm1.range_end() == pm0.range_end(),
            forall|p: int| #[trigger] pm1.usage_of(p) == if block_set((k - hhdm) / PAGE_SIZE as int, 2).contains(p) {
                PageUsage::Free
            } else {
                pm0.usage_of(p)
            },
        ensures
            self.wf(),
            self.owned(pm1, hhdm),
            self.block_bases() == p0.block_bases().remove(k),
            self.used() == p0.used().remove(a),
    {
        lemma2_to64();
        assert(p0.blocks@[k].used().contains(a));
        lemma_slot_in_block(p0.blocks@[k], a);
        assert forall|j: usize| #[trigger] self.blocks@.contains_key(j) implies {
            let b = self.blocks@[j];
            &&& b.wf()
            &&& b.spec_base() == j
            &&& b.spec_slab_size() == self.slab_size
            &&& (self.partial@.contains(j) <==> 0 < b.spec_occupancy() < b.spec_capacity())
            &&& (self.full@.contains(j) <==> b.spec_occupancy() == b.spec_capacity())
            &&& (self.empty == Some(j) <==> b.spec_occupancy() == 0)
        } by {
            assert(p0.blocks@.contains_key(j));
        }
        assert forall|i: int| 0 <= i < self.partial@.len() implies self.blocks@.contains_key(#[trigger] self.partial@[i]) by {
            let q = self.partial@[i];
            assert(self.partial@.contains(q));
            let i0 = choose|i0: int| 0 <= i0 < p0.partial@.len() && p0.partial@[i0] == q;
            assert(p0.blocks@.contains_key(p0.partial@[i0]));
        }
        assert forall|i: int| 0 <= i < self.full@.len() implies self.blocks@.contains_key(#[trigger] self.full@[i]) by {
            assert(p0.blocks@.contains_key(p0.full@[i]));
            assert(p0.full@.contains(p0.full@[i]));
        }
        assert forall|k1: usize, k2: usize|
            #[trigger] self.blocks@.contains_key(k1) && #[trigger] self.blocks@.contains_key(k2) && k1 != k2
                implies k1 + BLOCK_SIZE <= k2 || k2 + BLOCK_SIZE <= k1 by {
            assert(p0.blocks@.contains_key(k1) && p0.blocks@.contains_key(k2));
        }
        assert(self.empty matches Some(e) ==> self.blocks@.contains_key(e)) by {
            if let Some(e) = self.empty {
                assert(p0.blocks@.contains_key(e));
                assert(p0.blocks@[e].spec_occupancy() == 0);
            }
        }
        assert(block_owned(k, pm0, hhdm)) by {
            assert(p0.block_bases().contains(k));
        }
        let kp = (k - hhdm) / PAGE_SIZE as int;
        assert forall|j: usize| #[trigger] self.block_bases().contains(j) implies block_owned(j, pm1, hhdm) by {
            assert(p0.block_bases().contains(j));
            assert(block_owned(j, pm0, hhdm));
            let jp = (j - hhdm) / PAGE_SIZE as int;
            assert(j - hhdm == jp * PAGE_SIZE);
            assert(k - hhdm == kp * PAGE_SIZE);
            assert(jp + 4 <= kp || kp + 4 <= jp);
            assert forall|p: int| jp <= p < jp + 4 implies #[trigger] pm1.usage_of(p) == PageUsage::KernelAnon by {
                assert(!block_set(kp, 2).contains(p));
            }
        }
        assert forall|x: usize| #[trigger] self.used().contains(x) == p0.used().remove(a).contains(x) by {
            if self.used().contains(x) {
                let j = choose|j: usize| #[trigger] self.blocks@.contains_key(j) && self.blocks@[j].used().contains(x);
                assert(p0.blocks@.contains_key(j) && p0.blocks@[j].used().contains(x));
                if x == a {
                    lemma_slot_in_block(p0.blocks@[j], a);
                }
            }
            if p0.used().contains(x) && x != a {
                let j = choose|j: usize| #[trigger] p0.blocks@.contains_key(j) && p0.blocks@[j].used().contains(x);
                assert(j != k);
                assert(self.blocks@.contains_key(j) && self.blocks@[j].used().contains(x));
            }
        }
        assert(self.used() =~= p0.used().remove(a));
        assert(self.block_bases() =~= p0.block_bases().remove(k));
    }

    /// A slot in use lies inside one of the pool's blocks.
    pub proof fn lemma_used_in_block(&self, a: usize) -> (k: usize)
        requires
            self.wf(),
            self.used().contains(a),
        ensures
            self.block_bases().contains(k),
            k < a < k + BLOCK_SIZE,
    {
        let k = choose|k: usize| #[trigger] self.blocks@.contains_key(k) && self.blocks@[k].used().contains(a);
        lemma_slot_in_block(self.blocks@[k], a);
        k
    }

    /// Some block has a free slot.
    pub closed spec fn has_free_slot(&self) -> bool {
        self.partial@.len() > 0 || self.empty is Some
    }

    /// Allocate from the block at `k`, which has a free slot, and keep it in the map.
    fn take_from(&mut self, k: usize) -> (a: usize)
        requires
            old(self).blocks@.contains_key(k),
            old(self).blocks@[k].wf(),
            old(self).blocks@[k].spec_occupancy() < old(self).blocks@[k].spec_capacity(),
            base_order_ok(),
        ensures
            final(self).slab_size == old(self).slab_size,
            final(self).empty == old(self).empty,
            final(self).partial == old(self).partial,
            final(self).full == old(self).full,
            final(self).blocks@.dom() == old(self).blocks@.dom(),
            forall|j: usize| j != k ==> final(self).blocks@[j] == old(self).blocks@[j],
            ({
                let b0 = old(self).blocks@[k];
                let b1 = final(self).blocks@[k];
                &&& b1.wf()
                &&& b1.spec_base() == b0.spec_base()
                &&& b1.spec_slab_size() == b0.spec_slab_size()
                &&& b1.spec_capacity() == b0.spec_capacity()
                &&& b1.spec_occupancy() == b0.spec_occupancy() + 1
                &&& a == b0.free_list().last()
                &&& b0.is_slot(a)
                &&& !b0.used().contains(a)
                &&& b1.used() == b0.used().insert(a)
            }),
    {
        let mut b = self.blocks.remove(&k).unwrap();
        let a = b.alloc_slot();
        self.blocks.insert(k, b);
        proof {
            assert(self.blocks@.dom() =~= old(self).blocks@.dom());
        }
        a
    }

    /// Allocate one slot: from the first block that has both free and used slots, else from the
    /// kept empty block, else from a new block of pages taken from `pmm` and seen through the
    /// direct map at `hhdm`. Fails with `ENOMEM` only when a new block is needed and `pmm` has
    /// no free block of [`BUDDY_ORDER`].
    pub fn alloc_slot(&mut self, pmm: &mut PhysAllocator, hhdm: usize) -> (r: EResult<usize>)
        requires
            old(self).wf(),
            old(pmm).wf(),
            old(self).owned(*old(pmm), hhdm),
            hhdm + old(pmm).range_end() * PAGE_SIZE + BLOCK_SIZE <= usize::MAX,
        ensures
            final(self).wf(),
            final(pmm).wf(),
            final(self).owned(*final(pmm), hhdm),
            final(self).spec_slab_size() == old(self).spec_slab_size(),
            final(pmm).range_start() == old(pmm).range_start(),
            final(pmm).range_end() == old(pmm).range_end(),
            final(pmm).free_set().subset_of(old(pmm).free_set()),
            r is Err <==> !old(self).has_free_slot() && lowest_from(old(pmm).free_blocks(), BUDDY_ORDER as int) == 64,
            r is Err ==> r == Err::<usize, Errno>(Errno::ENOMEM) && final(self).used() == old(self).used(),
            r matches Ok(a) ==> !old(self).used().contains(a) && final(self).used() == old(self).used().insert(a),
            forall|p: int| #[trigger] final(pmm).usage_of(p) != old(pmm).usage_of(p) ==> old(pmm).free_set().contains(p),
            old(self).block_bases().subset_of(final(self).block_bases()),
            forall|k: usize| #[trigger] final(self).block_bases().contains(k) && !old(self).block_bases().contains(k)
                ==> block_set((k - hhdm) / PAGE_SIZE as int, 2).subset_of(old(pmm).free_set()),
    {
        proof {
            lemma_base_order();
        }
        if self.partial.len() > 0 {
            let k = self.partial[0];
            proof {
                assert(self.partial@.contains(k));
            }
            let ghost p0 = *self;
            let a = self.take_from(k);
            let now_full = match self.blocks.get(&k) {
                Some(b) => b.occupancy == b.capacity,
                None => false,
            };
            if now_full {
                proof {
                    lemma_remove_nodup(self.partial@, 0);
                    assert(!self.full@.contains(k));
                    lemma_push_nodup(self.full@, k);
                }
                self.partial.remove(0);
                self.full.push(k);
            }
            proof {
                self.lemma_alloc_step(p0, k, a);
            }
            Ok(a)
        } else if let Some(k) = self.empty {
            let ghost p0 = *self;
            self.empty = None;
            let a = self.take_from(k);
            proof {
                assert(!self.partial@.contains(k));
                lemma_push_nodup(self.partial@, k);
            }
            self.partial.push(k);
            proof {
                self.lemma_alloc_step(p0, k, a);
            }
            Ok(a)
        } else {
            let ghost pm0 = *pmm;
            let paddr = match pmm.page_alloc(BUDDY_ORDER, PageUsage::KernelAnon) {
                Ok(p) => p,
                Err(e) => {
                    return Err(e);
                },
            };
            let ghost ppn = paddr as int / PAGE_SIZE as int;
            proof {
                lemma_alloc_aligned(pm0, BUDDY_ORDER);
                lemma2_to64();
                assert(block_set(ppn, 2).contains(ppn));
                lemma_free_in_range(pm0, ppn);
                assert(block_set(ppn, 2).contains(ppn + 3));
                lemma_free_in_range(pm0, ppn + 3);
            }
            let base = paddr + hhdm;
            let ghost p0 = *self;
            let mut b = SlabBlock::new(base, self.slab_size);
            let a = b.alloc_slot();
            proof {
                self.lemma_new_block_apart(pm0, hhdm, ppn, base);
            }
            self.blocks.insert(base, b);
            proof {
                assert(!self.partial@.contains(base));
                lemma_push_nodup(self.partial@, base);
            }
            self.partial.push(base);
            proof {
                self.lemma_new_block_step(p0, pm0, *pmm, hhdm, ppn, base, a);
                assert((ppn * 4096) / 4096 == ppn) by (nonlinear_arith)
                    requires
                        ppn >= 0,
                ;
                assert((base - hhdm) / PAGE_SIZE as int == ppn);
            }
            Ok(a)
        }
    }

    /// Put slot `a`, which is in use, back into its block: a full block becomes one with free
    /// slots again, and a block left empty is kept as the pool's empty block, or, when the pool
    /// already keeps one, its pages go back to `pmm`.
    pub fn free_slot(&mut self, a: usize, pmm: &mut PhysAllocator, hhdm: usize)
        requires
            old(self).wf(),
            old(pmm).wf(),
            old(self).owned(*old(pmm), hhdm),
            hhdm % BLOCK_SIZE == 0,
            old(self).used().contains(a),
        ensures
            final(self).wf(),
            final(pmm).wf(),
            final(self).owned(*final(pmm), hhdm),
            final(self).spec_slab_size() == old(self).spec_slab_size(),
            final(pmm).range_start() == old(pmm).range_start(),
            final(pmm).range_end() == old(pmm).range_end(),
            final(self).used() == old(self).used().remove(a),
            final(self).block_bases().subset_of(old(self).block_bases()),
            forall|p: int| #[trigger] final(pmm).usage_of(p) != old(pmm).usage_of(p) ==> exists|k: usize|
                #[trigger] old(self).block_bases().contains(k) && block_set((k - hhdm) / PAGE_SIZE as int, 2).contains(p),
    {
        proof {
            lemma_base_order();
        }
        let ghost k0 = self.lemma_block_of(*pmm, hhdm, a);
        assert(a & !(16383usize) == a - a % 16384) by (bit_vector);
        let k = a & !(BLOCK_SIZE - 1);
        let ghost p0 = *self;
        let mut b = self.blocks.remove(&k).unwrap();
        let was_full = b.occupancy == b.capacity;
        b.free_slot(a);
        proof {
            lemma_slab_size(self.slab_size);
        }
        if was_full {
            self.blocks.insert(k, b);
            let i = position(&self.full, k);
            proof {
                lemma_remove_nodup(self.full@, i as int);
                assert(!self.partial@.contains(k));
                lemma_push_nodup(self.partial@, k);
            }
            self.full.remove(i);
            self.partial.push(k);
            proof {
                self.lemma_free_step(p0, k, a);
            }
        } else if b.occupancy == 0 {
            let i = position(&self.partial, k);
            proof {
                lemma_remove_nodup(self.partial@, i as int);
            }
            self.partial.remove(i);
            if self.empty.is_none() {
                self.blocks.insert(k, b);
                self.empty = Some(k);
                proof {
                    self.lemma_free_step(p0, k, a);
                }
            } else {
                let ghost pm0 = *pmm;
                proof {
                    assert(b.used().len() == 0);
                    b.used().lemma_len0_is_empty();
                    assert(p0.blocks@[k].used() =~= Set::<usize>::empty().insert(a));
                    assert(p0.block_bases().contains(k));
                    assert(block_owned(k, pm0, hhdm));
                    lemma2_to64();
                    let kp = (k - hhdm) / PAGE_SIZE as int;
                    assert(forall|p: int| block_set(kp, 2).contains(p) ==> kp <= p < kp + 4);
                    assert(block_set(kp, 2).contains(kp));
                    assert(pm0.usage_of(kp) == PageUsage::KernelAnon);
                    assert(((k - hhdm) / (PAGE_SIZE as int)) == kp);
                }
                pmm.page_free(k - hhdm, BUDDY_ORDER);
                proof {
                    self.lemma_drop_step(p0, pm0, *pmm, hhdm, k, a);
                    assert(p0.block_bases().contains(k));
                }
            }
        } else {
            self.blocks.insert(k, b);
            proof {
                self.lemma_free_step(p0, k, a);
            }
        }
    }

    /// An empty pool of slots of `slab_size` bytes.
    pub fn new(slab_size: usize) -> (r: Self)
        requires
            slab_size_ok(slab_size),
            slab_size <= LARGEST,
        ensures
            r.wf(),
            r.spec_slab_size() == slab_size,
            r.used() == Set::<usize>::empty(),
            r.block_bases() == Set::<usize>::empty(),
    {
        proof {
            lemma_base_order();
        }
        let r = SlabPool { slab_size, blocks: BTreeMap::new(), empty: None, partial: Vec::new(), full: Vec::new() };
        assert(r.used() =~= Set::<usize>::empty());
        assert(r.block_bases() =~= Set::<usize>::empty());
        r
    }
}

/// Pages of two blocks, one of them made of pages that were free and the other of pages the
/// kernel uses, lie apart.
proof fn lemma_blocks_apart(pmm: PhysAllocator, hhdm: usize, fresh: usize, owned: usize)
    requires
        pmm.wf(),
        fresh >= hhdm,
        (fresh - hhdm) % PAGE_SIZE as int == 0,
        block_set((fresh - hhdm) / PAGE_SIZE as int, 2).subset_of(pmm.free_set()),
        block_owned(owned, pmm, hhdm),
    ensures
        fresh + BLOCK_SIZE <= owned || owned + BLOCK_SIZE <= fresh,
{
    lemma2_to64();
    let fp = (fresh - hhdm) / PAGE_SIZE as int;
    let op = (owned - hhdm) / PAGE_SIZE as int;
    assert(fresh - hhdm == fp * PAGE_SIZE);
    assert(owned - hhdm == op * PAGE_SIZE);
    if !(fp + 4 <= op || op + 4 <= fp) {
        let p = if fp <= op { op } else { fp };
        assert(block_set(fp, 2).contains(p));
        lemma_free_usage(pmm, p);
        assert(pmm.usage_of(p) == PageUsage::KernelAnon);
    }
}

/// The slab pools of all sizes, the smallest first.
pub struct SlabsAlloc {
    pools: Vec<SlabPool>,
}

impl SlabsAlloc {
    /// The slots in use in pool `i`.
    pub closed spec fn used_in(&self, i: int) -> Set<usize> {
        self.pools@[i].used()
    }

    /// The slots in use in all pools.
    pub closed spec fn used(&self) -> Set<usize> {
        Set::new(|a: usize| exists|i: int| 0 <= i < self.pools@.len() && #[trigger] self.pools@[i].used().contains(a))
    }

    /// The pools' invariant: one pool per size, and no two blocks of different pools overlap.
    pub closed spec fn wf(&self) -> bool {
        &&& self.pools@.len() == SIZES
        &&& forall|i: int| 0 <= i < SIZES ==> (#[trigger] self.pools@[i]).wf() && self.pools@[i].spec_slab_size() == class_size(
            i as nat,
        )
        &&& forall|i: int, j: int, k1: usize, k2: usize|
            0 <= i < SIZES && 0 <= j < SIZES && i != j && #[trigger] self.pools@[i].block_bases().contains(k1)
                && #[trigger] self.pools@[j].block_bases().contains(k2) ==> k1 + BLOCK_SIZE <= k2 || k2 + BLOCK_SIZE <= k1
    }

    /// All pools' blocks are pages of `pmm` that the kernel uses, seen through the direct map at
    /// `hhdm`.
    pub closed spec fn owned(&self, pmm: PhysAllocator, hhdm: usize) -> bool {
        forall|i: int| 0 <= i < SIZES ==> (#[trigger] self.pools@[i]).owned(pmm, hhdm)
    }

    /// Whether pool `b` has a free slot in one of its blocks, so that it needs no new block.
    pub closed spec fn has_free_slot_in(&self, b: int) -> bool {
        self.pools@[b].has_free_slot()
    }

    /// Allocate a slot for `size` bytes aligned to `align` from the pool of the smallest size
    /// that holds them; `None` if no pool's slots are big enough or the pool needs a new block
    /// and `pmm` has none.
    pub fn allocate(&mut self, size: usize, align: usize, pmm: &mut PhysAllocator, hhdm: usize) -> (r: Option<usize>)
        requires
            old(self).wf(),
            old(pmm).wf(),
            old(self).owned(*old(pmm), hhdm),
            size != 0,
            align != 0,
            size + align - 1 <= usize::MAX,
            hhdm + old(pmm).range_end() * PAGE_SIZE + BLOCK_SIZE <= usize::MAX,
        ensures
            final(self).wf(),
            final(pmm).wf(),
            final(self).owned(*final(pmm), hhdm),
            final(pmm).range_start() == old(pmm).range_start(),
            final(pmm).range_end() == old(pmm).range_end(),
            final(pmm).free_set().subset_of(old(pmm).free_set()),
            bucket_spec(size as int, align as int) is None ==> r is None && *final(self) == *old(self) && *final(pmm) == *old(pmm),
            bucket_spec(size as int, align as int) matches Some((b, _)) ==> (r is None <==> !old(self).has_free_slot_in(b as int)
                && lowest_from(old(pmm).free_blocks(), BUDDY_ORDER as int) == 64),
            r is None ==> final(self).used() == old(self).used(),
            r matches Some(a) ==> {
                &&& bucket_spec(size as int, align as int) matches Some((b, _))
                &&& !old(self).used().contains(a)
                &&& final(self).used() == old(self).used().insert(a)
                &&& final(self).used_in(b as int) == old(self).used_in(b as int).insert(a)
            },
    {
        let bucket = match bucket_for(size, align) {
            Some((b, _)) => b,
            None => {
                return None;
            },
        };
        let ghost s0 = *self;
        let ghost pm0 = *pmm;
        let mut pool = self.pools.remove(bucket);
        let r = pool.alloc_slot(pmm, hhdm);
        self.pools.insert(bucket, pool);
        proof {
            assert(self.pools@ =~= s0.pools@.update(bucket as int, pool));
            let b = bucket as int;
            // The other pools keep their pages and their blocks.
            assert forall|i: int| 0 <= i < SIZES && i != b implies (#[trigger] self.pools@[i]).owned(*pmm, hhdm) by {
                assert(s0.pools@[i].owned(pm0, hhdm));
                assert forall|k: usize| #[trigger] self.pools@[i].block_bases().contains(k) implies block_owned(k, *pmm, hhdm) by {
                    assert(block_owned(k, pm0, hhdm));
                    let kp = (k - hhdm) / PAGE_SIZE as int;
                    assert forall|p: int| kp <= p < kp + 4 implies #[trigger] pmm.usage_of(p) == PageUsage::KernelAnon by {
                        assert(pm0.usage_of(p) == PageUsage::KernelAnon);
                        if pm0.free_set().contains(p) {
                            lemma_free_usage(pm0, p);
                        }
                    }
                }
            }
            assert forall|i: int, j: int, k1: usize, k2: usize|
                0 <= i < SIZES && 0 <= j < SIZES && i != j && #[trigger] self.pools@[i].block_bases().contains(k1)
                    && #[trigger] self.pools@[j].block_bases().contains(k2) implies k1 + BLOCK_SIZE <= k2 || k2 + BLOCK_SIZE <= k1 by {
                if i == b && !s0.pools@[b].block_bases().contains(k1) {
                    assert(s0.pools@[j].owned(pm0, hhdm));
                    assert(block_owned(k2, pm0, hhdm));
                    lemma_blocks_apart(pm0, hhdm, k1, k2);
                } else if j == b && !s0.pools@[b].block_bases().contains(k2) {
                    assert(s0.pools@[i].owned(pm0, hhdm));
                    assert(block_owned(k1, pm0, hhdm));
                    lemma_blocks_apart(pm0, hhdm, k2, k1);
                } else {
                    assert(s0.pools@[i].block_bases().contains(k1) && s0.pools@[j].block_bases().contains(k2));
                }
            }
        }
        match r {
            Ok(a) => {
                proof {
                    let b = bucket as int;
                    assert(self.pools@[b].used().contains(a));
                    let k1 = self.pools@[b].lemma_used_in_block(a);
                    assert forall|i: int| 0 <= i < SIZES && i != b implies !(#[trigger] s0.pools@[i]).used().contains(a) by {
                        if s0.pools@[i].used().contains(a) {
                            let k2 = s0.pools@[i].lemma_used_in_block(a);
                            assert(self.pools@[i].block_bases().contains(k2));
                        }
                    }
                    assert forall|x: usize| #[trigger] self.used().contains(x) == s0.used().insert(a).contains(x) by {
                        if self.used().contains(x) {
                            let i = choose|i: int| 0 <= i < self.pools@.len() && #[trigger] self.pools@[i].used().contains(x);
                            if x != a {
                                assert(s0.pools@[i].used().contains(x));
                            }
                        }
                        if s0.used().contains(x) {
                            let i = choose|i: int| 0 <= i < s0.pools@.len() && #[trigger] s0.pools@[i].used().contains(x);
                            assert(self.pools@[i].used().contains(x));
                        }
                    }
                    assert(self.used() =~= s0.used().insert(a));
                    assert(!s0.used().contains(a)) by {
                        if s0.used().contains(a) {
                            let i = choose|i: int| 0 <= i < s0.pools@.len() && #[trigger] s0.pools@[i].used().contains(a);
                        }
                    }
                }
                Some(a)
            },
            Err(_) => {
                proof {
                    assert forall|x: usize| #[trigger] self.used().contains(x) == s0.used().contains(x) by {
                        if self.used().contains(x) {
                            let i = choose|i: int| 0 <= i < self.pools@.len() && #[trigger] self.pools@[i].used().contains(x);
                            assert(s0.pools@[i].used().contains(x));
                        }
                        if s0.used().contains(x) {
                            let i = choose|i: int| 0 <= i < s0.pools@.len() && #[trigger] s0.pools@[i].used().contains(x);
                            assert(self.pools@[i].used().contains(x));
                        }
                    }
                    assert(self.used() =~= s0.used());
                }
                None
            },
        }
    }

    /// Give back slot `ptr`, allocated for `size` bytes aligned to `align`, to its pool.
    pub fn deallocate(&mut self, ptr: usize, size: usize, align: usize, pmm: &mut PhysAllocator, hhdm: usize)
        requires
            old(self).wf(),
            old(pmm).wf(),
            old(self).owned(*old(pmm), hhdm),
            hhdm % BLOCK_SIZE == 0,
            size != 0,
            align != 0,
            size + align - 1 <= usize::MAX,
            bucket_spec(size as int, align as int) matches Some((b, _)) && old(self).used_in(b as int).contains(ptr),
        ensures
            final(self).wf(),
            final(pmm).wf(),
            final(self).owned(*final(pmm), hhdm),
            final(pmm).range_start() == old(pmm).range_start(),
            final(pmm).range_end() == old(pmm).range_end(),
            final(self).used() == old(self).used().remove(ptr),
    {
        let bucket = match bucket_for(size, align) {
            Some((b, _)) => b,
            None => {
                return;
            },
        };
        let ghost s0 = *self;
        let ghost pm0 = *pmm;
        let mut pool = self.pools.remove(bucket);
        pool.free_slot(ptr, pmm, hhdm);
        self.pools.insert(bucket, pool);
        proof {
            assert(self.pools@ =~= s0.pools@.update(bucket as int, pool));
            let b = bucket as int;
            assert forall|i: int| 0 <= i < SIZES && i != b implies (#[trigger] self.pools@[i]).owned(*pmm, hhdm) by {
                assert(s0.pools@[i].owned(pm0, hhdm));
                assert forall|k: usize| #[trigger] self.pools@[i].block_bases().contains(k) implies block_owned(k, *pmm, hhdm) by {
                    assert(block_owned(k, pm0, hhdm));
                    lemma2_to64();
                    let kp = (k - hhdm) / PAGE_SIZE as int;
                    assert(k - hhdm == kp * PAGE_SIZE);
                    assert forall|p: int| kp <= p < kp + 4 implies #[trigger] pmm.usage_of(p) == PageUsage::KernelAnon by {
                        assert(pm0.usage_of(p) == PageUsage::KernelAnon);
                        if pmm.usage_of(p) != pm0.usage_of(p) {
                            let k1 = choose|k1: usize| #[trigger] s0.pools@[b].block_bases().contains(k1)
                                && block_set((k1 - hhdm) / PAGE_SIZE as int, 2).contains(p);
                            assert(s0.pools@[b].owned(pm0, hhdm));
                            assert(block_owned(k1, pm0, hhdm));
                            let k1p = (k1 - hhdm) / PAGE_SIZE as int;
                            assert(k1 - hhdm == k1p * PAGE_SIZE);
                            assert(k1 + BLOCK_SIZE <= k || k + BLOCK_SIZE <= k1);
                        }
                    }
                }
            }
            assert forall|i: int, j: int, k1: usize, k2: usize|
                0 <= i < SIZES && 0 <= j < SIZES && i != j && #[trigger] self.pools@[i].block_bases().contains(k1)
                    && #[trigger] self.pools@[j].block_bases().contains(k2) implies k1 + BLOCK_SIZE <= k2 || k2 + BLOCK_SIZE <= k1 by {
                assert(s0.pools@[i].block_bases().contains(k1) && s0.pools@[j].block_bases().contains(k2));
            }
            let k0 = s0.pools@[b].lemma_used_in_block(ptr);
            assert forall|i: int| 0 <= i < SIZES && i != b implies !(#[trigger] s0.pools@[i]).used().contains(ptr) by {
                if s0.pools@[i].used().contains(ptr) {
                    let k2 = s0.pools@[i].lemma_used_in_block(ptr);
                }
            }
            assert forall|x: usize| #[trigger] self.used().contains(x) == s0.used().remove(ptr).contains(x) by {
                if self.used().contains(x) {
                    let i = choose|i: int| 0 <= i < self.pools@.len() && #[trigger] self.pools@[i].used().contains(x);
                    assert(s0.pools@[i].used().contains(x));
                    if i != b && x == ptr {
                        assert(!s0.pools@[i].used().contains(ptr));
                    }
                }
                if s0.used().contains(x) && x != ptr {
                    let i = choose|i: int| 0 <= i < s0.pools@.len() && #[trigger] s0.pools@[i].used().contains(x);
                    assert(self.pools@[i].used().contains(x));
                }
            }
            assert(self.used() =~= s0.used().remove(ptr));
        }
    }

    /// The pools' pages stay theirs when the allocator only changes pages that were free.
    pub proof fn lemma_owned_keeps(&self, pm0: PhysAllocator, pm1: PhysAllocator, hhdm: usize)
        requires
            self.wf(),
            pm0.wf(),
            self.owned(pm0, hhdm),
            pm1.range_start() == pm0.range_start(),
            pm1.range_end() == pm0.range_end(),
            forall|p: int| #[trigger] pm1.usage_of(p) != pm0.usage_of(p) ==> pm0.free_set().contains(p),
        ensures
            self.owned(pm1, hhdm),
    {
        assert forall|i: int| 0 <= i < SIZES implies (#[trigger] self.pools@[i]).owned(pm1, hhdm) by {
            assert(self.pools@[i].owned(pm0, hhdm));
            assert forall|k: usize| #[trigger] self.pools@[i].block_bases().contains(k) implies block_owned(k, pm1, hhdm) by {
                assert(block_owned(k, pm0, hhdm));
                let kp = (k - hhdm) / PAGE_SIZE as int;
                assert forall|p: int| kp <= p < kp + 4 implies #[trigger] pm1.usage_of(p) == PageUsage::KernelAnon by {
                    assert(pm0.usage_of(p) == PageUsage::KernelAnon);
                    if pm0.free_set().contains(p) {
                        lemma_free_usage(pm0, p);
                    }
                }
            }
        }
    }

    /// Page `p` belongs to a block of one of the pools.
    pub closed spec fn holds_page(&self, p: int, hhdm: usize) -> bool {
        exists|i: int, k: usize|
            0 <= i < SIZES && #[trigger] self.pools@[i].block_bases().contains(k) && block_set(
                (k - hhdm) / PAGE_SIZE as int,
                2,
            ).contains(p)
    }

    /// The pools' pages stay theirs when the allocator changes only pages of no pool.
    pub proof fn lemma_owned_keeps_other(&self, pm0: PhysAllocator, pm1: PhysAllocator, hhdm: usize)
        requires
            self.wf(),
            self.owned(pm0, hhdm),
            pm1.range_start() == pm0.range_start(),
            pm1.range_end() == pm0.range_end(),
            forall|p: int| #[trigger] pm1.usage_of(p) != pm0.usage_of(p) ==> !self.holds_page(p, hhdm),
        ensures
            self.owned(pm1, hhdm),
    {
        lemma2_to64();
        assert forall|i: int| 0 <= i < SIZES implies (#[trigger] self.pools@[i]).owned(pm1, hhdm) by {
            assert(self.pools@[i].owned(pm0, hhdm));
            assert forall|k: usize| #[trigger] self.pools@[i].block_bases().contains(k) implies block_owned(k, pm1, hhdm) by {
                assert(block_owned(k, pm0, hhdm));
                let kp = (k - hhdm) / PAGE_SIZE as int;
                assert forall|p: int| kp <= p < kp + 4 implies #[trigger] pm1.usage_of(p) == PageUsage::KernelAnon by {
                    assert(pm0.usage_of(p) == PageUsage::KernelAnon);
                    assert(block_set(kp, 2).contains(p));
                    assert(self.holds_page(p, hhdm));
                }
            }
        }
    }

    /// Empty pools of all sizes.
    pub fn new() -> (r: Self)
        ensures
            r.wf(),
            r.used() == Set::<usize>::empty(),
            forall|pmm: PhysAllocator, hhdm: usize| r.owned(pmm, hhdm),
    {
        let mut pools: Vec<SlabPool> = Vec::new();
        let mut size: usize = SMALLEST;
        let mut i: usize = 0;
        proof {
            reveal_with_fuel(class_size, 10);
        }
        while i < SIZES
            invariant
                i <= SIZES,
                pools@.len() == i,
                i < SIZES ==> size == class_size(i as nat),
                i < SIZES ==> size <= LARGEST,
                forall|j: int| 0 <= j < i ==> (#[trigger] pools@[j]).wf() && pools@[j].spec_slab_size() == class_size(j as nat)
                    && pools@[j].used() == Set::<usize>::empty() && pools@[j].block_bases() == Set::<usize>::empty(),
            decreases SIZES - i,
        {
            proof {
                reveal_with_fuel(class_size, 10);
            }
            pools.push(SlabPool::new(size));
            if i + 1 < SIZES {
                size = size * SIZE_MUL;
            }
            i = i + 1;
        }
        let r = SlabsAlloc { pools };
        proof {
            assert forall|a: usize| !r.used().contains(a) by {
                if r.used().contains(a) {
                    let i = choose|i: int| 0 <= i < r.pools@.len() && #[trigger] r.pools@[i].used().contains(a);
                }
            }
            assert(r.used() =~= Set::<usize>::empty());
            assert forall|pmm: PhysAllocator, hhdm: usize| r.owned(pmm, hhdm) by {
                assert forall|i: int| 0 <= i < SIZES implies (#[trigger] r.pools@[i]).owned(pmm, hhdm) by {
                    assert(r.pools@[i].block_bases() == Set::<usize>::empty());
                }
            }
        }
        r
    }
}

/// Allocate `size` bytes aligned to `align` for the kernel heap: requests whose size, rounded up
/// to the alignment, fits the largest slab slot are served with whole pages from the direct map
/// at `hhdm`, larger ones from the slab pools, which have no slots that big; zero when the
/// allocation fails.
pub fn heap_alloc(size: usize, align: usize, slabs: &mut SlabsAlloc, pmm: &mut PhysAllocator, hhdm: usize) -> (r: usize)
    requires
        old(slabs).wf(),
        old(pmm).wf(),
        old(slabs).owned(*old(pmm), hhdm),
        size != 0,
        align != 0,
        size + align - 1 <= usize::MAX,
        hhdm > 0,
        hhdm + old(pmm).range_end() * PAGE_SIZE + BLOCK_SIZE <= usize::MAX,
    ensures
        final(slabs).wf(),
        final(pmm).wf(),
        final(slabs).owned(*final(pmm), hhdm),
        final(pmm).range_start() == old(pmm).range_start(),
        final(pmm).range_end() == old(pmm).range_end(),
        final(pmm).free_set().subset_of(old(pmm).free_set()),
        padded_size(size as int, align as int) > LARGEST ==> r == 0 && *final(pmm) == *old(pmm)
            && *final(slabs) == *old(slabs),
        padded_size(size as int, align as int) <= LARGEST ==> {
            let order = block_order(size as int, align as int);
            &&& *final(slabs) == *old(slabs)
            &&& r == 0 <==> lowest_from(old(pmm).free_blocks(), order as int) == 64
            &&& r != 0 ==> r >= hhdm && (r - hhdm) % PAGE_SIZE as int == 0
                && block_set((r - hhdm) / PAGE_SIZE as int, order).subset_of(old(pmm).free_set())
                && final(pmm).free_set() == old(pmm).free_set().difference(block_set((r - hhdm) / PAGE_SIZE as int, order))
        },
{
    let padded = pad_to_align(size, align);
    if padded <= LARGEST {
        let ghost pm0 = *pmm;
        let r = HhdmAlloc.allocate(size, align, pmm, hhdm);
        proof {
            slabs.lemma_owned_keeps(pm0, *pmm, hhdm);
        }
        match r {
            Ok(v) => v,
            Err(_) => 0,
        }
    } else {
        proof {
            assert(bucket_spec(size as int, align as int) is None) by {
                if exists|k: nat| k < SIZES && class_size(k) >= padded_size(size as int, align as int) {
                    let k = choose|k: nat| k < SIZES && class_size(k) >= padded_size(size as int, align as int);
                    lemma_class_size_mono(k, 8);
                    reveal_with_fuel(class_size, 9);
                }
            }
        }
        match slabs.allocate(size, align, pmm, hhdm) {
            Some(v) => v,
            None => 0,
        }
    }
}

/// Give back kernel heap memory at `ptr` that was allocated for `size` bytes aligned to `align`:
/// sizes that fit the largest slab slot were served with whole pages from the direct map at
/// `hhdm`, and only those allocations ever succeed.
pub fn heap_dealloc(ptr: usize, size: usize, align: usize, slabs: &SlabsAlloc, pmm: &mut PhysAllocator, hhdm: usize)
    requires
        slabs.wf(),
        old(pmm).wf(),
        slabs.owned(*old(pmm), hhdm),
        size != 0,
        align != 0,
        size + align - 1 <= usize::MAX,
        size <= LARGEST,
        ptr >= hhdm,
        (ptr - hhdm) % PAGE_SIZE as int == 0,
        ({
            let ppn = (ptr - hhdm) / PAGE_SIZE as int;
            let order = block_order(size as int, align as int);
            &&& ppn % pow2(order) as int == 0
            &&& old(pmm).range_start() <= ppn
            &&& ppn + pow2(order) <= old(pmm).range_end()
            &&& forall|p: int| block_set(ppn, order).contains(p) ==> #[trigger] old(pmm).usage_of(p) != PageUsage::Free
            &&& old(pmm).usage_of(ppn) != PageUsage::KernelSegment
            &&& forall|p: int| block_set(ppn, order).contains(p) ==> !slabs.holds_page(p, hhdm)
        }),
    ensures
        final(pmm).wf(),
        slabs.owned(*final(pmm), hhdm),
        final(pmm).range_start() == old(pmm).range_start(),
        final(pmm).range_end() == old(pmm).range_end(),
        final(pmm).free_set() == old(pmm).free_set().union(
            block_set((ptr - hhdm) / PAGE_SIZE as int, block_order(size as int, align as int)),
        ),
{
    let ghost pm0 = *pmm;
    HhdmAlloc.deallocate(ptr, size, align, pmm, hhdm);
    proof {
        slabs.lemma_owned_keeps_other(pm0, *pmm, hhdm);
    }
}

/// A slot that is allocated and then given back leaves the slots in use as they were.
pub proof fn lemma_alloc_then_free(s0: SlabsAlloc, s1: SlabsAlloc, s2: SlabsAlloc, a: usize)
    requires
        !s0.used().contains(a),
        s1.used() == s0.used().insert(a),
        s2.used() == s1.used().remove(a),
    ensures
        s2.used() == s0.used(),
{
    assert(s2.used() =~= s0.used());
}

/// Two allocations in a row hand out different slots.
pub proof fn lemma_allocs_differ(s0: SlabsAlloc, s1: SlabsAlloc, a: usize, b: usize)
    requires
        s1.used() == s0.used().insert(a),
        !s1.used().contains(b),
    ensures
        a != b,
{
}

} // verus!
