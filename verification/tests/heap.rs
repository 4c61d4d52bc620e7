use badgeros::config::PAGE_SIZE;
use badgeros::mem::heap::{
    bucket_for, heap_alloc, heap_dealloc, HhdmAlloc, SlabBlock, SlabPool, SlabsAlloc, BLOCK_SIZE, LARGEST,
    SLAB_HEADER_SIZE,
};
use badgeros::mem::pmm::{PageUsage, PhysAllocator};

const BASE: usize = 0x1000_0000;
const SIZE: usize = 0x0010_0000;
const HHDM: usize = 0xffff_ffc0_0000_0000;

#[test]
fn buckets() {
    assert_eq!(bucket_for(1, 1), Some((0, 8)));
    assert_eq!(bucket_for(8, 8), Some((0, 8)));
    assert_eq!(bucket_for(9, 1), Some((1, 16)));
    assert_eq!(bucket_for(9, 16), Some((1, 16)));
    assert_eq!(bucket_for(3, 32), Some((2, 32)));
    assert_eq!(bucket_for(1000, 8), Some((7, 1024)));
    assert_eq!(bucket_for(LARGEST, 1), Some((8, 2048)));
    assert_eq!(bucket_for(LARGEST + 1, 1), None);
}

#[test]
fn block_exhaust_and_refill() {
    let mut b = SlabBlock::new(0x4000_0000, 8);
    let mut got = Vec::new();
    // The header takes the first slots; the lowest free slot comes first.
    let first = b.alloc_slot();
    assert_eq!(first, 0x4000_0000 + SLAB_HEADER_SIZE);
    got.push(first);
    while got.len() < (BLOCK_SIZE - SLAB_HEADER_SIZE) / 8 {
        got.push(b.alloc_slot());
    }
    assert_eq!(got[1], first + 8);
    assert_eq!(*got.last().unwrap(), 0x4000_0000 + BLOCK_SIZE - 8);
    for a in got.iter().rev() {
        b.free_slot(*a);
    }
    assert_eq!(b.alloc_slot(), first);
}

#[test]
fn pool_allocates_distinct_slots_and_reuses_them() {
    let mut pmm = PhysAllocator::init(BASE..BASE + SIZE, BASE..BASE + SIZE);
    let mut pool = SlabPool::new(2048);
    let before = pmm.counters();
    let mut got = Vec::new();
    for _ in 0..20 {
        got.push(pool.alloc_slot(&mut pmm, HHDM).unwrap());
    }
    let mut sorted = got.clone();
    sorted.sort();
    sorted.dedup();
    assert_eq!(sorted.len(), 20);
    for a in &got {
        assert_eq!(a % 2048, 0);
        assert!(*a >= HHDM + BASE && *a < HHDM + BASE + SIZE);
    }
    // Seven slots of 2048 bytes fit a block after its header, so three blocks are in use.
    assert_eq!(pmm.counters().free, before.free - 12);
    let last = got.pop().unwrap();
    pool.free_slot(last, &mut pmm, HHDM);
    assert_eq!(pool.alloc_slot(&mut pmm, HHDM).unwrap(), last);
    got.push(last);
    for a in &got {
        pool.free_slot(*a, &mut pmm, HHDM);
    }
    // One empty block is kept; the others go back.
    assert_eq!(pmm.counters().free, before.free - 4);
    let again = pool.alloc_slot(&mut pmm, HHDM).unwrap();
    assert_eq!(pmm.counters().free, before.free - 4);
    assert!(got.contains(&again));
    let _ = PageUsage::KernelAnon;
    let _ = PAGE_SIZE;
}

#[test]
fn slabs_and_heap() {
    let mut pmm = PhysAllocator::init(BASE..BASE + SIZE, BASE..BASE + SIZE);
    let mut slabs = SlabsAlloc::new();
    let a = slabs.allocate(24, 8, &mut pmm, HHDM).unwrap();
    let b = slabs.allocate(24, 8, &mut pmm, HHDM).unwrap();
    assert_eq!(a % 32, 0);
    assert_eq!(b, a + 32);
    let c = slabs.allocate(100, 4, &mut pmm, HHDM).unwrap();
    assert_eq!(c % 128, 0);
    assert!(slabs.allocate(LARGEST + 1, 1, &mut pmm, HHDM).is_none());
    slabs.deallocate(a, 24, 8, &mut pmm, HHDM);
    assert_eq!(slabs.allocate(30, 2, &mut pmm, HHDM), Some(a));

    let before = pmm.counters().free;
    let h = HhdmAlloc.allocate(5000, 8, &mut pmm, HHDM).unwrap();
    assert_eq!((h - HHDM) % (2 * PAGE_SIZE), 0);
    assert_eq!(pmm.counters().free, before - 2);
    HhdmAlloc.deallocate(h, 5000, 8, &mut pmm, HHDM);
    assert_eq!(pmm.counters().free, before);

    let p = heap_alloc(64, 8, &mut slabs, &mut pmm, HHDM);
    assert_ne!(p, 0);
    assert_eq!(pmm.counters().free, before - 1);
    heap_dealloc(p, 64, 8, &slabs, &mut pmm, HHDM);
    assert_eq!(pmm.counters().free, before);
    assert_eq!(heap_alloc(4096, 8, &mut slabs, &mut pmm, HHDM), 0);
}
