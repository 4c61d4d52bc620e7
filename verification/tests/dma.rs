use badgeros::config::PAGE_SIZE;
use badgeros::errno::Errno;
use badgeros::mem::dma::{
    cpu_copy_allowed, DmaFillZero, DmaFromBuffer, DmaFromRef, DmaTarget, ScatterGatherEntry,
};
use badgeros::mem::map::{KernelVmSpace, Mapping, FIXED, SHARED};
use badgeros::mem::memobject::RawMemory;
use badgeros::mem::pmm::{PageUsage, PhysAllocator};
use badgeros::mem::prot;

const BASE: usize = 0x1000_0000;
const SIZE: usize = 0x0100_0000;

fn sge(paddr: usize, vaddr: usize, size: usize) -> ScatterGatherEntry {
    ScatterGatherEntry { paddr, vaddr, size }
}

#[test]
fn fill_zero_cuts_into_pages() {
    let z = DmaFillZero::new(3 * PAGE_SIZE as u64);
    assert!(!z.allow_scatter());
    assert!(z.allow_gather());
    assert_eq!(z.size(), 3 * PAGE_SIZE as u64);
    let e = z.collect(100, 2 * PAGE_SIZE as u64 + 10, usize::MAX, 0xaaa000, 0x55000).unwrap();
    assert_eq!(
        e,
        vec![
            sge(0x55000, 0xaaa000, PAGE_SIZE),
            sge(0x55000, 0xaaa000, PAGE_SIZE),
            sge(0x55000, 0xaaa000, 10),
        ]
    );
    let small = z.collect(0, 100, 64, 0xaaa000, 0x55000).unwrap();
    assert_eq!(small.len(), 2);
    assert_eq!(small[1].size, 36);
    assert_eq!(z.collect(PAGE_SIZE as u64, 2 * PAGE_SIZE as u64 + 1, 64, 0, 0), Err(Errno::EINVAL));
    assert_eq!(z.collect(0, 0, 0, 0, 0), Ok(Vec::new()));
}

#[test]
fn buffer_cuts_at_max_entry_size() {
    let b = DmaFromBuffer::from_ref(0x10_0000, 100, 0x8000_0000);
    assert!(!b.allow_scatter());
    assert!(b.allow_gather());
    assert_eq!(b.size(), 100);
    let e = b.collect(10, 70, 32).unwrap();
    assert_eq!(
        e,
        vec![
            sge(0x8000_000a, 0x10_000a, 32),
            sge(0x8000_002a, 0x10_002a, 32),
            sge(0x8000_004a, 0x10_004a, 6),
        ]
    );
    assert_eq!(b.collect(50, 51, 32), Err(Errno::EINVAL));
    let m = DmaFromBuffer::from_mut(0x10_0000, 100, 0x8000_0000);
    assert!(m.allow_scatter());
    assert!(!m.allow_gather());
}

#[test]
fn reference_merges_contiguous_pages() {
    let mut pmm = PhysAllocator::init(BASE..BASE + SIZE, BASE..BASE + SIZE);
    let zero = pmm.page_alloc(0, PageUsage::KernelAnon).unwrap();
    let mut k = KernelVmSpace::new(&mut pmm, 3, zero).unwrap();
    let obj = RawMemory::new(0x8000_0000, 3 * PAGE_SIZE);
    let a = k
        .map(3 * PAGE_SIZE, 0, SHARED, prot::READ | prot::WRITE, Some(Mapping { offset: 0, object: obj }), &mut pmm)
        .unwrap();
    let r = DmaFromRef::from_ref(a, 3 * PAGE_SIZE);
    assert_eq!(r.size(), 3 * PAGE_SIZE as u64);
    let e = r.collect(8, 2 * PAGE_SIZE as u64, usize::MAX, &k).unwrap();
    assert_eq!(e, vec![sge(0x8000_0008, a + 8, 2 * PAGE_SIZE)]);
    assert_eq!(r.collect(PAGE_SIZE as u64, 2 * PAGE_SIZE as u64 + 1, usize::MAX, &k), Err(Errno::EINVAL));
    let w = DmaFromRef::from_mut(a, 3 * PAGE_SIZE);
    assert!(w.allow_scatter());
}

#[test]
fn reference_splits_discontiguous_pages() {
    let mut pmm = PhysAllocator::init(BASE..BASE + SIZE, BASE..BASE + SIZE);
    let zero = pmm.page_alloc(0, PageUsage::KernelAnon).unwrap();
    let mut k = KernelVmSpace::new(&mut pmm, 3, zero).unwrap();
    let first = RawMemory::new(0x8000_0000, PAGE_SIZE);
    let second = RawMemory::new(0x9000_0000, PAGE_SIZE);
    let a = k
        .map(2 * PAGE_SIZE, 0, SHARED, prot::READ, Some(Mapping { offset: 0, object: first }), &mut pmm);
    // The first object is too small for two pages.
    assert!(a.is_err());
    let a = k
        .map(PAGE_SIZE, 0, SHARED, prot::READ, Some(Mapping { offset: 0, object: first }), &mut pmm)
        .unwrap();
    let b = k
        .map(PAGE_SIZE, a + PAGE_SIZE, SHARED | FIXED, prot::READ, Some(Mapping { offset: 0, object: second }), &mut pmm)
        .unwrap();
    assert_eq!(b, a + PAGE_SIZE);
    let r = DmaFromRef::from_ref(a, 2 * PAGE_SIZE);
    let e = r.collect(PAGE_SIZE as u64 - 16, 32, usize::MAX, &k).unwrap();
    assert_eq!(e, vec![sge(0x8000_0000 + PAGE_SIZE - 16, a + PAGE_SIZE - 16, 16), sge(0x9000_0000, a + PAGE_SIZE, 16)]);
}

#[test]
fn reference_entries_are_cut_at_the_maximum() {
    let mut pmm = PhysAllocator::init(BASE..BASE + SIZE, BASE..BASE + SIZE);
    let zero = pmm.page_alloc(0, PageUsage::KernelAnon).unwrap();
    let mut k = KernelVmSpace::new(&mut pmm, 3, zero).unwrap();
    let obj = RawMemory::new(0x8000_0000, 2 * PAGE_SIZE);
    let a = k
        .map(2 * PAGE_SIZE, 0, SHARED, prot::READ, Some(Mapping { offset: 0, object: obj }), &mut pmm)
        .unwrap();
    let r = DmaFromRef::from_ref(a, 2 * PAGE_SIZE);
    // One physically contiguous run of 40 bytes across the page boundary, cut every 16 bytes.
    let e = r.collect(PAGE_SIZE as u64 - 20, 40, 16, &k).unwrap();
    assert_eq!(
        e,
        vec![
            sge(0x8000_0000 + PAGE_SIZE - 20, a + PAGE_SIZE - 20, 16),
            sge(0x8000_0000 + PAGE_SIZE - 4, a + PAGE_SIZE - 4, 16),
            sge(0x8000_0000 + PAGE_SIZE + 12, a + PAGE_SIZE + 12, 8),
        ]
    );
}

#[test]
fn cpu_copy_checks() {
    assert_eq!(cpu_copy_allowed(true, 10, 10), Ok(()));
    assert_eq!(cpu_copy_allowed(true, 11, 10), Err(Errno::EINVAL));
    assert_eq!(cpu_copy_allowed(false, 1, 10), Err(Errno::EINVAL));
    // Only the bytes to copy count, however large the target is.
    assert_eq!(cpu_copy_allowed(true, 4, 4), Ok(()));
}

#[test]
fn collected_entries_tile_the_bytes() {
    let mut pmm = PhysAllocator::init(BASE..BASE + SIZE, BASE..BASE + SIZE);
    let zero = pmm.page_alloc(0, PageUsage::KernelAnon).unwrap();
    let mut k = KernelVmSpace::new(&mut pmm, 3, zero).unwrap();
    let obj = RawMemory::new(0x8000_0000, 3 * PAGE_SIZE);
    let a = k
        .map(3 * PAGE_SIZE, 0, SHARED, prot::READ, Some(Mapping { offset: 0, object: obj }), &mut pmm)
        .unwrap();
    let r = DmaFromRef::from_ref(a, 3 * PAGE_SIZE);
    let length = 3 * PAGE_SIZE - 5;
    let e = r.collect(5, length as u64, 1000, &k).unwrap();
    assert_eq!(e[0].vaddr, a + 5);
    for w in e.windows(2) {
        assert_eq!(w[1].vaddr, w[0].vaddr + w[0].size);
    }
    assert_eq!(e.iter().map(|x| x.size).sum::<usize>(), length);
    for x in &e {
        assert!(x.size > 0 && x.size <= 1000);
        assert_eq!(x.paddr, k.virt2phys(x.vaddr).paddr);
    }
}
