use badgeros::config::PAGE_SIZE;
use badgeros::errno::Errno;
use badgeros::mem::map::{
    KernelLayout, KernelVmSpace, Mapping, VmSpace, VmSpaceInner, ANONYMOUS, FIXED, POPULATE, PRIVATE,
    SHARED,
};
use badgeros::mem::memobject::{MappablePage, MemObject, RawMemory};
use badgeros::mem::physmap::{
    calc_superpage, canon_half_pages, canon_half_size, higher_half_page, higher_half_vaddr,
    is_canon_addr, is_canon_kernel_addr, is_canon_kernel_page, is_canon_page, is_canon_range,
    is_canon_user_addr, is_canon_user_page, is_canon_user_range, PhysMap, PTE,
};
use badgeros::mem::pmm::{
    PhysBox,
    order_to_pages, order_to_size, pages_to_order, size_to_order, PageUsage, PhysAllocator, PhysPtr,
};
use badgeros::mem::prot;
use badgeros::mem::vmfence::{shootdown, VmFenceSet};

const BASE: usize = 0x1000_0000;
const SIZE: usize = 0x0100_0000;

fn allocator() -> PhysAllocator {
    PhysAllocator::init(BASE..BASE + SIZE, BASE..BASE + SIZE)
}

#[test]
fn orders_and_sizes() {
    assert_eq!(size_to_order(1), 0);
    assert_eq!(size_to_order(PAGE_SIZE), 0);
    assert_eq!(size_to_order(PAGE_SIZE + 1), 1);
    assert_eq!(size_to_order(3 * PAGE_SIZE), 2);
    assert_eq!(order_to_size(3), 8 * PAGE_SIZE);
    assert_eq!(pages_to_order(1), 0);
    assert_eq!(pages_to_order(5), 3);
    assert_eq!(order_to_pages(4), 16);
}

#[test]
fn alloc_then_free_restores_the_free_pages() {
    let mut pmm = allocator();
    let before = pmm.counters();
    let a = pmm.page_alloc(2, PageUsage::KernelAnon).unwrap();
    assert_eq!(a % PAGE_SIZE, 0);
    assert_eq!((a / PAGE_SIZE) % 4, 0);
    assert_eq!(pmm.page_struct(a).usage(), PageUsage::KernelAnon);
    assert_eq!(pmm.page_struct(a).order(), 2);
    pmm.page_free(a, 2);
    assert_eq!(pmm.page_struct(a).usage(), PageUsage::Free);
    assert_eq!(pmm.counters(), before);
}

#[test]
fn successive_allocations_do_not_overlap() {
    let mut pmm = allocator();
    let a = pmm.page_alloc(0, PageUsage::UserAnon).unwrap();
    let b = pmm.page_alloc(0, PageUsage::UserAnon).unwrap();
    assert_ne!(a, b);
    let c = pmm.page_alloc(3, PageUsage::Cache).unwrap();
    assert!(c + 8 * PAGE_SIZE <= a || a + PAGE_SIZE <= c);
    assert!(c + 8 * PAGE_SIZE <= b || b + PAGE_SIZE <= c);
}

#[test]
fn allocation_fails_when_memory_is_exhausted() {
    let mut pmm = PhysAllocator::init(BASE..BASE + 128 * PAGE_SIZE, BASE..BASE + 128 * PAGE_SIZE);
    let mut n = 0;
    while pmm.page_alloc(0, PageUsage::KernelAnon).is_ok() {
        n += 1;
    }
    assert!(n > 0);
    assert_eq!(pmm.page_alloc(0, PageUsage::KernelAnon), Err(Errno::ENOMEM));
}

#[test]
fn phys_ptr_round_trip() {
    let mut pmm = allocator();
    let p = PhysPtr::new(&mut pmm, 1, PageUsage::KernelAnon).unwrap();
    assert_eq!(p.order(), 1);
    let addr = p.paddr();
    let (a, o) = p.into_raw_parts();
    assert_eq!((a, o), (addr, 1));
    PhysPtr::from_raw_parts(a, o).free(&mut pmm);
    assert_eq!(pmm.page_struct(a).usage(), PageUsage::Free);
}

#[test]
fn canonical_addresses_three_levels() {
    let l = 3;
    assert!(is_canon_addr(0, l));
    assert!(is_canon_addr(0x3f_ffff_ffff, l));
    assert!(!is_canon_addr(0x40_0000_0000, l));
    assert!(is_canon_addr(0xffff_ffc0_0000_0000, l));
    assert!(is_canon_kernel_addr(0xffff_ffc0_0000_0000, l));
    assert!(!is_canon_user_addr(0xffff_ffc0_0000_0000, l));
    assert!(is_canon_user_addr(0x1000, l));
    assert!(is_canon_range(0x1000..0x2000, l));
    assert!(!is_canon_user_range(0x3f_ffff_f000..0x40_0000_1000, l));
    assert!(is_canon_page(0x3ff_ffff, l));
    assert!(!is_canon_page(0x400_0000, l));
    assert!(is_canon_kernel_page(0xf_ffff_fc00_0000, l));
    assert!(is_canon_user_page(5, l));
    assert_eq!(canon_half_size(l), 0x40_0000_0000);
    assert_eq!(canon_half_pages(l), 0x400_0000);
    assert_eq!(higher_half_vaddr(l), 0xffff_ffc0_0000_0000);
    assert_eq!(higher_half_page(l), 0xf_ffff_fc00_0000);
}

#[test]
fn superpage_levels() {
    assert_eq!(calc_superpage(0, 0, 1), 0);
    assert_eq!(calc_superpage(512, 1024, 512), 1);
    assert_eq!(calc_superpage(512, 1025, 512), 0);
    assert_eq!(calc_superpage(1 << 18, 1 << 18, 1 << 18), 2);
    assert_eq!(calc_superpage(1 << 18, 1 << 18, 1000), 1);
}

#[test]
fn pte_equality_ignores_leaf_bit_of_invalid_entries() {
    let a = PTE { ppn: 1, flags: 0x2, level: 0, valid: false, leaf: true };
    let b = PTE { ppn: 1, flags: 0x2, level: 0, valid: false, leaf: false };
    assert!(a == b);
    let c = PTE { ppn: 1, flags: 0x2, level: 0, valid: true, leaf: true };
    let d = PTE { ppn: 1, flags: 0x2, level: 0, valid: true, leaf: false };
    assert!(c != d);
    assert!(PTE::null().is_null());
    assert!(!c.is_null());
}

#[test]
fn page_map_walk_after_map_and_unmap() {
    let mut pmm = allocator();
    let mut pm = PhysMap::new(&mut pmm, 3).unwrap();
    assert!(!pm.walk(0x1234).valid);
    pm.map(&mut pmm, 0x1234, 0x5678, 0x7).unwrap();
    let pte = pm.walk(0x1234);
    assert_eq!(pte, PTE { ppn: 0x5678, flags: 0x7, level: 0, valid: true, leaf: true });
    let v2p = pm.virt2phys(0x1234 * PAGE_SIZE + 0x10);
    assert!(v2p.valid);
    assert_eq!(v2p.paddr, 0x5678 * PAGE_SIZE + 0x10);
    assert_eq!(v2p.page_vaddr, 0x1234 * PAGE_SIZE);
    assert_eq!(v2p.size, PAGE_SIZE);
    pm.unmap(&mut pmm, 0x1234).unwrap();
    assert!(!pm.walk(0x1234).valid);
    let bad = pm.virt2phys(0x8000_0000_0000_0000);
    assert!(!bad.valid);
}

#[test]
fn fence_set_goes_big() {
    let mut f = VmFenceSet::new();
    f.add(Some(0x1000), None);
    f.add(Some(0x2000), None);
    assert_eq!(f.pending(), vec![0x1000, 0x2000]);
    assert_eq!(f.execute(), vec![Some(0x1000), Some(0x2000)]);
    let mut g = VmFenceSet::new();
    g.add(Some(0x3000), None);
    f.extend_from(&g);
    assert_eq!(f.pending(), vec![0x1000, 0x2000, 0x3000]);
    f.add(None, None);
    assert_eq!(shootdown(&f), vec![None]);
    assert!(f.pending().is_empty());
    f.clear();
    assert!(f.execute().is_empty());
    let mut h = VmFenceSet::new();
    for i in 0..63 {
        h.add(Some(i * PAGE_SIZE), None);
    }
    assert_eq!(h.execute().len(), 63);
    h.add(Some(63 * PAGE_SIZE), None);
    assert_eq!(h.execute(), vec![None]);
}

#[test]
fn prot_flags_round_trip() {
    for p in 0u8..32 {
        assert_eq!(prot::from_mmu_flags(prot::into_mmu_flags(p)), p);
    }
}

#[test]
fn mappable_page_flags() {
    let mut p = MappablePage::new(0x5000, true, true, false);
    assert_eq!(p.paddr(), 0x5000);
    assert!(p.writable());
    assert!(p.refcounted());
    assert!(!p.tracks_dirty());
    p.clear_writable();
    assert!(!p.writable());
    assert_eq!(p.into_paddr(), 0x5000);
    let raw = RawMemory::new(0x8000, 0x3000);
    assert_eq!(raw.len(), 0x3000);
    assert_eq!(raw.get(0x1000).unwrap().paddr(), 0x9000);
}

fn user_space(pmm: &mut PhysAllocator) -> VmSpace {
    let zero = pmm.page_alloc(0, PageUsage::KernelAnon).unwrap();
    VmSpace::new(pmm, 3, zero).unwrap()
}

#[test]
fn user_mappings_fault_and_unmap() {
    let mut pmm = allocator();
    let mut vm = user_space(&mut pmm);
    let bounds = VmSpace::bounds(3);
    assert_eq!(bounds, 0x20_0000_0000..0x40_0000_0000);
    let a = vm.map(3 * PAGE_SIZE, 0, PRIVATE | ANONYMOUS, prot::READ | prot::WRITE, None, &mut pmm).unwrap();
    assert!(a >= bounds.start + PAGE_SIZE && a + 3 * PAGE_SIZE <= bounds.end);
    assert_eq!(a % PAGE_SIZE, 0);
    assert_eq!(vm.fault(a + 5, prot::WRITE, &mut pmm), Ok(()));
    assert!(vm.virt2phys(a + 5).valid);
    assert_eq!(vm.fault(a - PAGE_SIZE, prot::READ, &mut pmm), Err(Errno::EFAULT));
    vm.unmap(a..a + 3 * PAGE_SIZE, &mut pmm).unwrap();
    assert_eq!(vm.fault(a + 5, prot::WRITE, &mut pmm), Err(Errno::EFAULT));
}

#[test]
fn user_map_rejects_bad_requests() {
    let mut pmm = allocator();
    let mut vm = user_space(&mut pmm);
    assert_eq!(vm.map(PAGE_SIZE, 0x123, 0, prot::READ, None, &mut pmm), Err(Errno::EINVAL));
    assert_eq!(vm.map(PAGE_SIZE, 0, FIXED, prot::READ, None, &mut pmm), Err(Errno::EINVAL));
    assert_eq!(vm.map(0, 0x10000, FIXED, prot::READ, None, &mut pmm), Err(Errno::EINVAL));
    let obj = RawMemory::new(0x8000, PAGE_SIZE);
    let m = Mapping { offset: 0, object: obj };
    assert_eq!(vm.map(2 * PAGE_SIZE, 0, 0, prot::READ, Some(m), &mut pmm), Err(Errno::ENXIO));
    assert_eq!(vm.protect(0x8000_0000_0000_0000..0x8000_0000_0000_1000, prot::READ, &mut pmm), Err(Errno::EINVAL));
}

#[test]
fn fixed_mapping_replaces_and_protect_refuses_writes() {
    let mut pmm = allocator();
    let mut vm = user_space(&mut pmm);
    let a = vm.map(4 * PAGE_SIZE, 0x10000, FIXED | PRIVATE, prot::READ | prot::WRITE, None, &mut pmm).unwrap();
    assert_eq!(a, 0x10000);
    vm.protect(0x11000..0x12000, prot::READ, &mut pmm).unwrap();
    assert_eq!(vm.fault(0x11000, prot::WRITE, &mut pmm), Err(Errno::EFAULT));
    assert_eq!(vm.fault(0x11000, prot::READ, &mut pmm), Ok(()));
    assert_eq!(vm.fault(0x12000, prot::WRITE, &mut pmm), Ok(()));
    let child = vm.fork(&mut pmm).unwrap();
    assert!(!child.virt2phys(0x12000).valid);
    vm.clear(&mut pmm);
    assert_eq!(vm.fault(0x12000, prot::READ, &mut pmm), Err(Errno::EFAULT));
}

#[test]
fn populated_mapping_of_physical_memory() {
    let mut pmm = allocator();
    let zero = pmm.page_alloc(0, PageUsage::KernelAnon).unwrap();
    let mut k = KernelVmSpace::new(&mut pmm, 3, zero).unwrap();
    let obj = RawMemory::new(0x8000_0000, 2 * PAGE_SIZE);
    let a = k
        .map(2 * PAGE_SIZE, 0, SHARED, prot::READ, Some(Mapping { offset: 0, object: obj }), &mut pmm)
        .unwrap();
    let b = KernelVmSpace::bounds(3);
    assert!(b.start <= a && a + 2 * PAGE_SIZE <= b.end);
    let v = k.virt2phys(a + PAGE_SIZE + 8);
    assert!(v.valid);
    assert_eq!(v.paddr, 0x8000_0000 + PAGE_SIZE + 8);
    let _ = POPULATE;
}

#[test]
fn kernel_address_space_from_layout() {
    let mut pmm = allocator();
    let layout = KernelLayout {
        text: 0xffff_ffff_8000_0000..0xffff_ffff_8000_2000,
        rodata: 0xffff_ffff_8000_2000..0xffff_ffff_8000_3000,
        data: 0xffff_ffff_8000_3000..0xffff_ffff_8000_5000,
        kernel_vaddr: 0xffff_ffff_8000_0000,
        kernel_paddr: 0x8020_0000,
        hhdm_vaddr: 0xffff_ffc0_0000_0000,
        hhdm_offset: 0xffff_ffc0_0000_0000 - 0x8000_0000,
        hhdm_size: 4 * PAGE_SIZE,
    };
    let (k, z) = badgeros::mem::map::init(&mut pmm, 3, layout).unwrap();
    let v = k.virt2phys(0xffff_ffff_8000_1004);
    assert!(v.valid);
    assert_eq!(v.paddr, 0x8020_1004);
    assert!(k.virt2phys(0xffff_ffc0_0000_0000).valid);
    assert!(k.virt2phys(z).valid);
}

#[test]
fn shrink_evicts_pages_past_the_object_end() {
    let mut pmm = allocator();
    let zero = pmm.page_alloc(0, PageUsage::KernelAnon).unwrap();
    let mut vm = VmSpaceInner::new(&mut pmm, 3, zero).unwrap();
    let obj = RawMemory::new(0x8000_0000, 4 * PAGE_SIZE);
    let m = Mapping { offset: 0, object: obj };
    let a = vm
        .map(4 * PAGE_SIZE, 0x40000, 0..0, FIXED | PRIVATE, prot::READ | prot::WRITE, Some(m), &mut pmm)
        .unwrap();
    assert_eq!(a, 0x40000);
    let mut fences = VmFenceSet::new();
    for i in 0..4 {
        assert_eq!(vm.fault(&mut fences, a + i * PAGE_SIZE, prot::WRITE, &mut pmm), Ok(()));
        assert!(vm.virt2phys(a + i * PAGE_SIZE).valid);
    }
    // The object now ends half-way through the second page: that page stays.
    vm.shrink(0, (PAGE_SIZE + PAGE_SIZE / 2) as u64, &mut pmm);
    assert!(vm.virt2phys(a).valid);
    assert!(vm.virt2phys(a + PAGE_SIZE).valid);
    assert!(!vm.virt2phys(a + 2 * PAGE_SIZE).valid);
    assert!(!vm.virt2phys(a + 3 * PAGE_SIZE).valid);
}

#[test]
fn shrink_beyond_region_changes_nothing() {
    let mut pmm = allocator();
    let zero = pmm.page_alloc(0, PageUsage::KernelAnon).unwrap();
    let mut vm = VmSpaceInner::new(&mut pmm, 3, zero).unwrap();
    let obj = RawMemory::new(0x8000_0000, 2 * PAGE_SIZE);
    let m = Mapping { offset: 0, object: obj };
    let a = vm.map(2 * PAGE_SIZE, 0x40000, 0..0, FIXED | PRIVATE, prot::READ, Some(m), &mut pmm).unwrap();
    let mut fences = VmFenceSet::new();
    assert_eq!(vm.fault(&mut fences, a + PAGE_SIZE, prot::READ, &mut pmm), Ok(()));
    vm.shrink(0, 10 * PAGE_SIZE as u64, &mut pmm);
    assert!(vm.virt2phys(a + PAGE_SIZE).valid);
}

#[test]
fn unmap_clears_every_page_of_the_region_and_no_other() {
    let mut pmm = allocator();
    let zero = pmm.page_alloc(0, PageUsage::KernelAnon).unwrap();
    let mut vm = VmSpaceInner::new(&mut pmm, 3, zero).unwrap();
    let a = vm
        .map(3 * PAGE_SIZE, 0x40000, 0..0, FIXED | PRIVATE | ANONYMOUS, prot::READ | prot::WRITE, None, &mut pmm)
        .unwrap();
    let b = vm
        .map(PAGE_SIZE, 0x50000, 0..0, FIXED | PRIVATE | ANONYMOUS, prot::READ, None, &mut pmm)
        .unwrap();
    let mut fences = VmFenceSet::new();
    for i in 0..3 {
        assert_eq!(vm.fault(&mut fences, a + i * PAGE_SIZE, prot::WRITE, &mut pmm), Ok(()));
    }
    assert_eq!(vm.fault(&mut fences, b, prot::READ, &mut pmm), Ok(()));
    assert_eq!(vm.unmap(a..a + 3 * PAGE_SIZE, &mut pmm), Ok(()));
    for i in 0..3 {
        assert!(!vm.virt2phys(a + i * PAGE_SIZE).valid);
    }
    assert!(vm.virt2phys(b).valid);
}

#[test]
fn canon_range_refuses_the_hole() {
    assert!(!is_canon_range(0x1000..0xFFFF_FFFF_FFFF_F000, 4));
    assert!(is_canon_range(0x1000..0x2000, 4));
    assert!(is_canon_range(0xFFFF_8000_0000_0000..0xFFFF_FFFF_FFFF_F000, 4));
    assert!(is_canon_range(0x1000..0x1000, 4));
}

#[test]
fn user_and_kernel_pages_are_apart() {
    let first_kernel = 0x000F_FFF8_0000_0000usize;
    assert!(is_canon_kernel_page(first_kernel, 4));
    assert!(!is_canon_user_page(first_kernel, 4));
    assert!(is_canon_user_page(0x7_FFFF_FFFF, 4));
    assert!(!is_canon_kernel_page(0x7_FFFF_FFFF, 4));
}

#[test]
fn map_uses_a_gap_when_the_tail_is_too_small() {
    let mut pmm = allocator();
    let zero = pmm.page_alloc(0, PageUsage::KernelAnon).unwrap();
    let mut vm = VmSpaceInner::new(&mut pmm, 3, zero).unwrap();
    let b = 0x40_0000usize;
    let e = vm
        .map(PAGE_SIZE, b + 0x10000, 0..0, FIXED | PRIVATE | ANONYMOUS, prot::READ, None, &mut pmm)
        .unwrap();
    assert_eq!(e, b + 0x10000);
    let r = vm
        .map(PAGE_SIZE, b + 0x12000, b..b + 0x13000, PRIVATE | ANONYMOUS, prot::READ, None, &mut pmm)
        .unwrap();
    assert!(b + 0x1000 <= r && r <= b + 0xE000);
}

#[test]
fn kernel_layout_refused_before_allocating() {
    let mut pmm = allocator();
    let before = pmm.page_alloc(0, PageUsage::KernelAnon).unwrap();
    pmm.page_free(before, 0);
    let layout = KernelLayout {
        text: 0xffff_ffff_8000_2000..0xffff_ffff_8000_0000,
        rodata: 0xffff_ffff_8000_2000..0xffff_ffff_8000_3000,
        data: 0xffff_ffff_8000_3000..0xffff_ffff_8000_5000,
        kernel_vaddr: 0xffff_ffff_8000_0000,
        kernel_paddr: 0x8020_0000,
        hhdm_vaddr: 0xffff_ffc0_0000_0000,
        hhdm_offset: 0xffff_ffc0_0000_0000 - 0x8000_0000,
        hhdm_size: 4 * PAGE_SIZE,
    };
    assert!(matches!(badgeros::mem::map::init(&mut pmm, 3, layout), Err(Errno::EINVAL)));
    // Nothing was allocated: the same page comes out first again.
    assert_eq!(pmm.page_alloc(0, PageUsage::KernelAnon).unwrap(), before);
}

#[test]
fn fault_refuses_access_the_region_forbids() {
    let mut pmm = allocator();
    let zero = pmm.page_alloc(0, PageUsage::KernelAnon).unwrap();
    let mut vm = VmSpaceInner::new(&mut pmm, 3, zero).unwrap();
    let a = vm
        .map(PAGE_SIZE, 0x40000, 0..0, FIXED | PRIVATE | ANONYMOUS, prot::READ, None, &mut pmm)
        .unwrap();
    let mut fences = VmFenceSet::new();
    assert_eq!(vm.fault(&mut fences, a, prot::EXEC, &mut pmm), Err(Errno::EFAULT));
    assert!(!vm.virt2phys(a).valid);
    assert_eq!(vm.fault(&mut fences, a, prot::READ, &mut pmm), Ok(()));
    assert!(vm.virt2phys(a).valid);
}

#[test]
fn fork_unmaps_writable_private_pages_of_the_parent() {
    let mut pmm = allocator();
    let zero = pmm.page_alloc(0, PageUsage::KernelAnon).unwrap();
    let mut vm = VmSpaceInner::new(&mut pmm, 3, zero).unwrap();
    let a = vm
        .map(PAGE_SIZE, 0x40000, 0..0, FIXED | PRIVATE | ANONYMOUS, prot::READ | prot::WRITE, None, &mut pmm)
        .unwrap();
    let mut fences = VmFenceSet::new();
    assert_eq!(vm.fault(&mut fences, a, prot::WRITE, &mut pmm), Ok(()));
    let parent_page = vm.virt2phys(a).paddr;
    let mut child = vm.fork(&mut pmm).unwrap();
    // The parent's page leaves its tables, so that the next write copies it.
    assert!(!vm.virt2phys(a).valid);
    // Reading from the child maps the very same page, read-only.
    assert_eq!(child.fault(&mut fences, a, prot::READ, &mut pmm), Ok(()));
    assert_eq!(child.virt2phys(a).paddr, parent_page);
    // Writing in the child copies it.
    assert_eq!(child.fault(&mut fences, a, prot::WRITE, &mut pmm), Ok(()));
    assert_ne!(child.virt2phys(a).paddr, parent_page);
}

#[test]
fn fault_maps_the_object_page_at_the_region_offset() {
    let mut pmm = allocator();
    let zero = pmm.page_alloc(0, PageUsage::KernelAnon).unwrap();
    let mut vm = VmSpaceInner::new(&mut pmm, 3, zero).unwrap();
    let obj = RawMemory::new(0x8000_0000, 4 * PAGE_SIZE);
    let m = Mapping { offset: PAGE_SIZE as u64, object: obj };
    let a = vm
        .map(2 * PAGE_SIZE, 0x40000, 0..0, FIXED | PRIVATE, prot::READ, Some(m), &mut pmm)
        .unwrap();
    let mut fences = VmFenceSet::new();
    assert_eq!(vm.fault(&mut fences, a + PAGE_SIZE + 5, prot::READ, &mut pmm), Ok(()));
    assert_eq!(vm.virt2phys(a + PAGE_SIZE).paddr, 0x8000_0000 + 2 * PAGE_SIZE);
    assert!(!vm.virt2phys(a).valid);
}

#[test]
fn fault_reads_untouched_anonymous_memory_as_zeroes() {
    let mut pmm = allocator();
    let zero = pmm.page_alloc(0, PageUsage::KernelAnon).unwrap();
    let mut vm = VmSpaceInner::new(&mut pmm, 3, zero).unwrap();
    let a = vm
        .map(PAGE_SIZE, 0x40000, 0..0, FIXED | PRIVATE | ANONYMOUS, prot::READ | prot::WRITE, None, &mut pmm)
        .unwrap();
    let mut fences = VmFenceSet::new();
    assert_eq!(vm.fault(&mut fences, a, prot::READ, &mut pmm), Ok(()));
    assert_eq!(vm.virt2phys(a).paddr, zero);
    // A write then gets a page of its own.
    assert_eq!(vm.fault(&mut fences, a, prot::WRITE, &mut pmm), Ok(()));
    assert_ne!(vm.virt2phys(a).paddr, zero);
}

#[test]
fn saturated_fence_set_has_no_pending_addresses() {
    let mut s = VmFenceSet::new();
    for i in 0..63 {
        s.add(Some(i * PAGE_SIZE), None);
    }
    let expected: Vec<usize> = (0..63).map(|i| i * PAGE_SIZE).collect();
    assert_eq!(s.pending(), expected);
    s.add(Some(63 * PAGE_SIZE), None);
    assert!(s.pending().is_empty());
    assert_eq!(s.execute(), vec![None]);
    s.add(Some(64 * PAGE_SIZE), None);
    assert!(s.pending().is_empty());
    assert_eq!(s.execute(), vec![None]);
    s.add(None, None);
    assert!(s.pending().is_empty());
    assert_eq!(s.execute(), vec![None]);
}

#[test]
fn three_allocations_take_seven_free_pages() {
    let mut pmm = allocator();
    let f0 = pmm.counters().free;
    let a = pmm.page_alloc(0, PageUsage::KernelAnon).unwrap();
    let b = pmm.page_alloc(1, PageUsage::KernelAnon).unwrap();
    let c = pmm.page_alloc(2, PageUsage::KernelAnon).unwrap();
    assert_eq!(pmm.counters().free, f0 - 7);
    assert!(a + PAGE_SIZE <= b || b + 2 * PAGE_SIZE <= a);
    assert!(a + PAGE_SIZE <= c || c + 4 * PAGE_SIZE <= a);
    assert!(b + 2 * PAGE_SIZE <= c || c + 4 * PAGE_SIZE <= b);
    assert_eq!(b % (2 * PAGE_SIZE), 0);
    assert_eq!(c % (4 * PAGE_SIZE), 0);
    assert!(!pmm.free_list_contains(a, 0));
    assert!(!pmm.free_list_contains(b, 1));
    assert!(!pmm.free_list_contains(c, 2));
    assert_eq!(pmm.page_struct(b).usage(), PageUsage::KernelAnon);
}

#[test]
fn freeing_many_pages_in_any_order_restores_the_free_count() {
    let mut pmm = allocator();
    let f0 = pmm.counters().free;
    let mut pages = Vec::new();
    for _ in 0..37 {
        pages.push(pmm.page_alloc(0, PageUsage::KernelAnon).unwrap());
    }
    assert_eq!(pmm.counters().free, f0 - 37);
    // Free every third page first, then the rest from the back.
    let mut order: Vec<usize> = (0..37).filter(|i| i % 3 == 0).collect();
    order.extend((0..37).rev().filter(|i| i % 3 != 0));
    for i in order {
        pmm.page_free(pages[i], 0);
    }
    assert_eq!(pmm.counters().free, f0);
    for p in pages {
        assert_eq!(pmm.page_struct(p).usage(), PageUsage::Free);
    }
}

#[test]
fn page_predicates_agree_with_the_address_of_the_page() {
    let vpns = [
        0usize,
        1,
        0x7_ffff_ffff,
        0x8_0000_0000,
        0xf_ffff_fff8_0000,
        0xf_ffff_ffff_ffff,
        0xfff0_0000_0000_0001,
        usize::MAX,
    ];
    for &vpn in vpns.iter() {
        for levels in 3..=5u32 {
            let a = vpn.wrapping_mul(PAGE_SIZE);
            assert_eq!(is_canon_kernel_page(vpn, levels), is_canon_kernel_addr(a, levels));
            assert_eq!(is_canon_user_page(vpn, levels), is_canon_user_addr(a, levels));
            assert_eq!(is_canon_page(vpn, levels), is_canon_addr(a, levels));
        }
    }
}

#[test]
fn unmap_leaves_other_pages_and_the_root_alone() {
    let mut pmm = allocator();
    let mut pm = PhysMap::new(&mut pmm, 3).unwrap();
    let root = pm.root();
    pm.map(&mut pmm, 0x40, 0x900, 0x7).unwrap();
    pm.map(&mut pmm, 0x41, 0x901, 0x3).unwrap();
    let before = pm.virt2phys(0x41 * PAGE_SIZE + 8);
    pm.unmap(&mut pmm, 0x40).unwrap();
    assert!(!pm.walk(0x40).valid);
    assert!(!pm.virt2phys(0x40 * PAGE_SIZE).valid);
    let after = pm.virt2phys(0x41 * PAGE_SIZE + 8);
    assert!(after.valid && before.valid);
    assert_eq!((after.paddr, after.page_paddr, after.flags), (before.paddr, before.page_paddr, before.flags));
    assert_eq!(pm.virt2phys(0x41 * PAGE_SIZE).page_paddr, 0x901 * PAGE_SIZE);
    assert_eq!(pm.root(), root);
}

#[test]
fn protect_unmaps_the_pages_it_changes() {
    let mut pmm = allocator();
    let mut vm = user_space(&mut pmm);
    let a = vm.map(4 * PAGE_SIZE, 0x10000, FIXED | PRIVATE, prot::READ | prot::WRITE, None, &mut pmm).unwrap();
    assert_eq!(vm.fault(a + PAGE_SIZE, prot::WRITE, &mut pmm), Ok(()));
    assert_eq!(vm.fault(a + 2 * PAGE_SIZE, prot::WRITE, &mut pmm), Ok(()));
    assert!(vm.virt2phys(a + PAGE_SIZE).valid);
    vm.protect(a + PAGE_SIZE..a + 2 * PAGE_SIZE, prot::READ, &mut pmm).unwrap();
    assert!(!vm.virt2phys(a + PAGE_SIZE).valid);
    assert!(vm.virt2phys(a + 2 * PAGE_SIZE).valid);
    assert_eq!(vm.fault(a + PAGE_SIZE, prot::WRITE, &mut pmm), Err(Errno::EFAULT));
    assert_eq!(vm.fault(a + PAGE_SIZE, prot::READ, &mut pmm), Ok(()));
}

#[test]
fn phys_box_maps_its_own_block() {
    let mut pmm = allocator();
    let zero = pmm.page_alloc(0, PageUsage::KernelAnon).unwrap();
    let mut k = KernelVmSpace::new(&mut pmm, 3, zero).unwrap();
    let mem = PhysBox::try_new(0x2000, false, false, &mut k, &mut pmm).unwrap();
    let start_vma = mem.vaddr();
    let start_pma = mem.paddr();
    assert_eq!(start_pma % (2 * PAGE_SIZE), 0);
    assert_eq!(mem.paddr(), start_pma);
    for i in (0..0x2000).step_by(PAGE_SIZE) {
        let v2p = k.virt2phys(start_vma + i);
        assert!(v2p.valid);
        assert!(v2p.flags & badgeros::mem::mmu::W != 0);
        assert_eq!(v2p.page_vaddr, start_vma + i);
        assert_eq!(v2p.page_paddr, start_pma + i);
    }
    // The block is taken: the next allocation of that size comes from elsewhere.
    let other = pmm.page_alloc(1, PageUsage::KernelAnon).unwrap();
    assert!(other + 2 * PAGE_SIZE <= start_pma || start_pma + 2 * PAGE_SIZE <= other);
}

#[test]
fn kernel_segments_translate_every_page() {
    let mut pmm = allocator();
    let layout = KernelLayout {
        text: 0xffff_ffff_8000_0000..0xffff_ffff_8000_2000,
        rodata: 0xffff_ffff_8000_2000..0xffff_ffff_8000_3000,
        data: 0xffff_ffff_8000_3000..0xffff_ffff_8000_5000,
        kernel_vaddr: 0xffff_ffff_8000_0000,
        kernel_paddr: 0x8020_0000,
        hhdm_vaddr: 0xffff_ffc0_0000_0000,
        hhdm_offset: 0xffff_ffc0_0000_0000 - 0x8000_0000,
        hhdm_size: 4 * PAGE_SIZE,
    };
    let (k, z) = badgeros::mem::map::init(&mut pmm, 3, layout).unwrap();
    let mut va = 0xffff_ffff_8000_0000usize;
    while va < 0xffff_ffff_8000_5000 {
        let v = k.virt2phys(va);
        assert!(v.valid);
        assert_eq!(v.page_paddr, 0x8020_0000 + (va - 0xffff_ffff_8000_0000));
        va += PAGE_SIZE;
    }
    for i in 0..4 {
        let v = k.virt2phys(0xffff_ffc0_0000_0000 + i * PAGE_SIZE);
        assert!(v.valid);
        assert_eq!(v.page_paddr, 0x8000_0000 + i * PAGE_SIZE);
    }
    assert!(z < 0xffff_ffc0_0000_0000 || z >= 0xffff_ffc0_0000_0000 + 4 * PAGE_SIZE);
}

#[test]
fn populated_mapping_is_translated_before_any_fault() {
    let mut pmm = allocator();
    let zero = pmm.page_alloc(0, PageUsage::KernelAnon).unwrap();
    let mut vm = VmSpaceInner::new(&mut pmm, 3, zero).unwrap();
    let obj = RawMemory::new(0x8000_0000, 3 * PAGE_SIZE);
    let a = vm
        .map(3 * PAGE_SIZE, 0x40000, 0..0, FIXED | POPULATE | SHARED, prot::READ, Some(Mapping { offset: 0, object: obj }), &mut pmm)
        .unwrap();
    for i in 0..3 {
        let v = vm.virt2phys(a + i * PAGE_SIZE);
        assert!(v.valid);
        assert_eq!(v.page_paddr, 0x8000_0000 + i * PAGE_SIZE);
    }
    assert!(!vm.virt2phys(a + 3 * PAGE_SIZE).valid);
}

#[test]
fn unmap_keeps_the_neighbouring_pages() {
    let mut pmm = allocator();
    let mut pm = PhysMap::new(&mut pmm, 3).unwrap();
    pm.map(&mut pmm, 0x1234, 0x5678, 0x7).unwrap();
    pm.map(&mut pmm, 0x1235, 0x9000, 0x3).unwrap();
    pm.map(&mut pmm, 0x40000, 0x9001, 0x3).unwrap();
    pm.unmap(&mut pmm, 0x1234).unwrap();
    assert!(!pm.walk(0x1234).valid);
    assert_eq!(pm.walk(0x1235), PTE { ppn: 0x9000, flags: 0x3, level: 0, valid: true, leaf: true });
    assert_eq!(pm.walk(0x40000), PTE { ppn: 0x9001, flags: 0x3, level: 0, valid: true, leaf: true });
}
