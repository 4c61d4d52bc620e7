use badgeros::errno::{EResult, Errno};
use badgeros::mem::pagecache::{fill_entry, PageCache, Pager, DIRTY};
use badgeros::mem::pmm::PhysAllocator;
use std::cell::{Cell, RefCell};

const PAGE: usize = 4096;
const BASE: usize = 0x1000_0000;
const SIZE: usize = 0x0100_0000;

fn allocator() -> PhysAllocator {
    PhysAllocator::init(BASE..BASE + SIZE, BASE..BASE + SIZE)
}

struct TestPager {
    block_size_exp: u8,
    data: RefCell<Vec<u8>>,
    reads: Cell<usize>,
    writes: Cell<usize>,
    fail: Cell<bool>,
}

impl TestPager {
    fn new(block_size_exp: u8, size: usize) -> Self {
        TestPager {
            block_size_exp,
            data: RefCell::new(vec![0; size]),
            reads: Cell::new(0),
            writes: Cell::new(0),
            fail: Cell::new(false),
        }
    }

    fn size(&self) -> u64 {
        self.data.borrow().len() as u64
    }
}

impl Pager for TestPager {
    fn read_blocks(&self, start_block: u64, block_count: usize, _paddr: usize, buf: &mut [u8]) -> EResult<()> {
        if self.fail.get() {
            return Err(Errno::ENXIO);
        }
        self.reads.set(self.reads.get() + 1);
        let bs = 1usize << self.block_size_exp;
        let start = start_block as usize * bs;
        let data = self.data.borrow();
        buf[..block_count * bs].copy_from_slice(&data[start..start + block_count * bs]);
        Ok(())
    }

    fn write_blocks(&mut self, start_block: u64, block_count: usize, _paddr: usize, buf: &[u8]) -> EResult<()> {
        if self.fail.get() {
            return Err(Errno::ENXIO);
        }
        self.writes.set(self.writes.get() + 1);
        let bs = 1usize << self.block_size_exp;
        let start = start_block as usize * bs;
        self.data.borrow_mut()[start..start + block_count * bs].copy_from_slice(&buf[..block_count * bs]);
        Ok(())
    }
}

fn read_byte(cache: &mut PageCache, pager: &TestPager, addr: u64, pmm: &mut PhysAllocator) -> u8 {
    let mut out = vec![0u8; 1];
    cache.read_bytes(pager, addr, &mut out, pmm).unwrap();
    out[0]
}

#[test]
fn pagecache_read() {
    let mut pmm = allocator();
    let mut pager = TestPager::new(12, PAGE * 4);
    pager.data.borrow_mut()[0] = 0xAB;
    pager.data.borrow_mut()[PAGE] = 0xCD;
    let mut cache = PageCache::new(pager.block_size_exp, pager.size());
    let page0 = cache.alloc_page(&pager, 0, &mut pmm).unwrap();
    assert_eq!(cache.entries[0].data[0], 0xAB);
    assert_eq!(page0.paddr(), cache.entries[0].paddr);
    let page1 = cache.alloc_page(&pager, PAGE as u64, &mut pmm).unwrap();
    assert_eq!(page1.paddr(), cache.entries[1].paddr);
    assert_eq!(cache.entries[1].data[0], 0xCD);
    assert_eq!(read_byte(&mut cache, &pager, PAGE as u64, &mut pmm), 0xCD);
}

#[test]
fn pagecache_dirty_writeback() {
    let mut pmm = allocator();
    let mut pager = TestPager::new(12, PAGE * 4);
    let mut cache = PageCache::new(pager.block_size_exp, pager.size());
    cache.alloc_page(&pager, 0, &mut pmm).unwrap();
    cache.entries[0].data[0] = 0xBE;
    cache.mark_dirty(0);
    assert!(cache.has_dirty_pages());
    cache.sync_all(&mut pager).unwrap();
    assert_eq!(pager.data.borrow()[0], 0xBE);
    assert!(!cache.has_dirty_pages());
}

#[test]
fn pagecache_no_redundant_read() {
    let mut pmm = allocator();
    let mut pager = TestPager::new(12, PAGE * 4);
    let mut cache = PageCache::new(pager.block_size_exp, pager.size());
    cache.alloc_page(&pager, 0, &mut pmm).unwrap();
    cache.release(0);
    assert_eq!(pager.reads.get(), 1);
    cache.alloc_page(&pager, 0, &mut pmm).unwrap();
    cache.release(0);
    assert_eq!(pager.reads.get(), 1);
}

#[test]
fn pagecache_no_redundant_write() {
    let mut pmm = allocator();
    let mut pager = TestPager::new(12, PAGE * 4);
    let mut cache = PageCache::new(pager.block_size_exp, pager.size());
    cache.write_bytes(&pager, 0, &[0xEF], &mut pmm).unwrap();
    cache.sync_all(&mut pager).unwrap();
    assert_eq!(pager.writes.get(), 1);
    assert_eq!(pager.data.borrow()[0], 0xEF);
    cache.sync_all(&mut pager).unwrap();
    assert_eq!(pager.writes.get(), 1);
}

#[test]
fn pagecache_flush_evicts_clean() {
    let mut pmm = allocator();
    let mut pager = TestPager::new(12, PAGE * 4);
    pager.data.borrow_mut()[0] = 0x11;
    let mut cache = PageCache::new(pager.block_size_exp, pager.size());
    cache.alloc_page(&pager, 0, &mut pmm).unwrap();
    cache.release(0);
    assert_eq!(pager.reads.get(), 1);
    cache.flush(&mut pmm);
    assert!(cache.entries.is_empty());
    cache.alloc_page(&pager, 0, &mut pmm).unwrap();
    assert_eq!(pager.reads.get(), 2);
    assert_eq!(cache.entries[0].data[0], 0x11);
}

#[test]
fn pagecache_flush_retains_dirty() {
    let mut pmm = allocator();
    let mut pager = TestPager::new(12, PAGE * 4);
    let mut cache = PageCache::new(pager.block_size_exp, pager.size());
    cache.write_bytes(&pager, 0, &[0x22], &mut pmm).unwrap();
    assert_eq!(cache.entries[0].refs, 0);
    cache.flush(&mut pmm);
    cache.alloc_page(&pager, 0, &mut pmm).unwrap();
    assert_eq!(pager.reads.get(), 1);
    assert_eq!(cache.entries[0].data[0], 0x22);
    cache.sync_all(&mut pager).unwrap();
}

#[test]
fn pagecache_flush_retains_referenced() {
    let mut pmm = allocator();
    let mut pager = TestPager::new(12, PAGE * 4);
    pager.data.borrow_mut()[0] = 0x33;
    let mut cache = PageCache::new(pager.block_size_exp, pager.size());
    cache.alloc_page(&pager, 0, &mut pmm).unwrap();
    cache.flush(&mut pmm);
    assert_eq!(cache.entries.len(), 1);
    assert_eq!(pager.reads.get(), 1);
    assert_eq!(cache.entries[0].data[0], 0x33);
}

#[test]
fn pagecache_small_block_cross_entry_read() {
    let mut pmm = allocator();
    let mut pager = TestPager::new(9, PAGE * 2);
    pager.data.borrow_mut()[0] = 0xAA;
    pager.data.borrow_mut()[PAGE] = 0xBB;
    let mut cache = PageCache::new(9, pager.size());
    assert_eq!(read_byte(&mut cache, &pager, 0, &mut pmm), 0xAA);
    assert_eq!(read_byte(&mut cache, &pager, PAGE as u64, &mut pmm), 0xBB);
    assert_eq!(pager.reads.get(), 2);
}

#[test]
fn pagecache_large_block_intra_entry_pages() {
    let mut pmm = allocator();
    let mut pager = TestPager::new(13, PAGE * 2);
    pager.data.borrow_mut()[0] = 0xCC;
    pager.data.borrow_mut()[PAGE] = 0xDD;
    let mut cache = PageCache::new(13, pager.size());
    let p0 = cache.alloc_page(&pager, 0, &mut pmm).unwrap();
    let p1 = cache.alloc_page(&pager, PAGE as u64, &mut pmm).unwrap();
    assert_eq!(p1.paddr(), p0.paddr() + PAGE);
    assert_eq!(read_byte(&mut cache, &pager, 0, &mut pmm), 0xCC);
    assert_eq!(read_byte(&mut cache, &pager, PAGE as u64, &mut pmm), 0xDD);
    assert_eq!(pager.reads.get(), 1);
}

#[test]
fn pagecache_small_block_dirty_writeback_second_entry() {
    let mut pmm = allocator();
    let mut pager = TestPager::new(9, PAGE * 2);
    let mut cache = PageCache::new(9, pager.size());
    cache.write_bytes(&pager, PAGE as u64, &[0xBE], &mut pmm).unwrap();
    cache.sync_all(&mut pager).unwrap();
    assert_eq!(pager.data.borrow()[PAGE], 0xBE);
    assert_eq!(pager.writes.get(), 1);
}

#[test]
fn pagecache_geometry() {
    let small = PageCache::new(9, 10_000);
    assert_eq!(small.entry_pages_exp, 0);
    assert_eq!(small.entry_blocks_exp, 3);
    assert_eq!(small.index(2 * PAGE as u64), (2, 0));
    // 10000 bytes are 20 blocks of 512, the last in part; entry 2 holds blocks 16..20.
    assert_eq!(small.block_range(2), (16, 20));
    assert_eq!(small.block_range(1), (8, 16));
    let large = PageCache::new(14, 1 << 20);
    assert_eq!(large.entry_pages_exp, 2);
    assert_eq!(large.entry_blocks_exp, 0);
    assert_eq!(large.index(5 * PAGE as u64), (1, 1));
    assert_eq!(large.block_range(3), (3, 4));
}

#[test]
fn pagecache_tail_is_zero_filled() {
    let mut pmm = allocator();
    let mut pager = TestPager::new(9, PAGE);
    for b in pager.data.borrow_mut().iter_mut() {
        *b = 0x5A;
    }
    // The object ends 100 bytes into its only page.
    let mut cache = PageCache::new(9, 100);
    cache.alloc_page(&pager, 0, &mut pmm).unwrap();
    assert_eq!(cache.entries[0].data[99], 0x5A);
    assert_eq!(cache.entries[0].data[100], 0);
    assert_eq!(cache.entries[0].data[PAGE - 1], 0);
    assert_eq!(fill_entry(&[1, 2, 3], 2, 4), vec![1, 2, 0, 0]);
}

#[test]
fn pagecache_read_error_leaves_cache_and_memory() {
    let mut pmm = allocator();
    let mut pager = TestPager::new(12, PAGE * 2);
    let mut cache = PageCache::new(12, pager.size());
    let before = pmm.page_alloc(0, badgeros::mem::pmm::PageUsage::KernelAnon).unwrap();
    pmm.page_free(before, 0);
    pager.fail.set(true);
    assert_eq!(cache.alloc_page(&pager, 0, &mut pmm).err(), Some(Errno::ENXIO));
    assert!(cache.entries.is_empty());
    // The page handed out for the failed read came back: the next allocation gets it again.
    let again = pmm.page_alloc(0, badgeros::mem::pmm::PageUsage::KernelAnon).unwrap();
    assert_eq!(again, before);
}

#[test]
fn pagecache_sync_range_and_write_error() {
    let mut pmm = allocator();
    let mut pager = TestPager::new(12, PAGE * 4);
    let mut cache = PageCache::new(12, pager.size());
    cache.write_bytes(&pager, 0, &[1], &mut pmm).unwrap();
    cache.write_bytes(&pager, 2 * PAGE as u64, &[3], &mut pmm).unwrap();
    // Bytes 0..=4096 cover entries 0 and 1; only entry 0 is dirty there.
    cache.sync(&mut pager, 0, PAGE as u64 + 1).unwrap();
    assert_eq!(pager.writes.get(), 1);
    assert_eq!(cache.entries[0].flags, 0);
    assert_eq!(cache.entries[1].flags, DIRTY);
    pager.fail.set(true);
    assert_eq!(cache.sync_all(&mut pager), Err(Errno::ENXIO));
    assert_eq!(cache.entries[1].flags, DIRTY);
}

#[test]
fn pagecache_teardown_counts() {
    let mut pmm = allocator();
    let mut pager = TestPager::new(12, PAGE * 4);
    let mut cache = PageCache::new(12, pager.size());
    cache.alloc_page(&pager, 0, &mut pmm).unwrap();
    cache.write_bytes(&pager, PAGE as u64, &[7], &mut pmm).unwrap();
    cache.alloc_page(&pager, 2 * PAGE as u64, &mut pmm).unwrap();
    cache.release(2 * PAGE as u64);
    assert_eq!(cache.teardown(&mut pmm), (1, 1));
}

#[test]
fn pagecache_write_then_read_back() {
    let mut pmm = allocator();
    let mut pager = TestPager::new(9, PAGE * 3);
    let mut cache = PageCache::new(9, pager.size());
    let data: Vec<u8> = (0..6000u32).map(|i| (i % 251) as u8).collect();
    cache.write_bytes(&pager, 100, &data, &mut pmm).unwrap();
    let mut out = vec![0u8; 6000];
    cache.read_bytes(&pager, 100, &mut out, &mut pmm).unwrap();
    assert_eq!(out, data);
    cache.sync_all(&mut pager).unwrap();
    assert_eq!(&pager.data.borrow()[100..6100], &data[..]);
}
