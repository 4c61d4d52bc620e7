//! Virtual address spaces: sorted lists of mapped regions, backed lazily by page faults.
use vstd::prelude::*;
use vstd::pervasive::VecAdditionalExecFns;
use crate::config::PAGE_SIZE;
use crate::errno::{Errno, EResult};
use crate::mem::memobject::{MappablePage, MemObject, RawMemory};
use crate::mem::physmap::{PhysMap, Virt2Phys, leaf_fits, levels_ok, half_size, canon_user_range, is_superpage, walk_kept, apart_from, differs_above, lemma_walk_kept_trans};
use crate::mem::physmap;
use crate::mem::pmm::{PhysAllocator, PageUsage, block_set, last_of, lowest_from, lemma_free_in_range, lemma_range_fits, allocated_from};
use crate::mem::arith::lemma_page_div;
use vstd::arithmetic::power2::*;
use crate::mem::prot;
use crate::mem::mmu;
use crate::mem::vmfence::VmFenceSet;

verus! {

/// Mapping is shared (written back to memory object and not CoW'ed on fork).
pub const SHARED: u32 = 0x01;
/// Mapping is private (memory object read-only and CoW'ed on fork).
pub const PRIVATE: u32 = 0x02;
/// Replace the mapping at the given address if it exists.
pub const FIXED: u32 = 0x10;
/// Anonymous mapping (doesn't have an associated file descriptor).
pub const ANONYMOUS: u32 = 0x20;
/// Deny writes (as done by exec).
pub const DENYWRITE: u32 = 0x40;
/// Mapping must be populated immediately.
pub const POPULATE: u32 = 0x8000;
/// Kernel mapping need not be populated immediately; has no effect on user mappings.
/// If omitted, the mapping is forced to be [`SHARED`] and [`POPULATE`].
pub const LAZY_KERNEL: u32 = 0x8000_0000;

/// Margin in bytes between mappings that a non-fixed mapping keeps.
pub const MAP_MARGIN: usize = 4096;

/// Specification for how to map a memory object.
#[derive(Clone, Copy, Debug)]
pub struct Mapping {
    /// Page-aligned byte offset within the memory object.
    pub offset: u64,
    /// The memory object to map.
    pub object: RawMemory,
}

/// A resident page of anonymous memory; `shared` while another address space may still map it.
#[derive(Clone, Copy, Debug)]
struct AnonPage {
    paddr: usize,
    shared: bool,
}

/// The anonymous pages of a region that were copied on write or created by writes.
#[derive(Debug)]
struct AnonMap {
    /// Page-aligned byte offset of the first page within the parent [`MapEntry`].
    offset: usize,
    /// Resident pages of this region.
    pages: Vec<Option<AnonPage>>,
    /// Whether another address space shares this map (copy on write is pending).
    shared: bool,
}

/// Anonymous pages are page-aligned, non-zero physical addresses.
spec fn anon_ok(p: Option<AnonPage>) -> bool {
    p matches Some(a) ==> a.paddr != 0 && a.paddr % PAGE_SIZE == 0
}

impl AnonMap {
    spec fn wf(&self) -> bool {
        &&& self.offset % PAGE_SIZE == 0
        &&& forall|i: int| 0 <= i < self.pages@.len() ==> anon_ok(#[trigger] self.pages@[i])
    }

    /// Split this map into two starting at `offset`: everything below the map's own offset stays
    /// in the second half; otherwise the first half is left empty and the second half takes all
    /// pages with `offset` as its offset.
    fn split(&self, offset: usize) -> (r: (Option<AnonMap>, Option<AnonMap>))
        requires
            self.wf(),
            offset % PAGE_SIZE == 0,
        ensures
            r.0 matches Some(a) ==> a.wf(),
            r.1 matches Some(a) ==> a.wf(),
            offset < self.offset ==> (r.0 is None && r.1 is Some && r.1->Some_0.offset == self.offset
                && r.1->Some_0.pages@ == self.pages@ && r.1->Some_0.shared == self.shared),
            offset == self.offset ==> (r.1 is None && r.0 is Some && r.0->Some_0.offset == self.offset
                && r.0->Some_0.pages@ == self.pages@ && r.0->Some_0.shared == self.shared),
            offset > self.offset ==> (r.0 is Some && r.0->Some_0.offset == self.offset && r.0->Some_0.pages@.len() == 0
                && r.1 is Some && r.1->Some_0.offset == offset && r.1->Some_0.pages@ == self.pages@),
    {
        let copy = AnonMap { offset: self.offset, pages: copy_pages(&self.pages), shared: self.shared };
        if offset < self.offset {
            return (None, Some(copy));
        }
        if offset == self.offset {
            return (Some(copy), None);
        }
        let first = AnonMap { offset: self.offset, pages: Vec::new(), shared: self.shared };
        let second = AnonMap { offset, pages: copy.pages, shared: self.shared };
        (Some(first), Some(second))
    }

    /// Make this map the region's own: a copy of a shared map whose pages all stay shared.
    fn unshare(&mut self)
        requires
            old(self).wf(),
        ensures
            final(self).wf(),
            !final(self).shared,
            final(self).offset == old(self).offset,
            final(self).pages@.len() == old(self).pages@.len(),
            forall|o: usize| #[trigger] final(self).get_page_spec(o) is Some <==> old(self).get_page_spec(o) is Some,
            forall|o: usize| #[trigger] old(self).get_page_spec(o) is Some ==> final(self).get_page_spec(o).unwrap().0
                == old(self).get_page_spec(o).unwrap().0,
    {
        let mut i: usize = 0;
        while i < self.pages.len()
            invariant
                self.wf(),
                i <= self.pages@.len(),
                self.offset == old(self).offset,
                self.pages@.len() == old(self).pages@.len(),
                forall|j: int| 0 <= j < self.pages@.len() ==> (#[trigger] self.pages@[j] is Some <==> old(self).pages@[j] is Some),
                forall|j: int| 0 <= j < self.pages@.len() && #[trigger] self.pages@[j] is Some ==> self.pages@[j]->0.paddr
                    == old(self).pages@[j]->0.paddr,
            decreases self.pages@.len() - i,
        {
            match self.pages[i] {
                Some(a) => {
                    self.pages.set(i, Some(AnonPage { paddr: a.paddr, shared: true }));
                    assert(anon_ok(self.pages@[i as int]));
                },
                None => {},
            }
            i = i + 1;
        }
        self.shared = false;
    }

    /// Index of the page slot for byte offset `offset` of the parent region, if it has one.
    fn index_of(&self, offset: usize) -> (r: Option<usize>)
        ensures
            r matches Some(i) ==> offset >= self.offset && i == (offset - self.offset) / PAGE_SIZE as int && i
                < self.pages@.len(),
            r is None ==> offset < self.offset || (offset - self.offset) / PAGE_SIZE as int >= self.pages@.len(),
    {
        if offset < self.offset {
            return None;
        }
        let page_index = (offset - self.offset) / PAGE_SIZE;
        if page_index >= self.pages.len() {
            return None;
        }
        Some(page_index)
    }

    /// Get the page currently mapped at `offset`; it is writable only while no other address
    /// space shares it.
    fn get_page(&self, offset: usize) -> (r: Option<MappablePage>)
        requires
            self.wf(),
        ensures
            r matches Some(p) ==> offset >= self.offset && {
                let i = (offset - self.offset) / PAGE_SIZE as int;
                &&& 0 <= i < self.pages@.len()
                &&& self.pages@[i] matches Some(a) && p.spec_paddr() == a.paddr && p.spec_writable() == !a.shared
                &&& !p.spec_refcounted() && !p.spec_tracks_dirty()
            },
            r is None ==> offset < self.offset || (offset - self.offset) / PAGE_SIZE as int >= self.pages@.len()
                || self.pages@[(offset - self.offset) / PAGE_SIZE as int] is None,
    {
        let page_index = match self.index_of(offset) {
            Some(i) => i,
            None => {
                return None;
            },
        };
        match self.pages[page_index] {
            Some(a) => {
                assert(anon_ok(self.pages@[page_index as int]));
                Some(MappablePage::new(a.paddr, false, !a.shared, false))
            },
            None => None,
        }
    }

    /// Get or allocate the page at `offset`, growing the map page by page to cover it.
    fn alloc_page(&mut self, offset: usize, pmm: &mut PhysAllocator) -> (r: EResult<MappablePage>)
        requires
            old(self).wf(),
            old(pmm).wf(),
            // A `MappablePage` cannot name physical page 0, so no page may come from there.
            old(pmm).range_start() > 0,
            offset % PAGE_SIZE == 0,
            offset + PAGE_SIZE <= usize::MAX,
        ensures
            final(self).wf(),
            final(pmm).wf(),
            final(pmm).range_start() == old(pmm).range_start(),
            final(pmm).range_end() == old(pmm).range_end(),
            allocated_from(*old(pmm), *final(pmm)),
            r is Err ==> r == Err::<MappablePage, Errno>(Errno::ENOMEM) && lowest_from(final(pmm).free_blocks(), 0) == 64,
            r matches Ok(p) ==> p.spec_writable() && !p.spec_refcounted() && !p.spec_tracks_dirty()
                && final(self).get_page_spec(offset) == Some((p.spec_paddr(), false)),
            final(self).shared == old(self).shared,
            forall|o: usize| o % PAGE_SIZE == 0 && o != offset ==> #[trigger] final(self).get_page_spec(o) == old(self).get_page_spec(o),
    {
        if self.pages.len() == 0 || offset < self.offset || (offset - self.offset) / PAGE_SIZE >= self.pages.len() {
            self.cover(offset);
        }
        let idx = (offset - self.offset) / PAGE_SIZE;
        let ghost p0 = *pmm;
        let new_page = match pmm.page_alloc(0, PageUsage::UserAnon) {
            Ok(p) => p,
            Err(e) => {
                return Err(e);
            },
        };
        proof {
            let s = lowest_from(p0.free_blocks(), 0);
            let bp = p0.free_blocks()[last_of(p0.free_blocks(), s as u8)].ppn as int;
            assert(pow2(0) == 1) by {
                lemma2_to64();
            }
            assert(block_set(bp, 0).contains(bp));
            lemma_free_in_range(p0, bp);
            lemma_page_div(bp, PAGE_SIZE as int);
        }
        let ghost before_set = *self;
        self.pages.set(idx, Some(AnonPage { paddr: new_page, shared: false }));
        proof {
            assert forall|o: usize| o % PAGE_SIZE == 0 && o != offset implies #[trigger] self.get_page_spec(o)
                == old(self).get_page_spec(o) by {
                if o >= self.offset && (o - self.offset) / PAGE_SIZE as int == idx {
                    assert(o == offset) by (nonlinear_arith)
                        requires
                            (o - self.offset) / 4096 == (offset - self.offset) / 4096,
                            o >= self.offset,
                            offset >= self.offset,
                            o % 4096 == 0,
                            offset % 4096 == 0,
                            self.offset % 4096 == 0,
                    ;
                }
                assert(self.get_page_spec(o) == before_set.get_page_spec(o));
                if old(self).get_page_spec(o) is None {
                    assert(before_set.get_page_spec(o) is None);
                }
            }
        }
        Ok(MappablePage::new(new_page, false, true, false))
    }

    /// Grow the map so that it has a slot for the page at `offset`.
    fn cover(&mut self, offset: usize)
        requires
            old(self).wf(),
            offset % PAGE_SIZE == 0,
            offset + PAGE_SIZE <= usize::MAX,
        ensures
            final(self).wf(),
            offset >= final(self).offset,
            ((offset - final(self).offset) / PAGE_SIZE as int) < final(self).pages@.len(),
            forall|o: usize| #[trigger] old(self).get_page_spec(o) is Some ==> final(self).get_page_spec(o) == old(self).get_page_spec(o),
            forall|o: usize| #[trigger] old(self).get_page_spec(o) is None ==> final(self).get_page_spec(o) is None,
            forall|o: usize| #[trigger] final(self).get_page_spec(o) == old(self).get_page_spec(o),
            final(self).shared == old(self).shared,
    {
        let ghost a = *self;
        if self.pages.len() == 0 {
            self.offset = offset;
            self.pages.push(None);
            assert(forall|i: int| 0 <= i < self.pages@.len() ==> anon_ok(#[trigger] self.pages@[i]));
            assert forall|o: usize| #[trigger] self.get_page_spec(o) is None by {
                if o >= self.offset && ((o - self.offset) / PAGE_SIZE as int) < self.pages@.len() {
                    assert(self.pages@[(o - self.offset) / PAGE_SIZE as int] is None);
                }
            }
        } else if offset < self.offset {
            let shift = (self.offset - offset) / PAGE_SIZE;
            let mut fresh: Vec<Option<AnonPage>> = Vec::new();
            let mut k: usize = 0;
            while k < shift
                invariant
                    k <= shift,
                    fresh@.len() == k,
                    forall|i: int| 0 <= i < fresh@.len() ==> #[trigger] fresh@[i] is None,
                decreases shift - k,
            {
                fresh.push(None);
                k = k + 1;
            }
            let mut i: usize = 0;
            while i < self.pages.len()
                invariant
                    i <= self.pages@.len(),
                    self.wf(),
                    self.shared == a.shared,
                    fresh@.len() == shift + i,
                    forall|j: int| 0 <= j < shift ==> #[trigger] fresh@[j] is None,
                    forall|j: int| 0 <= j < i ==> #[trigger] fresh@[shift + j] == self.pages@[j],
                decreases self.pages@.len() - i,
            {
                fresh.push(self.pages[i]);
                i = i + 1;
            }
            proof {
                assert(offset + shift * PAGE_SIZE == a.offset) by (nonlinear_arith)
                    requires
                        shift == (a.offset - offset) / PAGE_SIZE as int,
                        offset < a.offset,
                        offset % 4096 == 0,
                        a.offset % 4096 == 0,
                        PAGE_SIZE == 4096,
                ;
            }
            self.pages = fresh;
            self.offset = offset;
            proof {
                assert forall|i: int| 0 <= i < self.pages@.len() implies anon_ok(#[trigger] self.pages@[i]) by {
                    if i >= shift {
                        assert(self.pages@[shift + (i - shift)] == a.pages@[i - shift]);
                        assert(anon_ok(a.pages@[i - shift]));
                    }
                }
                assert forall|o: usize| #[trigger] a.get_page_spec(o) is Some implies self.get_page_spec(o) == a.get_page_spec(o) by {
                    assert((o - offset) / PAGE_SIZE as int == (o - a.offset) / PAGE_SIZE as int + shift) by (nonlinear_arith)
                        requires
                            o >= a.offset,
                            offset + shift * PAGE_SIZE == a.offset,
                            PAGE_SIZE == 4096,
                    ;
                    let j = (o - a.offset) / PAGE_SIZE as int;
                    assert(self.pages@[shift + j] == a.pages@[j]);
                }
                assert forall|o: usize| #[trigger] a.get_page_spec(o) is None implies self.get_page_spec(o) is None by {
                    if o >= offset && ((o - offset) / PAGE_SIZE as int) < self.pages@.len() {
                        let i = (o - offset) / PAGE_SIZE as int;
                        if i >= shift {
                            assert(o >= a.offset && (o - a.offset) / PAGE_SIZE as int == i - shift) by (nonlinear_arith)
                                requires
                                    i == (o - offset) / 4096,
                                    i >= shift,
                                    offset + shift * 4096 == a.offset,
                                    o >= offset,
                                    PAGE_SIZE == 4096,
                            ;
                            assert(self.pages@[shift + (i - shift)] == a.pages@[i - shift]);
                        } else {
                            assert(self.pages@[i] is None);
                        }
                    }
                }
            }
        } else {
            let need = (offset - self.offset) / PAGE_SIZE + 1;
            while self.pages.len() < need
                invariant
                    self.offset == a.offset,
                    self.shared == a.shared,
                    self.offset % PAGE_SIZE == 0,
                    forall|j: int| 0 <= j < a.pages@.len() ==> #[trigger] self.pages@[j] == a.pages@[j],
                    forall|j: int| a.pages@.len() <= j < self.pages@.len() ==> #[trigger] self.pages@[j] is None,
                    a.pages@.len() <= self.pages@.len(),
                    forall|j: int| 0 <= j < self.pages@.len() ==> anon_ok(#[trigger] self.pages@[j]),
                decreases need - self.pages@.len(),
            {
                self.pages.push(None);
            }
            assert forall|o: usize| #[trigger] a.get_page_spec(o) is None implies self.get_page_spec(o) is None by {
                if o >= self.offset && ((o - self.offset) / PAGE_SIZE as int) < self.pages@.len() {
                    let i = (o - self.offset) / PAGE_SIZE as int;
                    if i < a.pages@.len() {
                        assert(self.pages@[i] == a.pages@[i]);
                    } else {
                        assert(self.pages@[i] is None);
                    }
                }
            }
        }
        proof {
            assert forall|o: usize| #[trigger] self.get_page_spec(o) == a.get_page_spec(o) by {
                if a.get_page_spec(o) is Some {
                    assert(self.get_page_spec(o) == a.get_page_spec(o));
                } else {
                    assert(self.get_page_spec(o) is None);
                }
            }
        }
    }

    /// Drop the pages at byte offsets `cut` and beyond of the parent region.
    fn clear_from(&mut self, cut: usize)
        requires
            old(self).wf(),
            cut > old(self).offset,
            cut % PAGE_SIZE == 0,
        ensures
            final(self).wf(),
            final(self).offset == old(self).offset,
            final(self).shared == old(self).shared,
            forall|o: usize| #[trigger] final(self).get_page_spec(o) == if o >= cut {
                None
            } else {
                old(self).get_page_spec(o)
            },
    {
        let first = (cut - self.offset) / PAGE_SIZE;
        let mut i: usize = first;
        while i < self.pages.len()
            invariant
                self.wf(),
                self.offset == old(self).offset,
                self.shared == old(self).shared,
                self.pages@.len() == old(self).pages@.len(),
                first <= i,
                forall|j: int| 0 <= j < first ==> #[trigger] self.pages@[j] == old(self).pages@[j],
                forall|j: int| first <= j < i && j < self.pages@.len() ==> #[trigger] self.pages@[j] is None,
                forall|j: int| i <= j < self.pages@.len() ==> #[trigger] self.pages@[j] == old(self).pages@[j],
            decreases self.pages@.len() - i,
        {
            self.pages.set(i, None);
            i = i + 1;
        }
        proof {
            assert forall|o: usize| #[trigger] self.get_page_spec(o) == if o >= cut {
                None
            } else {
                old(self).get_page_spec(o)
            } by {
                if o >= self.offset {
                    let k = (o - self.offset) / PAGE_SIZE as int;
                    assert(o >= cut <==> k >= first) by (nonlinear_arith)
                        requires
                            k == (o - self.offset) / 4096,
                            first == (cut - self.offset) / 4096,
                            (cut - self.offset) % 4096 == 0,
                            o >= self.offset,
                            cut > self.offset,
                    ;
                }
            }
        }
    }

    /// The page at byte offset `offset` of the parent region and whether it is shared.
    spec fn get_page_spec(&self, offset: usize) -> Option<(usize, bool)> {
        if offset >= self.offset && ((offset - self.offset) / PAGE_SIZE as int) < self.pages@.len() {
            match self.pages@[(offset - self.offset) / PAGE_SIZE as int] {
                Some(a) => Some((a.paddr, a.shared)),
                None => None,
            }
        } else {
            None
        }
    }
}

/// The page full of zeroes at physical address `zeroes`, mapped read-only.
fn zeroes_page(zeroes: usize) -> (r: MappablePage)
    requires
        zeroes != 0,
        zeroes % PAGE_SIZE == 0,
    ensures
        r.spec_paddr() == zeroes,
        !r.spec_writable(),
        !r.spec_refcounted(),
        !r.spec_tracks_dirty(),
{
    MappablePage::new(zeroes, false, false, false)
}

/// Byte offset within the memory object of the page at byte offset `offset` of a region.
pub open spec fn object_offset(m: Mapping, offset: usize) -> int {
    m.offset + offset
}

/// The page of the memory object at byte offset `offset` of a region, if the object has one there.
fn object_page_offset(m: &Mapping, offset: usize) -> (r: Option<u64>)
    ensures
        r matches Some(o) ==> o == object_offset(*m, offset) && o < m.object.spec_len(),
        r is None ==> object_offset(*m, offset) >= m.object.spec_len(),
{
    let len = m.object.len();
    if m.offset >= len || offset as u64 >= len - m.offset {
        None
    } else {
        Some(m.offset + offset as u64)
    }
}

/// One contiguous range of mapped memory with the same protection and mapping flags.
#[derive(Debug)]
pub struct MapEntryInner {
    /// Region protection flags.
    prot_flags: u8,
    /// Region mapping flags.
    map_flags: u32,
    /// Anonymous memory overlay.
    amap: Option<AnonMap>,
    /// Memory object mapped here.
    mapping: Option<Mapping>,
}

impl MapEntryInner {
    spec fn wf(&self) -> bool {
        &&& self.amap matches Some(a) ==> a.wf()
        &&& self.mapping matches Some(m) ==> m.offset % (PAGE_SIZE as u64) == 0
    }

    /// Address of the anonymous page at byte offset `offset` of the region, if it has one.
    spec fn anon_paddr(&self, offset: usize) -> Option<usize> {
        match self.amap {
            Some(a) => match a.get_page_spec(offset) {
                Some(p) => Some(p.0),
                None => None,
            },
            None => None,
        }
    }

    /// Drop the anonymous pages at byte offsets `cut` and beyond; a map that other address
    /// spaces share is copied first, so that theirs keeps its pages.
    fn evict_from(&mut self, cut: usize)
        requires
            old(self).wf(),
            cut % PAGE_SIZE == 0,
        ensures
            final(self).wf(),
            final(self).prot_flags == old(self).prot_flags,
            final(self).map_flags == old(self).map_flags,
            final(self).mapping == old(self).mapping,
            forall|o: usize| #[trigger] final(self).anon_paddr(o) == if o >= cut {
                None
            } else {
                old(self).anon_paddr(o)
            },
    {
        let drop_all = match &self.amap {
            Some(a) => cut <= a.offset,
            None => false,
        };
        if drop_all {
            proof {
                let a = self.amap->Some_0;
                assert forall|o: usize| o < cut implies #[trigger] a.get_page_spec(o) is None by {}
            }
            self.amap = None;
        } else {
            match self.amap.take() {
                Some(mut a) => {
                    if a.shared {
                        a.unshare();
                    }
                    a.clear_from(cut);
                    self.amap = Some(a);
                },
                None => {},
            }
        }
    }

    /// Split this entry into two starting at `offset` within this mapping.
    fn split(&self, offset: usize) -> (r: (Self, Self))
        requires
            self.wf(),
            offset % PAGE_SIZE == 0,
        ensures
            r.0.wf(),
            r.1.wf(),
            r.0.prot_flags == self.prot_flags && r.1.prot_flags == self.prot_flags,
            r.0.map_flags == self.map_flags && r.1.map_flags == self.map_flags,
            r.0.mapping == self.mapping && r.1.mapping == self.mapping,
    {
        let (amap0, amap1) = match &self.amap {
            Some(amap) => amap.split(offset),
            None => (None, None),
        };
        let first = MapEntryInner {
            prot_flags: self.prot_flags,
            map_flags: self.map_flags,
            amap: amap0,
            mapping: self.mapping,
        };
        let second = MapEntryInner {
            prot_flags: self.prot_flags,
            map_flags: self.map_flags,
            amap: amap1,
            mapping: self.mapping,
        };
        (first, second)
    }

    /// The physical address of the page backing byte offset `offset` of the region and whether
    /// it may be written: the anonymous page if there is one (writable only while nobody shares
    /// it or the map), else the memory object's page (writable for shared mappings), else the
    /// page of zeroes at `zeroes`, read-only; `None` past the end of the memory object.
    spec fn page_spec(&self, offset: usize, zeroes: usize) -> Option<(usize, bool)> {
        if self.amap is Some && self.amap->Some_0.get_page_spec(offset) is Some {
            let a = self.amap->Some_0;
            let pg = a.get_page_spec(offset)->Some_0;
            Some((pg.0, !pg.1 && !a.shared))
        } else if self.mapping is Some {
            let m = self.mapping->Some_0;
            if object_offset(m, offset) < m.object.spec_len() {
                Some(((m.object.spec_paddr() + object_offset(m, offset)) as usize, self.map_flags & SHARED != 0))
            } else {
                None
            }
        } else {
            Some((zeroes, false))
        }
    }

    /// Get the page currently backing byte offset `offset` of the region: the anonymous page if
    /// there is one (writable only while nobody shares it), else the memory object's page
    /// (read-only for private mappings), else the page of zeroes.
    fn get_page(&self, offset: usize, zeroes: usize) -> (r: Option<MappablePage>)
        requires
            self.wf(),
            offset % PAGE_SIZE == 0,
            zeroes != 0,
            zeroes % PAGE_SIZE == 0,
        ensures
            r is None <==> self.page_spec(offset, zeroes) is None,
            r matches Some(p) ==> {
                &&& p.spec_paddr() == self.page_spec(offset, zeroes)->Some_0.0
                &&& p.spec_writable() == self.page_spec(offset, zeroes)->Some_0.1
                &&& !p.spec_refcounted()
                &&& !p.spec_tracks_dirty()
            },
            r matches Some(p) ==> (p.spec_writable() ==> (self.amap is Some && !self.amap->Some_0.shared) || (
            self.mapping is Some && self.map_flags & SHARED != 0)),
    {
        if let Some(amap) = &self.amap {
            if let Some(page) = amap.get_page(offset) {
                let mut page = page;
                if amap.shared {
                    page.clear_writable();
                }
                return Some(page);
            }
        }
        match &self.mapping {
            Some(m) => {
                let off = match object_page_offset(m, offset) {
                    Some(o) => o,
                    None => {
                        return None;
                    },
                };
                assert(off % (PAGE_SIZE as u64) == 0) by (nonlinear_arith)
                    requires
                        off == m.offset + offset,
                        m.offset % 4096 == 0,
                        offset % 4096 == 0,
                        PAGE_SIZE == 4096,
                ;
                let mut page = match m.object.get(off) {
                    Some(p) => p,
                    None => {
                        return None;
                    },
                };
                if self.map_flags & SHARED == 0 {
                    page.clear_writable();
                }
                Some(page)
            },
            None => Some(zeroes_page(zeroes)),
        }
    }

    /// Get or allocate the page at `offset`; a page for writing to a private mapping is a fresh
    /// anonymous page.
    fn alloc_page(&mut self, offset: usize, for_writing: bool, zeroes: usize, pmm: &mut PhysAllocator) -> (r:
        EResult<MappablePage>)
        requires
            old(self).wf(),
            old(pmm).wf(),
            // A `MappablePage` cannot name physical page 0, so no page may come from there.
            old(pmm).range_start() > 0,
            offset % PAGE_SIZE == 0,
            offset + PAGE_SIZE <= usize::MAX,
            zeroes != 0,
            zeroes % PAGE_SIZE == 0,
        ensures
            final(self).wf(),
            final(pmm).wf(),
            final(pmm).range_start() == old(pmm).range_start(),
            final(pmm).range_end() == old(pmm).range_end(),
            allocated_from(*old(pmm), *final(pmm)),
            final(self).prot_flags == old(self).prot_flags,
            final(self).map_flags == old(self).map_flags,
            final(self).mapping == old(self).mapping,
            r is Err ==> r == Err::<MappablePage, Errno>(Errno::ENOMEM) || r == Err::<MappablePage, Errno>(Errno::EFAULT),
            r == Err::<MappablePage, Errno>(Errno::ENOMEM) ==> lowest_from(final(pmm).free_blocks(), 0) == 64,
            r == Err::<MappablePage, Errno>(Errno::EFAULT) ==> (old(self).mapping matches Some(m)
                && object_offset(m, offset) >= m.object.spec_len()),
            r matches Ok(p) ==> (for_writing ==> p.spec_writable()),
            r matches Ok(p) ==> final(self).page_spec(offset, zeroes) matches Some(b) && b.0 == p.spec_paddr(),
            forall|o: usize| o % PAGE_SIZE == 0 && o != offset ==> #[trigger] final(self).anon_paddr(o) == old(self).anon_paddr(o),
    {
        let existing = match &self.amap {
            Some(amap) => amap.get_page(offset),
            None => None,
        };
        match existing {
            Some(page) => {
                let mut page = page;
                if self.amap.as_ref().unwrap().shared {
                    page.clear_writable();
                }
                if !for_writing || page.writable() {
                    return Ok(page);
                }
            },
            None => {
                // Page is not cached, get it from the memory object.
                let mut page = match &self.mapping {
                    Some(m) => {
                        let off = match object_page_offset(m, offset) {
                            Some(o) => o,
                            None => {
                                return Err(Errno::EFAULT);
                            },
                        };
                        assert(off % (PAGE_SIZE as u64) == 0) by (nonlinear_arith)
                            requires
                                off == m.offset + offset,
                                m.offset % 4096 == 0,
                                offset % 4096 == 0,
                                PAGE_SIZE == 4096,
                        ;
                        match m.object.alloc_page(off) {
                            Ok(p) => p,
                            Err(e) => {
                                return Err(e);
                            },
                        }
                    },
                    None => zeroes_page(zeroes),
                };
                if !for_writing || ((self.map_flags & SHARED) != 0 && self.mapping.is_some()) {
                    // Page can be immediately mapped given for the given access type.
                    if (self.map_flags & SHARED) == 0 {
                        page.clear_writable();
                    }
                    return Ok(page);
                }
            },
        }
        // The page shall be a new anonymous page; make sure this region's map is its own.
        let ghost e0 = *self;
        let mut amap = match self.amap.take() {
            Some(a) => a,
            None => AnonMap { offset: 0, pages: Vec::new(), shared: false },
        };
        let ghost a0 = amap;
        proof {
            assert forall|o: usize| #[trigger] e0.anon_paddr(o) == match a0.get_page_spec(o) {
                Some(p) => Some(p.0),
                None => None,
            } by {
                if e0.amap is None {
                    assert(a0.get_page_spec(o) is None);
                }
            }
        }
        if amap.shared {
            amap.unshare();
        }
        let ghost a1 = amap;
        let r = amap.alloc_page(offset, pmm);
        self.amap = Some(amap);
        proof {
            assert forall|o: usize| o % PAGE_SIZE == 0 && o != offset implies #[trigger] self.anon_paddr(o) == e0.anon_paddr(o) by {
                assert(amap.get_page_spec(o) == a1.get_page_spec(o));
                if a0.get_page_spec(o) is Some {
                    assert(a1.get_page_spec(o) is Some);
                } else {
                    assert(a1.get_page_spec(o) is None);
                }
            }
        }
        match r {
            Ok(p) => Ok(p),
            Err(e) => Err(e),
        }
    }
}

/// What a mapped region looks like from outside: its address range, flags and mapped object.
pub struct RegionView {
    pub start: usize,
    pub end: usize,
    pub prot_flags: u8,
    pub map_flags: u32,
    pub mapping: Option<Mapping>,
}

/// One contiguous range of mapped memory with the same protection and mapping flags.
#[derive(Debug)]
pub struct MapEntry {
    /// Region start and end virtual addresses.
    range: core::ops::Range<usize>,
    /// Mapping state.
    inner: MapEntryInner,
}

impl View for MapEntry {
    type V = RegionView;

    closed spec fn view(&self) -> RegionView {
        RegionView {
            start: self.range.start,
            end: self.range.end,
            prot_flags: self.inner.prot_flags,
            map_flags: self.inner.map_flags,
            mapping: self.inner.mapping,
        }
    }
}

impl MapEntry {
    spec fn wf(&self) -> bool {
        self.inner.wf()
    }
}

/// The regions are page-aligned, not empty, sorted and do not overlap.
pub open spec fn regions_ok(s: Seq<RegionView>) -> bool {
    &&& forall|i: int|
        0 <= i < s.len() ==> (#[trigger] s[i]).start < s[i].end && s[i].start % PAGE_SIZE == 0 && s[i].end
            % PAGE_SIZE == 0
    &&& forall|i: int, j: int| 0 <= i < j < s.len() ==> (#[trigger] s[i]).end <= (#[trigger] s[j]).start
}

/// A region cut in two at `t` if `t` lies strictly inside it.
pub open spec fn piece(e: RegionView, t: int) -> Seq<RegionView> {
    if e.start < t < e.end {
        seq![RegionView { end: t as usize, ..e }, RegionView { start: t as usize, ..e }]
    } else {
        seq![e]
    }
}

/// The regions with the one that straddles `t` cut in two there.
pub open spec fn split_regions(s: Seq<RegionView>, t: int) -> Seq<RegionView>
    decreases s.len(),
{
    if s.len() == 0 {
        s
    } else {
        split_regions(s.drop_last(), t) + piece(s.last(), t)
    }
}

/// The regions that do not start within `lo..hi`.
pub open spec fn outside(s: Seq<RegionView>, lo: int, hi: int) -> Seq<RegionView>
    decreases s.len(),
{
    if s.len() == 0 {
        s
    } else if lo <= s.last().start < hi {
        outside(s.drop_last(), lo, hi)
    } else {
        outside(s.drop_last(), lo, hi).push(s.last())
    }
}

/// Number of regions that start below `x`.
pub open spec fn count_before(s: Seq<RegionView>, x: int) -> int
    decreases s.len(),
{
    if s.len() == 0 {
        0
    } else {
        count_before(s.drop_last(), x) + if s.last().start < x {
            1int
        } else {
            0
        }
    }
}

/// The regions with `e` inserted in address order.
pub open spec fn with_region(s: Seq<RegionView>, e: RegionView) -> Seq<RegionView> {
    s.insert(count_before(s, e.start as int), e)
}

/// `e` shares no address with any of the regions.
pub open spec fn disjoint_from(s: Seq<RegionView>, e: RegionView) -> bool {
    forall|i: int| 0 <= i < s.len() ==> (#[trigger] s[i]).end <= e.start || e.end <= s[i].start
}

/// The page at page-aligned offset `off` of a region of `size` bytes at `addr` lies within the
/// object the region maps, when the region is no longer than the object's rest.
proof fn lemma_populated_page_in_object(e: RegionView, addr: usize, off: usize, size: usize)
    requires
        e.start == addr,
        addr % PAGE_SIZE == 0,
        off % PAGE_SIZE == 0,
        off < size,
        size % PAGE_SIZE == 0,
        addr + size <= usize::MAX,
        e.mapping matches Some(m) ==> size <= round_up(m.object.spec_len() - m.offset),
    ensures
        !object_lacks(e, (addr + off) as usize),
{
    let v = (addr + off) as usize;
    assert(v % 4096 == 0) by (nonlinear_arith)
        requires
            v == addr + off,
            addr % 4096 == 0,
            off % 4096 == 0,
    ;
    assert(page_base(v) == v);
    if let Some(m) = e.mapping {
        assert(m.offset + off < m.object.spec_len()) by (nonlinear_arith)
            requires
                off < size,
                off % 4096 == 0,
                size % 4096 == 0,
                size <= (m.object.spec_len() - m.offset + 4095) / 4096 * 4096,
        ;
    }
}

/// However the regions lie, a region inserted among them is one of the result.
proof fn lemma_with_region_has(s: Seq<RegionView>, e: RegionView)
    ensures
        0 <= count_before(s, e.start as int) <= s.len(),
        with_region(s, e)[count_before(s, e.start as int)] == e,
        with_region(s, e).len() == s.len() + 1,
    decreases s.len(),
{
    if s.len() > 0 {
        lemma_with_region_has(s.drop_last(), e);
    }
}

proof fn lemma_count_before(s: Seq<RegionView>, x: int)
    requires
        regions_ok(s),
    ensures
        0 <= count_before(s, x) <= s.len(),
        forall|i: int| 0 <= i < count_before(s, x) ==> (#[trigger] s[i]).start < x,
        forall|i: int| count_before(s, x) <= i < s.len() ==> (#[trigger] s[i]).start >= x,
    decreases s.len(),
{
    if s.len() > 0 {
        let t = s.drop_last();
        assert(regions_ok(t)) by {
            assert forall|i: int, j: int| 0 <= i < j < t.len() implies (#[trigger] t[i]).end <= (#[trigger] t[j]).start by {
                assert(s[i] == t[i] && s[j] == t[j]);
            }
        }
        lemma_count_before(t, x);
        let c = count_before(t, x);
        if s.last().start < x {
            // Every earlier region starts below the last one.
            assert forall|i: int| 0 <= i < t.len() implies (#[trigger] t[i]).start < x by {
                assert(s[i] == t[i]);
                assert(s[i].end <= s[s.len() - 1].start);
            }
            if c < t.len() {
                assert(t[c].start >= x);
                assert(t[c].start < x);
            }
            assert(count_before(s, x) == t.len() + 1);
            assert forall|i: int| 0 <= i < count_before(s, x) implies (#[trigger] s[i]).start < x by {
                if i < t.len() {
                    assert(s[i] == t[i]);
                }
            }
        } else {
            assert(count_before(s, x) == c);
            assert forall|i: int| 0 <= i < count_before(s, x) implies (#[trigger] s[i]).start < x by {
                assert(s[i] == t[i]);
            }
            assert forall|i: int| count_before(s, x) <= i < s.len() implies (#[trigger] s[i]).start >= x by {
                if i < t.len() {
                    assert(s[i] == t[i]);
                }
            }
        }
    }
}

proof fn lemma_with_region_ok(s: Seq<RegionView>, e: RegionView)
    requires
        regions_ok(s),
        disjoint_from(s, e),
        e.start < e.end,
        e.start % PAGE_SIZE == 0,
        e.end % PAGE_SIZE == 0,
    ensures
        regions_ok(with_region(s, e)),
{
    let p = count_before(s, e.start as int);
    lemma_count_before(s, e.start as int);
    let r = with_region(s, e);
    assert forall|i: int, j: int| 0 <= i < j < r.len() implies (#[trigger] r[i]).end <= (#[trigger] r[j]).start by {
        if j < p {
        } else if j == p {
            assert(s[i].start < e.start);
        } else if i < p {
            assert(s[j - 1].start >= e.start || j - 1 < p);
        } else if i == p {
            assert(s[j - 1].start >= e.start);
        } else {
        }
    }
}

/// The outside views of a list of entries.
spec fn views(s: Seq<MapEntry>) -> Seq<RegionView> {
    s.map_values(|e: MapEntry| e@)
}

proof fn lemma_views_push(s: Seq<MapEntry>, e: MapEntry)
    ensures
        views(s.push(e)) == views(s).push(e@),
{
    assert(views(s.push(e)) =~= views(s).push(e@));
}

proof fn lemma_views_skip(s: Seq<MapEntry>)
    requires
        s.len() > 0,
    ensures
        views(s.subrange(1, s.len() as int)) == views(s).skip(1),
        views(s)[0] == s[0]@,
{
    assert(views(s.subrange(1, s.len() as int)) =~= views(s).skip(1));
}

/// Each region of `s` lies within a region of `orig`.
spec fn within(s: Seq<RegionView>, orig: Seq<RegionView>) -> bool {
    forall|i: int| 0 <= i < s.len() ==> exists|j: int| 0 <= j < orig.len() && (#[trigger] s[i]).start >= (#[trigger] orig[j]).start
        && s[i].end <= orig[j].end
}

proof fn lemma_regions_ok_prefix(s: Seq<RegionView>)
    requires
        regions_ok(s),
        s.len() > 0,
    ensures
        regions_ok(s.drop_last()),
{
    let t = s.drop_last();
    assert forall|i: int, j: int| 0 <= i < j < t.len() implies (#[trigger] t[i]).end <= (#[trigger] t[j]).start by {
        assert(s[i] == t[i] && s[j] == t[j]);
    }
}

proof fn lemma_split_regions_ok(s: Seq<RegionView>, t: int)
    requires
        regions_ok(s),
        t % PAGE_SIZE as int == 0,
        0 <= t <= usize::MAX,
    ensures
        regions_ok(split_regions(s, t)),
        within(split_regions(s, t), s),
    decreases s.len(),
{
    if s.len() > 0 {
        let d = s.drop_last();
        lemma_regions_ok_prefix(s);
        lemma_split_regions_ok(d, t);
        let a = split_regions(d, t);
        let p = piece(s.last(), t);
        let r = split_regions(s, t);
        assert(r == a + p);
        let l = s.len() - 1;
        assert forall|i: int| 0 <= i < r.len() implies exists|j: int| 0 <= j < s.len() && (#[trigger] r[i]).start >= (#[trigger] s[j]).start
            && r[i].end <= s[j].end by {
            if i < a.len() {
                let j = choose|j: int| 0 <= j < d.len() && (#[trigger] a[i]).start >= (#[trigger] d[j]).start && a[i].end <= d[j].end;
                assert(s[j] == d[j]);
            } else {
                assert(r[i].start >= s[l].start && r[i].end <= s[l].end);
            }
        }
        assert forall|i: int, j: int| 0 <= i < j < r.len() implies (#[trigger] r[i]).end <= (#[trigger] r[j]).start by {
            if j >= a.len() && i < a.len() {
                let w = choose|w: int| 0 <= w < d.len() && (#[trigger] a[i]).start >= (#[trigger] d[w]).start && a[i].end <= d[w].end;
                assert(s[w] == d[w]);
                assert(s[w].end <= s[l].start);
            }
        }
    }
}

proof fn lemma_outside_ok(s: Seq<RegionView>, lo: int, hi: int)
    requires
        regions_ok(s),
    ensures
        regions_ok(outside(s, lo, hi)),
        within(outside(s, lo, hi), s),
        forall|i: int| 0 <= i < outside(s, lo, hi).len() ==> !(lo <= (#[trigger] outside(s, lo, hi)[i]).start < hi),
    decreases s.len(),
{
    if s.len() > 0 {
        let d = s.drop_last();
        lemma_regions_ok_prefix(s);
        lemma_outside_ok(d, lo, hi);
        let a = outside(d, lo, hi);
        let r = outside(s, lo, hi);
        let l = s.len() - 1;
        assert forall|i: int| 0 <= i < a.len() implies exists|j: int| 0 <= j < s.len() && (#[trigger] a[i]).start >= (#[trigger] s[j]).start
            && a[i].end <= s[j].end by {
            let j = choose|j: int| 0 <= j < d.len() && (#[trigger] a[i]).start >= (#[trigger] d[j]).start && a[i].end <= d[j].end;
            assert(s[j] == d[j]);
        }
        if !(lo <= s.last().start < hi) {
            assert forall|i: int, j: int| 0 <= i < j < r.len() implies (#[trigger] r[i]).end <= (#[trigger] r[j]).start by {
                if j == a.len() {
                    let w = choose|w: int| 0 <= w < d.len() && (#[trigger] a[i]).start >= (#[trigger] d[w]).start && a[i].end <= d[w].end;
                    assert(s[w] == d[w]);
                    assert(s[w].end <= s[l].start);
                }
            }
            assert forall|i: int| 0 <= i < r.len() implies exists|j: int| 0 <= j < s.len() && (#[trigger] r[i]).start >= (#[trigger] s[j]).start
                && r[i].end <= s[j].end by {
                if i == a.len() {
                    assert(r[i] == s[l]);
                } else {
                    assert(r[i] == a[i]);
                }
            }
        }
    }
}

/// No region of `s` has `x` strictly inside.
pub open spec fn no_straddle(s: Seq<RegionView>, x: int) -> bool {
    forall|i: int| 0 <= i < s.len() ==> !((#[trigger] s[i]).start < x < s[i].end)
}

proof fn lemma_split_no_straddle(s: Seq<RegionView>, t: int, x: int)
    requires
        no_straddle(s, x) || x == t,
    ensures
        no_straddle(split_regions(s, t), x),
    decreases s.len(),
{
    if s.len() > 0 {
        let d = s.drop_last();
        assert(no_straddle(d, x) || x == t) by {
            if no_straddle(s, x) {
                assert forall|i: int| 0 <= i < d.len() implies !((#[trigger] d[i]).start < x < d[i].end) by {
                    assert(d[i] == s[i]);
                }
            }
        }
        lemma_split_no_straddle(d, t, x);
        let a = split_regions(d, t);
        let r = split_regions(s, t);
        assert(r == a + piece(s.last(), t));
        if no_straddle(s, x) {
            assert(!(s[s.len() - 1].start < x < s[s.len() - 1].end));
        }
        assert forall|i: int| 0 <= i < r.len() implies !((#[trigger] r[i]).start < x < r[i].end) by {
            if i < a.len() {
                assert(r[i] == a[i]);
            }
        }
    }
}

/// An address that region `j` holds is held, after splitting at `t`, by a piece that starts at
/// `t` if the cut falls between the region's start and the address, and at the region's start
/// otherwise.
proof fn lemma_split_holds(s: Seq<RegionView>, t: int, j: int, x: int)
    requires
        0 <= j < s.len(),
        s[j].start <= x < s[j].end,
        0 <= t <= usize::MAX,
    ensures
        exists|i: int| 0 <= i < split_regions(s, t).len() && (#[trigger] split_regions(s, t)[i]).start <= x
            < split_regions(s, t)[i].end && split_regions(s, t)[i].start == (if s[j].start < t && t <= x {
                t
            } else {
                s[j].start as int
            }),
    decreases s.len(),
{
    let d = s.drop_last();
    let a = split_regions(d, t);
    let r = split_regions(s, t);
    assert(r == a + piece(s.last(), t));
    if j < s.len() - 1 {
        assert(d[j] == s[j]);
        lemma_split_holds(d, t, j, x);
        let i = choose|i: int| 0 <= i < a.len() && (#[trigger] a[i]).start <= x < a[i].end && a[i].start == (if d[j].start < t && t <= x {
            t
        } else {
            d[j].start as int
        });
        assert(r[i] == a[i]);
    } else {
        let e = s.last();
        if e.start < t < e.end {
            if t <= x {
                assert(r[a.len() as int + 1] == RegionView { start: t as usize, ..e });
            } else {
                assert(r[a.len() as int] == RegionView { end: t as usize, ..e });
            }
        } else {
            assert(r[a.len() as int] == e);
        }
    }
}

proof fn lemma_outside_disjoint(s: Seq<RegionView>, lo: int, hi: int, e: RegionView)
    requires
        regions_ok(s),
        no_straddle(s, lo),
        no_straddle(s, hi),
        e.start == lo,
        e.end == hi,
        lo < hi,
    ensures
        disjoint_from(outside(s, lo, hi), e),
{
    lemma_outside_ok(s, lo, hi);
    let r = outside(s, lo, hi);
    assert forall|i: int| 0 <= i < r.len() implies (#[trigger] r[i]).end <= e.start || e.end <= r[i].start by {
        let j = choose|j: int| 0 <= j < s.len() && (#[trigger] r[i]).start >= (#[trigger] s[j]).start && r[i].end <= s[j].end;
        assert(!(s[j].start < lo < s[j].end));
        assert(!(s[j].start < hi < s[j].end));
        assert(!(lo <= r[i].start < hi));
        assert(s[j].start < s[j].end);
    }
}

/// Distance between two addresses.
pub open spec fn abs_diff(a: int, b: int) -> int {
    if a >= b {
        a - b
    } else {
        b - a
    }
}

/// Distance between two addresses.
fn dist(a: usize, b: usize) -> (r: usize)
    ensures
        r == abs_diff(a as int, b as int),
{
    if a >= b {
        a - b
    } else {
        b - a
    }
}

/// Addition that stops at the largest address.
pub open spec fn sat_add(a: int, b: int) -> int {
    if a + b > usize::MAX {
        usize::MAX as int
    } else {
        a + b
    }
}

/// The larger of two addresses.
pub open spec fn max_addr(a: int, b: int) -> int {
    if a >= b {
        a
    } else {
        b
    }
}

/// The search for a gap from region `i` on: the start and size of the gap chosen so far and the
/// end of the previous region. A gap between two regions counts when it leaves a margin on both
/// sides; the search stops once it gets farther from the hint than the gap it has.
pub open spec fn scan(
    s: Seq<RegionView>,
    i: int,
    bstart: int,
    size: int,
    hint: int,
    closest: Option<int>,
    csize: int,
    prev: int,
) -> (Option<int>, int, int)
    decreases s.len() - i,
{
    if i >= s.len() || i < 0 {
        (closest, csize, prev)
    } else if closest is Some && abs_diff(prev, hint) > abs_diff(closest->Some_0, hint) {
        (closest, csize, prev)
    } else {
        let start = max_addr(s[i].start as int, bstart);
        let found = start >= sat_add(sat_add(prev, size), 2 * MAP_MARGIN);
        scan(
            s,
            i + 1,
            bstart,
            size,
            hint,
            if found { Some(prev) } else { closest },
            if found { start - prev } else { csize },
            max_addr(s[i].end as int, bstart),
        )
    }
}

/// The part of `bstart..bend` in which a new region of `size` bytes is placed, if there is one:
/// the gap closest to the hint, or the space after the last region; like a gap between
/// regions, that space counts only when it leaves a margin on both sides.
pub open spec fn narrowed(s: Seq<RegionView>, size: int, hint: int, bstart: int, bend: int) -> Option<(int, int)> {
    if s.len() == 0 {
        Some((bstart, bend))
    } else {
        let (c, cs, prev) = scan(s, 0, bstart, size, hint, None, 0, bstart);
        let tail = c is None || abs_diff(prev, hint) <= abs_diff(c->Some_0, hint);
        let (c2, cs2) = if tail && bend >= sat_add(sat_add(prev, size), 2 * MAP_MARGIN) {
            (Some(prev), bend - prev)
        } else {
            (c, cs)
        };
        match c2 {
            None => None,
            Some(cl) => Some((max_addr(bstart, cl), if bend <= cl + cs2 { bend } else { cl + cs2 })),
        }
    }
}

/// Where a new region of `size` bytes goes: as near the hint as the chosen space allows while
/// keeping a margin on both sides, or nowhere.
pub open spec fn placement(s: Seq<RegionView>, size: int, hint: int, bstart: int, bend: int) -> Option<int> {
    match narrowed(s, size, hint, bstart, bend) {
        None => None,
        Some((bs, be)) => if (if be > bs { be - bs } else { 0 }) < sat_add(size, 2 * MAP_MARGIN) {
            None
        } else if hint < bs + MAP_MARGIN {
            Some(bs + MAP_MARGIN)
        } else if sat_add(hint, size) > be - MAP_MARGIN {
            Some(be - size - MAP_MARGIN)
        } else {
            Some(hint)
        },
    }
}

/// The start of the page that holds `vaddr`.
pub open spec fn page_base(vaddr: usize) -> usize {
    (vaddr - vaddr % PAGE_SIZE) as usize
}

/// The page tables already allow `access` to the page that holds `vaddr`, so that a fault
/// there only asks for the TLB to be brought up to date.
pub open spec fn tables_allow(m: PhysMap, vaddr: usize, access: u8) -> bool {
    let v = m.virt2phys_spec(page_base(vaddr));
    (if v.valid { prot::mmu_prot(v.flags) } else { 0u8 }) & access == access
}

/// After a populated mapping of `size` bytes at `addr` took `a` to `b`: where every page of the
/// new region is canonical, each of its pages that `a`'s tables did not translate is translated
/// with the region's protection to the page that backs it, which for a mapped memory object is
/// the object's page at the same offset.
pub open spec fn populated(a: VmSpaceInner, b: VmSpaceInner, addr: usize, size: int) -> bool {
    canon_pages(addr as int, addr + size, a.page_map().spec_levels()) ==> forall|j: int, v: usize|
        #![trigger b.regions()[j], b.page_map().walk_spec(v, 0)]
        0 <= j < b.regions().len() && b.regions()[j].start == addr
        && addr as int / (PAGE_SIZE as int) <= v < (addr + size) / (PAGE_SIZE as int)
        && !a.page_map().walk_spec(v, 0).valid ==> {
        &&& maps_with_region_flags(b.page_map().walk_spec(v, 0), b.regions()[j])
        &&& backing_page(b, j, (v * PAGE_SIZE) as usize) matches Some(p)
            && p == b.page_map().walk_spec(v, 0).ppn * PAGE_SIZE
        &&& b.regions()[j].mapping matches Some(m) ==> b.page_map().walk_spec(v, 0).ppn * PAGE_SIZE
            == (m.object.spec_paddr() + object_offset(m, (v * PAGE_SIZE - addr) as usize)) as usize
    }
}

/// Every page of `start..end` is canonical in a paging mode with `levels` levels.
pub open spec fn canon_pages(start: int, end: int, levels: u32) -> bool {
    forall|w: usize| start / PAGE_SIZE as int <= w < end / PAGE_SIZE as int ==> #[trigger] physmap::canon_page(w, levels)
}

/// The physical page that backs the page holding `vaddr` in region `k` of `vs`: the region's
/// anonymous page there if it has one, else the page of the mapped memory object at the same
/// offset, else the page of zeroes; `None` where the memory object ends before that page.
pub open spec fn backing_page(vs: VmSpaceInner, k: int, vaddr: usize) -> Option<usize> {
    let r = vs.regions()[k];
    let off = (page_base(vaddr) - r.start) as usize;
    match vs.anon_paddr(k, off) {
        Some(p) => Some(p),
        None => match r.mapping {
            Some(m) => if object_offset(m, off) < m.object.spec_len() {
                Some((m.object.spec_paddr() + object_offset(m, off)) as usize)
            } else {
                None
            },
            None => Some(vs.zero_page()),
        },
    }
}

/// Region `r` maps a memory object that ends before the page holding `vaddr`.
pub open spec fn object_lacks(r: RegionView, vaddr: usize) -> bool {
    match r.mapping {
        Some(m) => object_offset(m, (page_base(vaddr) - r.start) as usize) >= m.object.spec_len(),
        None => false,
    }
}

/// Page `v` differs from every page of the regions among the first `n` of `s` that start
/// within `lo..hi`.
pub open spec fn apart_from_starting(v: usize, s: Seq<RegionView>, n: int, lo: int, hi: int, levels: u32) -> bool {
    forall|i: int| 0 <= i < n && lo <= (#[trigger] s[i]).start < hi
        ==> apart_from(v, (s[i].start / PAGE_SIZE) as int, (s[i].end / PAGE_SIZE) as int, levels)
}

/// Where a call of [`VmSpaceInner::map`] puts its region: at `hint` with [`FIXED`], and
/// otherwise where [`placement`] finds room (0 when there is none, and nothing is mapped).
pub open spec fn map_target(s: Seq<RegionView>, size: usize, hint: usize, bounds: core::ops::Range<usize>, map_flags: u32) -> int {
    if map_flags & FIXED != 0 {
        hint as int
    } else {
        match placement(s, round_up(size as int), hint as int, bounds.start as int, bounds.end as int) {
            Some(a) => a,
            None => 0,
        }
    }
}

/// A walk's result maps one page with the protection of region `e`, or with that protection
/// less writing, for a page to be copied before it is written.
pub open spec fn maps_with_region_flags(w: crate::mem::physmap::PTE, e: RegionView) -> bool {
    &&& w.valid && w.leaf && w.level == 0
    &&& (prot::mmu_prot(w.flags) == e.prot_flags & 0x1f || prot::mmu_prot(w.flags) == (e.prot_flags & !prot::WRITE) & 0x1f)
}

/// Some region holds address `x`.
pub open spec fn region_holds(s: Seq<RegionView>, x: int) -> bool {
    exists|i: int| 0 <= i < s.len() && (#[trigger] s[i]).start <= x < s[i].end
}

/// The regions with those that start within `lo..hi` given protection flags `p`.
pub open spec fn reprotect(s: Seq<RegionView>, lo: int, hi: int, p: u8) -> Seq<RegionView> {
    Seq::new(s.len(), |i: int| if lo <= s[i].start < hi { RegionView { prot_flags: p, ..s[i] } } else { s[i] })
}

/// Round a size up to whole pages.
pub open spec fn round_up(size: int) -> int {
    (size + PAGE_SIZE - 1) / PAGE_SIZE as int * PAGE_SIZE
}

/// The regions after placing `size` bytes (rounded up to pages) from `hint` within `bounds`:
/// with [`FIXED`] exactly at `hint`, over whatever was there, and otherwise where [`placement`]
/// puts them. `r` is what the mapping call returned: its errors, and the address of the new
/// region, unless faulting in its pages for [`POPULATE`] failed.
pub open spec fn fixed_map(s: Seq<RegionView>, addr: int, sz: int, region: RegionView) -> Seq<RegionView> {
    with_region(outside(split_regions(split_regions(s, addr), addr + sz), addr, addr + sz), region)
}

pub open spec fn map_result(
    s: Seq<RegionView>,
    size: usize,
    hint: usize,
    bounds: core::ops::Range<usize>,
    map_flags: u32,
    prot_flags: u8,
    mapping: Option<Mapping>,
    r: EResult<usize>,
    t: Seq<RegionView>,
) -> bool {
    let sz = round_up(size as int);
    let new_region = |a: int| RegionView { start: a as usize, end: (a + sz) as usize, prot_flags, map_flags, mapping };
    if sz == 0 {
        r == Err::<usize, Errno>(Errno::EINVAL) && t == s
    } else if mapping is Some && sz > round_up(mapping->Some_0.object.spec_len() - mapping->Some_0.offset) {
        r == Err::<usize, Errno>(Errno::ENXIO) && t == s
    } else if map_flags & FIXED != 0 {
        &&& t == fixed_map(s, hint as int, sz, new_region(hint as int))
        &&& r is Ok ==> r == Ok::<usize, Errno>(hint)
        &&& r is Err ==> map_flags & POPULATE != 0 && (r == Err::<usize, Errno>(Errno::ENOMEM) || r == Err::<usize, Errno>(Errno::EFAULT))
    } else {
        match placement(s, sz, hint as int, bounds.start as int, bounds.end as int) {
            None => r == Err::<usize, Errno>(Errno::ENOMEM) && t == s,
            Some(a) => {
                &&& bounds.start <= a && a + sz <= bounds.end
                &&& t == with_region(s, new_region(a))
                &&& r is Ok ==> r == Ok::<usize, Errno>(a as usize)
                &&& r is Err ==> map_flags & POPULATE != 0 && (r == Err::<usize, Errno>(Errno::ENOMEM) || r == Err::<usize, Errno>(Errno::EFAULT))
            },
        }
    }
}

/// How many pages `start..end` touches: one fence per page from `start` on, stepping by pages.
spec fn fence_count(start: int, end: int) -> int {
    if end > start {
        (end - start - 1) / (PAGE_SIZE as int) + 1
    } else {
        0
    }
}

/// The page addresses `start`, `start + PAGE_SIZE`, ... that lie below `end`.
spec fn fence_addrs(start: int, end: int) -> Seq<usize> {
    Seq::new(fence_count(start, end) as nat, |k: int| (start + k * PAGE_SIZE) as usize)
}

/// Schedule a fence for every page in `start..end`; once the set has gone over to one big
/// fence, further addresses change nothing.
fn add_fences(fences: &mut VmFenceSet, start: usize, end: usize)
    ensures
        (old(fences).is_big() || old(fences).addrs().len() + fence_count(start as int, end as int)
            >= crate::mem::vmfence::BIG_FENCE_THRESHOLD) ==> final(fences).is_big(),
        !(old(fences).is_big() || old(fences).addrs().len() + fence_count(start as int, end as int)
            >= crate::mem::vmfence::BIG_FENCE_THRESHOLD) ==> !final(fences).is_big()
            && final(fences).addrs() == old(fences).addrs() + fence_addrs(start as int, end as int),
{
    let pages: usize = if end > start {
        (end - start - 1) / PAGE_SIZE + 1
    } else {
        0
    };
    let count: usize = if pages < 64 {
        pages
    } else {
        64
    };
    proof {
        fences.lemma_addrs_below_threshold();
    }
    let ghost n: int = fence_count(start as int, end as int);
    let ghost base = old(fences).addrs();
    let ghost was_big = old(fences).is_big();
    let mut i: usize = 0;
    while i < count
        invariant
            pages == n,
            count <= 64,
            count <= pages,
            i <= count,
            end > start ==> pages == (end - start - 1) / (PAGE_SIZE as int) + 1,
            end <= start ==> pages == 0,
            (was_big || base.len() + i >= crate::mem::vmfence::BIG_FENCE_THRESHOLD) ==> fences.is_big(),
            !(was_big || base.len() + i >= crate::mem::vmfence::BIG_FENCE_THRESHOLD) ==> !fences.is_big()
                && fences.addrs() == base + fence_addrs(start as int, end as int).take(i as int),
        decreases count - i,
    {
        let ghost prev = *fences;
        assert(i * 4096 <= end - start - 1) by (nonlinear_arith)
            requires
                end > start,
                i < pages,
                pages == (end - start - 1) / 4096 + 1,
        ;
        let addr: usize = start + i * PAGE_SIZE;
        fences.add(Some(addr), None);
        proof {
            if !(was_big || base.len() + i + 1 >= crate::mem::vmfence::BIG_FENCE_THRESHOLD) {
                assert(fence_addrs(start as int, end as int).take(i + 1) =~= fence_addrs(
                    start as int,
                    end as int,
                ).take(i as int).push(addr));
                assert(base + fence_addrs(start as int, end as int).take(i + 1) =~= (base
                    + fence_addrs(start as int, end as int).take(i as int)).push(addr));
            }
        }
        i = i + 1;
    }
    proof {
        if !(was_big || base.len() + n >= crate::mem::vmfence::BIG_FENCE_THRESHOLD) {
            assert(i == n);
            assert(fence_addrs(start as int, end as int).take(i as int) =~= fence_addrs(
                start as int,
                end as int,
            ));
        }
    }
}

/// Byte offset within region `r` from which [`VmSpaceInner::shrink`] evicts pages once its memory
/// object is `max_len` bytes long: the part of the object the region still maps, rounded up to
/// whole pages; a region without a memory object keeps everything.
pub open spec fn shrink_cutoff(r: RegionView, max_len: u64) -> int {
    match r.mapping {
        Some(m) => {
            let rest: int = if max_len > m.offset { max_len - m.offset } else { 0 };
            let len: int = r.end - r.start;
            round_up(if rest < len { rest } else { len })
        },
        None => r.end - r.start,
    }
}

/// Whether [`VmSpaceInner::shrink`] evicts the page at byte offset `o` of region `r`: only when
/// the object's end leaves whole pages of the region behind, and then those from the cutoff on.
pub open spec fn shrink_evicts(r: RegionView, max_len: u64, o: usize) -> bool {
    shrink_cutoff(r, max_len) < r.end - r.start && o >= shrink_cutoff(r, max_len)
}

/// Virtual address-space map: the page tables and the sorted list of mapped regions.
pub struct VmSpaceInner {
    /// Architecture-specific virtual to physical address map.
    pmap: PhysMap,
    /// Contiguous ranges with identical map and protection flags, in address order.
    entries: Vec<MapEntry>,
    /// Physical address of the page full of zeroes.
    zeroes: usize,
}

impl VmSpaceInner {
    /// The mapped regions, in address order.
    pub closed spec fn regions(&self) -> Seq<RegionView> {
        self.entries@.map_values(|e: MapEntry| e@)
    }

    /// The page tables.
    pub closed spec fn page_map(&self) -> PhysMap {
        self.pmap
    }

    /// Physical address of the page full of zeroes that backs untouched anonymous memory.
    pub closed spec fn zero_page(&self) -> usize {
        self.zeroes
    }

    pub closed spec fn wf(&self) -> bool {
        &&& self.pmap.wf()
        &&& regions_ok(self.regions())
        &&& forall|i: int| 0 <= i < self.entries@.len() ==> (#[trigger] self.entries@[i]).wf()
        &&& self.zeroes != 0
        &&& self.zeroes % PAGE_SIZE == 0
    }

    /// Split the regions so that none crosses `threshold`.
    fn split(&mut self, threshold: usize) -> (r: EResult<()>)
        requires
            old(self).wf(),
            threshold % PAGE_SIZE == 0,
        ensures
            final(self).wf(),
            r is Ok,
            final(self).regions() == split_regions(old(self).regions(), threshold as int),
            final(self).pmap == old(self).pmap,
            final(self).zeroes == old(self).zeroes,
    {
        let mut rest: Vec<MapEntry> = Vec::new();
        core::mem::swap(&mut rest, &mut self.entries);
        let ghost orig = views(rest@);
        let ghost all = rest@;
        let mut out: Vec<MapEntry> = Vec::new();
        let ghost mut k: int = 0;
        proof {
            assert(orig.take(0) =~= Seq::<RegionView>::empty());
            assert(views(out@) =~= Seq::<RegionView>::empty());
            assert(views(rest@) =~= orig.skip(0));
        }
        while rest.len() > 0
            invariant
                0 <= k <= orig.len(),
                orig.len() == k + rest@.len(),
                views(rest@) == orig.skip(k),
                views(out@) == split_regions(orig.take(k), threshold as int),
                forall|i: int| 0 <= i < rest@.len() ==> (#[trigger] rest@[i]).wf(),
                forall|i: int| 0 <= i < out@.len() ==> (#[trigger] out@[i]).wf(),
                threshold % PAGE_SIZE == 0,
                regions_ok(orig),
            decreases rest@.len(),
        {
            let ghost before = rest@;
            proof {
                lemma_views_skip(before);
            }
            let e = rest.remove(0);
            proof {
                assert(rest@ == before.subrange(1, before.len() as int));
                assert(e.wf());
                assert(orig.skip(k + 1) =~= orig.skip(k).skip(1));
                assert(orig.take(k + 1).drop_last() =~= orig.take(k));
                assert(orig.take(k + 1).last() == e@);
            }
            if e.range.start < threshold && e.range.end > threshold {
                proof {
                    assert(orig[k] == e@);
                    assert((threshold - e.range.start) % PAGE_SIZE as int == 0) by (nonlinear_arith)
                        requires
                            threshold % 4096 == 0,
                            e.range.start % 4096 == 0,
                            e.range.start < threshold,
                            PAGE_SIZE == 4096,
                    ;
                }
                let (first, second) = e.inner.split(threshold - e.range.start);
                let a = MapEntry { range: e.range.start..threshold, inner: first };
                let b = MapEntry { range: threshold..e.range.end, inner: second };
                proof {
                    lemma_views_push(out@, a);
                    lemma_views_push(out@.push(a), b);
                    assert(piece(e@, threshold as int) == seq![a@, b@]);
                    assert(views(out@).push(a@).push(b@) =~= views(out@) + seq![a@, b@]);
                }
                out.push(a);
                out.push(b);
            } else {
                proof {
                    lemma_views_push(out@, e);
                    assert(piece(e@, threshold as int) == seq![e@]);
                    assert(views(out@).push(e@) =~= views(out@) + seq![e@]);
                }
                out.push(e);
            }
            proof {
                k = k + 1;
            }
        }
        proof {
            assert(orig.take(k) =~= orig);
            lemma_split_regions_ok(orig, threshold as int);
        }
        self.entries = out;
        Ok(())
    }

    /// Insert a new region that overlaps none of the present ones.
    fn insert_mapping(&mut self, entry: MapEntry)
        requires
            old(self).wf(),
            entry.wf(),
            entry@.start < entry@.end,
            entry@.start % PAGE_SIZE == 0,
            entry@.end % PAGE_SIZE == 0,
            disjoint_from(old(self).regions(), entry@),
        ensures
            final(self).wf(),
            final(self).regions() == with_region(old(self).regions(), entry@),
            final(self).pmap == old(self).pmap,
            final(self).zeroes == old(self).zeroes,
            forall|o: usize| #[trigger] final(self).anon_paddr(count_before(old(self).regions(), entry@.start as int), o)
                == entry.inner.anon_paddr(o),
    {
        let ghost s = self.regions();
        let mut p: usize = 0;
        proof {
            lemma_count_before(s, entry@.start as int);
        }
        while p < self.entries.len() && self.entries[p].range.start < entry.range.start
            invariant
                p <= self.entries@.len(),
                s == self.regions(),
                forall|i: int| 0 <= i < p ==> (#[trigger] s[i]).start < entry@.start,
                0 <= count_before(s, entry@.start as int) <= s.len(),
                forall|i: int| 0 <= i < count_before(s, entry@.start as int) ==> (#[trigger] s[i]).start < entry@.start,
                forall|i: int| count_before(s, entry@.start as int) <= i < s.len() ==> (#[trigger] s[i]).start >= entry@.start,
            decreases self.entries@.len() - p,
        {
            assert(s[p as int] == self.entries@[p as int]@);
            p = p + 1;
        }
        proof {
            if p < s.len() {
                assert(s[p as int] == self.entries@[p as int]@);
            }
            if p < count_before(s, entry@.start as int) {
                assert(s[p as int].start < entry@.start);
            }
            if p > count_before(s, entry@.start as int) {
                assert(s[count_before(s, entry@.start as int)].start < entry@.start);
            }
            lemma_with_region_ok(s, entry@);
        }
        let ghost old_entries = self.entries@;
        self.entries.insert(p, entry);
        proof {
            assert(p == count_before(s, entry@.start as int));
            assert(self.entries@[p as int] == entry);
            assert(views(self.entries@) =~= views(old_entries).insert(p as int, entry@));
            assert forall|i: int| 0 <= i < self.entries@.len() implies (#[trigger] self.entries@[i]).wf() by {
                if i < p {
                    assert(self.entries@[i] == old_entries[i]);
                } else if i > p {
                    assert(self.entries@[i] == old_entries[i - 1]);
                }
            }
        }
    }

    /// Remove the page-table entries of the pages in `start..end`; a page whose page table
    /// cannot be split for lack of memory stays mapped.
    fn unmap_pages(&mut self, start: usize, end: usize, pmm: &mut PhysAllocator)
        requires
            old(self).wf(),
            old(pmm).wf(),
            old(self).tables_in_use(*old(pmm)),
        ensures
            final(self).wf(),
            final(pmm).wf(),
            final(self).tables_in_use(*final(pmm)),
            final(self).regions() == old(self).regions(),
            final(self).entries == old(self).entries,
            final(self).zeroes == old(self).zeroes,
            final(self).pmap.spec_levels() == old(self).pmap.spec_levels(),
            final(pmm).range_start() == old(pmm).range_start(),
            final(pmm).range_end() == old(pmm).range_end(),
            allocated_from(*old(pmm), *final(pmm)),
            final(self).pmap.spec_root() == old(self).pmap.spec_root(),
            old(self).pmap.clears_to(final(self).pmap),
            forall|vpn: usize|
                start / PAGE_SIZE <= vpn < end / PAGE_SIZE
                    && !is_superpage(old(self).pmap.walk_spec(vpn, 0))
                    ==> !(#[trigger] final(self).pmap.walk_spec(vpn, 0)).valid,
            forall|v: usize| apart_from(v, (start / PAGE_SIZE) as int, (end / PAGE_SIZE) as int, old(self).pmap.spec_levels())
                ==> #[trigger] walk_kept(old(self).pmap, final(self).pmap, v),
    {
        let mut vpn = start / PAGE_SIZE;
        let last = end / PAGE_SIZE;
        proof {
            old(self).pmap.lemma_clears_refl();
            assert forall|v: usize| apart_from(v, (start / PAGE_SIZE) as int, vpn as int, old(self).pmap.spec_levels())
                implies #[trigger] walk_kept(old(self).pmap, self.pmap, v) by {
            }
        }
        while vpn < last
            invariant
                self.wf(),
                pmm.wf(),
                self.tables_in_use(*pmm),
                self.entries == old(self).entries,
                self.zeroes == old(self).zeroes,
                self.pmap.spec_levels() == old(self).pmap.spec_levels(),
                self.pmap.spec_root() == old(self).pmap.spec_root(),
                pmm.range_start() == old(pmm).range_start(),
                pmm.range_end() == old(pmm).range_end(),
                allocated_from(*old(pmm), *pmm),
                old(self).wf(),
                start / PAGE_SIZE <= vpn,
                last == end / PAGE_SIZE,
                old(self).pmap.clears_to(self.pmap),
                forall|v: usize|
                    start / PAGE_SIZE <= v < vpn && !is_superpage(old(self).pmap.walk_spec(v, 0))
                        ==> !(#[trigger] self.pmap.walk_spec(v, 0)).valid,
                forall|v: usize| apart_from(v, (start / PAGE_SIZE) as int, vpn as int, old(self).pmap.spec_levels())
                    ==> #[trigger] walk_kept(old(self).pmap, self.pmap, v),
                vpn == start / PAGE_SIZE || vpn <= last,
            decreases last - vpn,
        {
            let ghost before = self.pmap;
            proof {
                PhysMap::lemma_clears_walk(&old(self).pmap, &before, vpn);
            }
            let _ = self.pmap.unmap(pmm, vpn);
            proof {
                PhysMap::lemma_clears_trans(old(self).pmap, before, self.pmap);
                assert forall|v: usize|
                    start / PAGE_SIZE <= v < vpn + 1 && !is_superpage(old(self).pmap.walk_spec(v, 0))
                        implies !(#[trigger] self.pmap.walk_spec(v, 0)).valid by {
                    PhysMap::lemma_clears_walk(&before, &self.pmap, v);
                }
                assert forall|v: usize| apart_from(v, (start / PAGE_SIZE) as int, vpn + 1, old(self).pmap.spec_levels())
                    implies #[trigger] walk_kept(old(self).pmap, self.pmap, v) by {
                    assert(differs_above(v, vpn, 0, old(self).pmap.spec_levels()));
                    assert(apart_from(v, (start / PAGE_SIZE) as int, vpn as int, old(self).pmap.spec_levels()));
                    lemma_walk_kept_trans(old(self).pmap, before, self.pmap, v);
                }
            }
            vpn = vpn + 1;
        }
        proof {
            assert forall|v: usize| apart_from(v, (start / PAGE_SIZE) as int, (end / PAGE_SIZE) as int, old(self).pmap.spec_levels())
                implies #[trigger] walk_kept(old(self).pmap, self.pmap, v) by {
                assert(apart_from(v, (start / PAGE_SIZE) as int, vpn as int, old(self).pmap.spec_levels()));
            }
        }
    }

    /// Removes the regions that start within `bounds`, with their pages, and performs the
    /// fences that this calls for.
    fn remove_mappings(&mut self, fences: &mut VmFenceSet, bounds: core::ops::Range<usize>, pmm: &mut PhysAllocator)
        requires
            old(self).wf(),
            old(pmm).wf(),
            old(self).tables_in_use(*old(pmm)),
        ensures
            final(self).wf(),
            final(pmm).wf(),
            final(self).tables_in_use(*final(pmm)),
            final(self).regions() == outside(old(self).regions(), bounds.start as int, bounds.end as int),
            final(self).zeroes == old(self).zeroes,
            final(self).pmap.spec_levels() == old(self).pmap.spec_levels(),
            final(pmm).range_start() == old(pmm).range_start(),
            final(pmm).range_end() == old(pmm).range_end(),
            allocated_from(*old(pmm), *final(pmm)),
            !final(fences).is_big(),
            final(fences).addrs() == Seq::<usize>::empty(),
            final(self).pmap.spec_root() == old(self).pmap.spec_root(),
            old(self).pmap.clears_to(final(self).pmap),
            forall|i: int, vpn: usize|
                #![trigger old(self).regions()[i], final(self).pmap.walk_spec(vpn, 0)]
                0 <= i < old(self).regions().len() && bounds.start <= old(self).regions()[i].start < bounds.end
                    && old(self).regions()[i].start / PAGE_SIZE <= vpn < old(self).regions()[i].end / PAGE_SIZE
                    && !is_superpage(old(self).pmap.walk_spec(vpn, 0))
                    ==> !final(self).pmap.walk_spec(vpn, 0).valid,
            forall|v: usize| apart_from_starting(v, old(self).regions(), old(self).regions().len() as int,
                bounds.start as int, bounds.end as int, old(self).pmap.spec_levels())
                ==> #[trigger] walk_kept(old(self).pmap, final(self).pmap, v),
    {
        proof {
            old(self).pmap.lemma_clears_refl();
            assert forall|v: usize| apart_from_starting(v, old(self).regions(), 0, bounds.start as int, bounds.end as int,
                old(self).pmap.spec_levels()) implies #[trigger] walk_kept(old(self).pmap, self.pmap, v) by {
            }
        }
        let mut rest: Vec<MapEntry> = Vec::new();
        core::mem::swap(&mut rest, &mut self.entries);
        let ghost orig = views(rest@);
        let mut kept: Vec<MapEntry> = Vec::new();
        let ghost mut k: int = 0;
        proof {
            assert(orig.take(0) =~= Seq::<RegionView>::empty());
            assert(views(kept@) =~= Seq::<RegionView>::empty());
            assert(views(rest@) =~= orig.skip(0));
        }
        while rest.len() > 0
            invariant
                0 <= k <= orig.len(),
                orig.len() == k + rest@.len(),
                views(rest@) == orig.skip(k),
                views(kept@) == outside(orig.take(k), bounds.start as int, bounds.end as int),
                forall|i: int| 0 <= i < rest@.len() ==> (#[trigger] rest@[i]).wf(),
                forall|i: int| 0 <= i < kept@.len() ==> (#[trigger] kept@[i]).wf(),
                regions_ok(orig),
                self.pmap.wf(),
                self.entries@.len() == 0,
                self.zeroes == old(self).zeroes,
                self.zeroes != 0,
                self.zeroes % PAGE_SIZE == 0,
                self.pmap.spec_levels() == old(self).pmap.spec_levels(),
                pmm.wf(),
                self.tables_in_use(*pmm),
                pmm.range_start() == old(pmm).range_start(),
                pmm.range_end() == old(pmm).range_end(),
                allocated_from(*old(pmm), *pmm),
                orig == old(self).regions(),
                old(self).wf(),
                self.pmap.spec_root() == old(self).pmap.spec_root(),
                old(self).pmap.clears_to(self.pmap),
                forall|i: int, vpn: usize|
                    #![trigger orig[i], self.pmap.walk_spec(vpn, 0)]
                    0 <= i < k && bounds.start <= orig[i].start < bounds.end
                        && orig[i].start / PAGE_SIZE <= vpn < orig[i].end / PAGE_SIZE
                        && !is_superpage(old(self).pmap.walk_spec(vpn, 0))
                        ==> !self.pmap.walk_spec(vpn, 0).valid,
                forall|v: usize| apart_from_starting(v, orig, k, bounds.start as int, bounds.end as int, old(self).pmap.spec_levels())
                    ==> #[trigger] walk_kept(old(self).pmap, self.pmap, v),
            decreases rest@.len(),
        {
            let ghost before = rest@;
            proof {
                lemma_views_skip(before);
            }
            let e = rest.remove(0);
            proof {
                assert(rest@ == before.subrange(1, before.len() as int));
                assert(e.wf());
                assert(orig.skip(k + 1) =~= orig.skip(k).skip(1));
                assert(orig.take(k + 1).drop_last() =~= orig.take(k));
                assert(orig.take(k + 1).last() == e@);
                assert(regions_ok(self.regions())) by {
                    assert(self.regions() =~= Seq::<RegionView>::empty());
                }
            }
            let ghost before = self.pmap;
            if bounds.start <= e.range.start && e.range.start < bounds.end {
                self.unmap_pages(e.range.start, e.range.end, pmm);
                proof {
                    PhysMap::lemma_clears_trans(old(self).pmap, before, self.pmap);
                    assert forall|i: int, vpn: usize|
                        #![trigger orig[i], self.pmap.walk_spec(vpn, 0)]
                        0 <= i < k + 1 && bounds.start <= orig[i].start < bounds.end
                            && orig[i].start / PAGE_SIZE <= vpn < orig[i].end / PAGE_SIZE
                            && !is_superpage(old(self).pmap.walk_spec(vpn, 0))
                            implies !self.pmap.walk_spec(vpn, 0).valid by {
                        PhysMap::lemma_clears_walk(&old(self).pmap, &before, vpn);
                        if i < k {
                            assert(!before.walk_spec(vpn, 0).valid);
                        }
                        PhysMap::lemma_clears_walk(&before, &self.pmap, vpn);
                    }
                    assert forall|v: usize| apart_from_starting(v, orig, k + 1, bounds.start as int, bounds.end as int,
                        old(self).pmap.spec_levels()) implies #[trigger] walk_kept(old(self).pmap, self.pmap, v) by {
                        assert(orig[k] == e@);
                        assert(apart_from(v, (orig[k].start / PAGE_SIZE) as int, (orig[k].end / PAGE_SIZE) as int, old(self).pmap.spec_levels()));
                        assert(apart_from_starting(v, orig, k, bounds.start as int, bounds.end as int, old(self).pmap.spec_levels()));
                        lemma_walk_kept_trans(old(self).pmap, before, self.pmap, v);
                    }
                }
                add_fences(fences, e.range.start, e.range.end);
            } else {
                proof {
                    lemma_views_push(kept@, e);
                }
                kept.push(e);
            }
            proof {
                assert forall|v: usize| apart_from_starting(v, orig, k + 1, bounds.start as int, bounds.end as int,
                    old(self).pmap.spec_levels()) implies #[trigger] walk_kept(old(self).pmap, self.pmap, v) by {
                    assert(apart_from_starting(v, orig, k, bounds.start as int, bounds.end as int, old(self).pmap.spec_levels()));
                }
                k = k + 1;
            }
        }
        proof {
            assert(orig.take(k) =~= orig);
            lemma_outside_ok(orig, bounds.start as int, bounds.end as int);
        }
        self.entries = kept;
        // Perform the fences, then forget them.
        let _ = crate::mem::vmfence::shootdown(fences);
        fences.clear();
    }

    /// Implementation of [`Self::map`] with the [`FIXED`] flag: whatever lies in the way is
    /// removed first.
    fn map_fixed(
        &mut self,
        fences: &mut VmFenceSet,
        size: usize,
        addr: usize,
        map_flags: u32,
        prot_flags: u8,
        mapping: Option<Mapping>,
        pmm: &mut PhysAllocator,
    ) -> (r: EResult<()>)
        requires
            old(self).wf(),
            old(pmm).wf(),
            old(self).tables_in_use(*old(pmm)),
            addr % PAGE_SIZE == 0,
            size % PAGE_SIZE == 0,
            size > 0,
            addr + size <= usize::MAX,
            mapping matches Some(m) ==> m.offset % (PAGE_SIZE as u64) == 0,
        ensures
            final(self).wf(),
            final(pmm).wf(),
            final(self).tables_in_use(*final(pmm)),
            final(self).zeroes == old(self).zeroes,
            final(self).pmap.spec_levels() == old(self).pmap.spec_levels(),
            final(pmm).range_start() == old(pmm).range_start(),
            final(pmm).range_end() == old(pmm).range_end(),
            allocated_from(*old(pmm), *final(pmm)),
            r is Ok,
            final(self).regions() == with_region(
                outside(
                    split_regions(split_regions(old(self).regions(), addr as int), (addr + size) as int),
                    addr as int,
                    (addr + size) as int,
                ),
                RegionView { start: addr, end: (addr + size) as usize, prot_flags, map_flags, mapping },
            ),
            forall|v: usize| apart_from(v, (addr / PAGE_SIZE) as int, (addr + size) / (PAGE_SIZE as int), old(self).pmap.spec_levels())
                ==> #[trigger] walk_kept(old(self).pmap, final(self).pmap, v),
            final(self).pmap.spec_root() == old(self).pmap.spec_root(),
            old(self).pmap.clears_to(final(self).pmap),
            forall|o: usize| #[trigger] final(self).anon_paddr(count_before(outside(
                split_regions(split_regions(old(self).regions(), addr as int), (addr + size) as int),
                addr as int,
                (addr + size) as int,
            ), addr as int), o) is None,
    {
        let _ = self.split(addr);
        let _ = self.split(addr + size);
        let ghost s2 = self.regions();
        proof {
            assert((addr + size) % PAGE_SIZE as int == 0) by (nonlinear_arith)
                requires
                    addr % 4096 == 0,
                    size % 4096 == 0,
                    PAGE_SIZE == 4096,
            ;
            let s0 = old(self).regions();
            lemma_split_regions_ok(s0, addr as int);
            lemma_split_no_straddle(s0, addr as int, addr as int);
            lemma_split_no_straddle(split_regions(s0, addr as int), (addr + size) as int, addr as int);
            lemma_split_no_straddle(split_regions(s0, addr as int), (addr + size) as int, (addr + size) as int);
        }
        let entry = MapEntry {
            range: addr..addr + size,
            inner: MapEntryInner { prot_flags, map_flags, amap: None, mapping },
        };
        let ghost pm0 = self.pmap;
        self.remove_mappings(fences, addr..addr + size, pmm);
        proof {
            lemma_outside_disjoint(s2, addr as int, (addr + size) as int, entry@);
            assert forall|v: usize| apart_from(v, (addr / PAGE_SIZE) as int, (addr + size) / (PAGE_SIZE as int), old(self).pmap.spec_levels())
                implies #[trigger] walk_kept(old(self).pmap, self.pmap, v) by {
                assert forall|i: int| 0 <= i < s2.len() as int && addr <= (#[trigger] s2[i]).start < addr + size
                    implies apart_from(v, (s2[i].start / PAGE_SIZE) as int, (s2[i].end / PAGE_SIZE) as int, old(self).pmap.spec_levels()) by {
                    let r = s2[i];
                    assert(!(r.start < addr + size < r.end));
                    assert forall|w: usize| (r.start / PAGE_SIZE) as int <= w < (r.end / PAGE_SIZE) as int
                        implies #[trigger] differs_above(v, w, 0, old(self).pmap.spec_levels()) by {
                        assert((addr / PAGE_SIZE) as int <= w < (addr + size) / (PAGE_SIZE as int)) by (nonlinear_arith)
                            requires
                                addr <= r.start,
                                r.end <= addr + size,
                                r.start / 4096 <= w < r.end / 4096,
                                PAGE_SIZE == 4096,
                        ;
                    }
                }
                assert(apart_from_starting(v, s2, s2.len() as int, addr as int, (addr + size) as int, old(self).pmap.spec_levels()));
            }
        }
        self.insert_mapping(entry);
        Ok(())
    }

    /// The part of `bstart..bend` where a new region of `size` bytes may go: the gap between
    /// regions closest to `hint`, or the space after the last region.
    fn narrow(&self, size: usize, hint: usize, bstart: usize, bend: usize) -> (r: Option<(usize, usize)>)
        requires
            self.wf(),
            size > 0,
            size % PAGE_SIZE == 0,
            bstart % PAGE_SIZE == 0,
            bend % PAGE_SIZE == 0,
        ensures
            match r {
                None => narrowed(self.regions(), size as int, hint as int, bstart as int, bend as int) is None,
                Some((lo, hi)) => {
                    &&& narrowed(self.regions(), size as int, hint as int, bstart as int, bend as int) == Some((lo as int, hi as int))
                    &&& bstart <= lo
                    &&& hi <= bend
                    &&& lo % PAGE_SIZE == 0
                    &&& hi % PAGE_SIZE == 0
                    &&& forall|j: int| 0 <= j < self.regions().len() ==> (#[trigger] self.regions()[j]).end <= lo || self.regions()[j].start >= hi
                },
            },
    {
        let ghost s = self.regions();
        if self.entries.len() == 0 {
            return Some((bstart, bend));
        }
        let mut closest: Option<usize> = None;
        let mut closest_size: usize = 0;
        let mut prev = bstart;
        let mut i: usize = 0;
        while i < self.entries.len()
            invariant
                s == self.regions(),
                regions_ok(s),
                i <= s.len(),
                s.len() > 0,
                size > 0,
                size % PAGE_SIZE == 0,
                bstart % PAGE_SIZE == 0,
                prev >= bstart,
                prev % PAGE_SIZE == 0,
                forall|j: int| 0 <= j < i ==> (#[trigger] s[j]).end <= prev,
                closest matches Some(c) ==> {
                    &&& c >= bstart
                    &&& c % PAGE_SIZE == 0
                    &&& (c + closest_size) % PAGE_SIZE as int == 0
                    &&& c + closest_size <= usize::MAX
                    &&& forall|j: int| 0 <= j < s.len() ==> (#[trigger] s[j]).end <= c || s[j].start >= c + closest_size
                },
                scan(s, 0, bstart as int, size as int, hint as int, None, 0, bstart as int)
                    == scan(s, i as int, bstart as int, size as int, hint as int,
                        match closest { Some(c) => Some(c as int), None => None }, closest_size as int, prev as int),
            ensures
                i == s.len() || (closest is Some && abs_diff(prev as int, hint as int) > abs_diff(closest->Some_0 as int, hint as int)),
                scan(s, 0, bstart as int, size as int, hint as int, None, 0, bstart as int)
                    == (match closest { Some(c) => Some(c as int), None => None }, closest_size as int, prev as int),
            decreases s.len() - i,
        {
            if let Some(c) = closest {
                if dist(prev, hint) > dist(c, hint) {
                    break;
                }
            }
            let e_start = self.entries[i].range.start;
            let e_end = self.entries[i].range.end;
            assert(s[i as int] == self.entries@[i as int]@);
            let start = if e_start > bstart { e_start } else { bstart };
            if start >= prev.saturating_add(size).saturating_add(2 * MAP_MARGIN) {
                proof {
                    assert(start == s[i as int].start);
                    assert forall|j: int| 0 <= j < s.len() implies (#[trigger] s[j]).end <= prev || s[j].start >= prev + (start - prev) by {
                        if j > i {
                            assert(s[i as int].end <= s[j].start);
                        }
                    }
                }
                closest = Some(prev);
                closest_size = start - prev;
            }
            prev = if e_end > bstart { e_end } else { bstart };
            proof {
                assert forall|j: int| 0 <= j < i + 1 implies (#[trigger] s[j]).end <= prev by {
                    if j < i {
                        assert(s[j].end <= s[i as int].start);
                    }
                }
            }
            i = i + 1;
        }
        let tail = match closest {
            None => true,
            Some(c) => dist(prev, hint) <= dist(c, hint),
        };
        if tail && bend >= prev.saturating_add(size).saturating_add(2 * MAP_MARGIN) {
            closest = Some(prev);
            closest_size = bend - prev;
        }
        let cl = match closest {
            Some(c) => c,
            None => {
                return None;
            },
        };
        let lo = if bstart > cl { bstart } else { cl };
        let hi = if bend <= cl + closest_size { bend } else { cl + closest_size };
        Some((lo, hi))
    }

    /// Implementation of [`Self::map`] without the [`FIXED`] flag: the region is placed in a
    /// free part of `bounds`.
    fn map_dynamic(
        &mut self,
        size: usize,
        hint: usize,
        bounds: core::ops::Range<usize>,
        map_flags: u32,
        prot_flags: u8,
        mapping: Option<Mapping>,
    ) -> (r: EResult<usize>)
        requires
            old(self).wf(),
            size > 0,
            size % PAGE_SIZE == 0,
            hint % PAGE_SIZE == 0,
            bounds.start % PAGE_SIZE == 0,
            bounds.end % PAGE_SIZE == 0,
            mapping matches Some(m) ==> m.offset % (PAGE_SIZE as u64) == 0,
        ensures
            final(self).wf(),
            final(self).pmap == old(self).pmap,
            final(self).zeroes == old(self).zeroes,
            (r is Err) == (placement(old(self).regions(), size as int, hint as int, bounds.start as int, bounds.end as int) is None),
            r is Err ==> r == Err::<usize, Errno>(Errno::ENOMEM) && final(self).regions() == old(self).regions(),
            r matches Ok(a) ==> {
                &&& placement(old(self).regions(), size as int, hint as int, bounds.start as int, bounds.end as int) == Some(a as int)
                &&& bounds.start <= a
                &&& a + size <= bounds.end
                &&& a % PAGE_SIZE == 0
                &&& final(self).regions() == with_region(
                    old(self).regions(),
                    RegionView { start: a, end: (a + size) as usize, prot_flags, map_flags, mapping },
                )
                &&& forall|o: usize| #[trigger] final(self).anon_paddr(count_before(old(self).regions(), a as int), o) is None
                &&& disjoint_from(old(self).regions(), RegionView { start: a, end: (a + size) as usize, prot_flags, map_flags, mapping })
            },
    {
        let ghost s = self.regions();
        let (bstart, bend) = match self.narrow(size, hint, bounds.start, bounds.end) {
            Some(p) => p,
            None => {
                return Err(Errno::ENOMEM);
            },
        };
        let len = if bend > bstart { bend - bstart } else { 0 };
        let mut addr = hint;
        if len < size.saturating_add(2 * MAP_MARGIN) {
            return Err(Errno::ENOMEM);
        } else if hint < bstart + MAP_MARGIN {
            addr = bstart + MAP_MARGIN;
        } else if hint.saturating_add(size) > bend - MAP_MARGIN {
            addr = bend - size - MAP_MARGIN;
        }
        let entry = MapEntry {
            range: addr..addr + size,
            inner: MapEntryInner { prot_flags, map_flags, amap: None, mapping },
        };
        proof {
            assert(entry@.start % PAGE_SIZE == 0 && entry@.end % PAGE_SIZE == 0) by (nonlinear_arith)
                requires
                    addr == hint || addr == bstart + 4096 || addr == bend - size - 4096,
                    hint % 4096 == 0,
                    bstart % 4096 == 0,
                    bend % 4096 == 0,
                    size % 4096 == 0,
                    entry@.start == addr,
                    entry@.end == addr + size,
                    PAGE_SIZE == 4096,
            ;
        }
        self.insert_mapping(entry);
        Ok(addr)
    }

    /// Implementation of [`Self::fault`] once the region at position `idx` holds `vaddr`.
    #[verifier::rlimit(40)]
    fn fault_impl(
        &mut self,
        fences: &mut VmFenceSet,
        vaddr: usize,
        access: u8,
        idx: usize,
        pmm: &mut PhysAllocator,
    ) -> (r: EResult<()>)
        requires
            old(self).wf(),
            old(pmm).wf(),
            old(self).tables_in_use(*old(pmm)),
            // A `MappablePage` cannot name physical page 0, so no page may come from there.
            old(pmm).range_start() > 0,
            idx < old(self).regions().len(),
            old(self).regions()[idx as int].start <= vaddr < old(self).regions()[idx as int].end,
        ensures
            final(self).wf(),
            final(pmm).wf(),
            final(self).tables_in_use(*final(pmm)),
            final(self).regions() == old(self).regions(),
            final(self).zeroes == old(self).zeroes,
            final(self).pmap.spec_levels() == old(self).pmap.spec_levels(),
            final(pmm).range_start() == old(pmm).range_start(),
            final(pmm).range_end() == old(pmm).range_end(),
            allocated_from(*old(pmm), *final(pmm)),
            r is Err ==> r == Err::<(), Errno>(Errno::EFAULT) || r == Err::<(), Errno>(Errno::ENOMEM),
            r is Ok && access != 0 ==> final(self).pmap.walk_spec((vaddr / PAGE_SIZE) as usize, 0).valid,
            tables_allow(old(self).pmap, vaddr, access) ==> r is Ok && *final(self) == *old(self) && *final(pmm) == *old(pmm),
            !tables_allow(old(self).pmap, vaddr, access) && old(self).regions()[idx as int].prot_flags & access == 0
                ==> r == Err::<(), Errno>(Errno::EFAULT),
            r == Err::<(), Errno>(Errno::EFAULT) ==> !tables_allow(old(self).pmap, vaddr, access)
                && (old(self).regions()[idx as int].prot_flags & access == 0 || object_lacks(old(self).regions()[idx as int], vaddr)),
            r == Err::<(), Errno>(Errno::ENOMEM) ==> lowest_from(final(pmm).free_blocks(), 0) == 64,
            forall|v: usize| differs_above(v, (vaddr / PAGE_SIZE) as usize, 0, old(self).pmap.spec_levels())
                ==> #[trigger] walk_kept(old(self).pmap, final(self).pmap, v),
            r is Ok && !tables_allow(old(self).pmap, vaddr, access) ==> maps_with_region_flags(
                final(self).pmap.walk_spec((vaddr / PAGE_SIZE) as usize, 0),
                old(self).regions()[idx as int],
            ),
            r is Ok && !tables_allow(old(self).pmap, vaddr, access) ==> (backing_page(*final(self), idx as int, vaddr)
                matches Some(p) && p == final(self).pmap.walk_spec((vaddr / PAGE_SIZE) as usize, 0).ppn * PAGE_SIZE),
            forall|j: int, o: usize| 0 <= j < old(self).regions().len() && o % PAGE_SIZE == 0 && !(j == idx && o
                == page_base(vaddr) - old(self).regions()[idx as int].start) ==> #[trigger] final(self).anon_paddr(j, o)
                == old(self).anon_paddr(j, o),
            access != prot::WRITE && old(self).regions()[idx as int].mapping is Some
                && !object_lacks(old(self).regions()[idx as int], vaddr) ==> final(self).anon_paddr(
                idx as int,
                (page_base(vaddr) - old(self).regions()[idx as int].start) as usize,
            ) == old(self).anon_paddr(idx as int, (page_base(vaddr) - old(self).regions()[idx as int].start) as usize),
    {
        let page_vaddr = vaddr - vaddr % PAGE_SIZE;
        proof {
            assert(page_vaddr / PAGE_SIZE == vaddr / PAGE_SIZE && page_vaddr % PAGE_SIZE == 0) by (nonlinear_arith)
                requires
                    page_vaddr == vaddr - vaddr % 4096,
                    PAGE_SIZE == 4096,
            ;
        }
        let v2p = self.pmap.virt2phys(page_vaddr);
        let flags: u8 = if v2p.valid {
            prot::from_mmu_flags(v2p.flags)
        } else {
            0
        };
        if flags & access == access {
            proof {
                if !v2p.valid {
                    assert(0u8 & access == 0u8) by (bit_vector);
                }
            }
            // The page tables already allow this access; only the TLB must be outdated.
            fences.add(Some(page_vaddr), None);
            return Ok(());
        }
        let ghost pm0 = self.pmap;
        if v2p.valid {
            // The mapping is about to change, so no stale copy may remain in any TLB.
            let _ = self.pmap.unmap(pmm, page_vaddr / PAGE_SIZE);
            fences.add(Some(page_vaddr), None);
            let _ = crate::mem::vmfence::shootdown(fences);
            fences.clear();
        }
        let ghost mid = *self;
        proof {
            assert forall|v: usize| differs_above(v, (vaddr / PAGE_SIZE) as usize, 0, old(self).pmap.spec_levels())
                implies #[trigger] walk_kept(old(self).pmap, self.pmap, v) by {
            }
        }
        let ghost es = self.entries@;
        let mut entry = self.entries.remove(idx);
        proof {
            assert(es[idx as int]@ == mid.regions()[idx as int]);
            assert(es[idx as int].wf());
        }
        if (entry.inner.prot_flags & access) == 0 {
            self.entries.insert(idx, entry);
            proof {
                assert(self.entries@ =~= es);
            }
            return Err(Errno::EFAULT);
        }
        let offset = page_vaddr - entry.range.start;
        proof {
            let e = es[idx as int]@;
            assert(offset % PAGE_SIZE == 0 && offset + PAGE_SIZE <= usize::MAX) by (nonlinear_arith)
                requires
                    offset == page_vaddr - e.start,
                    page_vaddr % 4096 == 0,
                    e.start % 4096 == 0,
                    e.end % 4096 == 0,
                    e.start <= page_vaddr < e.end,
                    e.end <= usize::MAX,
                    PAGE_SIZE == 4096,
            ;
        }
        let existing = entry.inner.get_page(offset, self.zeroes);
        let need_alloc = match &existing {
            None => true,
            Some(p) => access == prot::WRITE && !p.writable(),
        };
        proof {
            let e = es[idx as int]@;
            if access != prot::WRITE && e.mapping is Some && !object_lacks(e, vaddr) {
                assert(page_base(vaddr) == page_vaddr);
                assert(entry.inner.page_spec(offset, self.zeroes) is Some);
                assert(!need_alloc);
            }
        }
        let ghost p_before = *pmm;
        let page = if need_alloc {
            match entry.inner.alloc_page(offset, access == prot::WRITE, self.zeroes, pmm) {
                Ok(p) => p,
                Err(e) => {
                    proof {
                        self.pmap.lemma_tables_in_use_shrink(p_before, *pmm);
                    }
                    self.entries.insert(idx, entry);
                    proof {
                        assert(views(self.entries@) =~= views(es));
                        assert forall|i: int| 0 <= i < self.entries@.len() implies (#[trigger] self.entries@[i]).wf() by {
                            if i != idx {
                                assert(self.entries@[i] == es[i]);
                            }
                        }
                    }
                    return Err(e);
                },
            }
        } else {
            existing.unwrap()
        };
        let mut prot_flags = entry.inner.prot_flags;
        if !page.writable() && entry.inner.map_flags & SHARED == 0 {
            prot_flags = prot_flags & !prot::WRITE;
        }
        let m0 = prot::into_mmu_flags(prot_flags);
        let mut mmu_flags = m0 | mmu::A;
        proof {
            prot::lemma_mmu_prot_of(prot_flags, m0);
            assert(mmu::A & 0x60e == 0) by (bit_vector);
            prot::lemma_prot_extra_bits(m0, mmu::A);
        }
        let k: usize = (usize::BITS - 1) as usize;
        proof {
            crate::mem::arith::lemma_one_shl(k);
        }
        proof {
            assert(mmu::U & 0x60e == 0 && mmu::G & 0x60e == 0 && mmu::REFCOUNT & 0x60e == 0 && mmu::D & 0x60e == 0) by (bit_vector);
        }
        let ghost f0 = mmu_flags;
        if vaddr > 0 && vaddr < (1usize << k) {
            mmu_flags = mmu_flags | mmu::U;
            proof {
                prot::lemma_prot_extra_bits(f0, mmu::U);
            }
        } else {
            mmu_flags = mmu_flags | mmu::G;
            proof {
                prot::lemma_prot_extra_bits(f0, mmu::G);
            }
        }
        let ghost f1 = mmu_flags;
        if page.refcounted() {
            mmu_flags = mmu_flags | mmu::REFCOUNT;
            proof {
                prot::lemma_prot_extra_bits(f1, mmu::REFCOUNT);
            }
        }
        let ghost f2 = mmu_flags;
        if !page.tracks_dirty() {
            mmu_flags = mmu_flags | mmu::D;
            proof {
                prot::lemma_prot_extra_bits(f2, mmu::D);
            }
        }
        assert(prot::mmu_prot(mmu_flags) == prot_flags & 0x1f);
        assert(entry.inner.page_spec(offset, self.zeroes) matches Some(b) && b.0 == page.spec_paddr());
        let ghost ent = entry;
        proof {
            if !need_alloc {
                assert(ent == es[idx as int]);
            }
        }
        self.entries.insert(idx, entry);
        proof {
            assert(views(self.entries@) =~= views(es));
            assert forall|i: int| 0 <= i < self.entries@.len() implies (#[trigger] self.entries@[i]).wf() by {
                if i != idx {
                    assert(self.entries@[i] == es[i]);
                }
            }
        }
        let paddr = page.paddr();
        proof {
            physmap::lemma_page_fits(paddr);
            self.pmap.lemma_tables_in_use_shrink(p_before, *pmm);
        }
        let ghost pm1 = self.pmap;
        let r = self.pmap.map(pmm, page_vaddr / PAGE_SIZE, paddr / PAGE_SIZE, mmu_flags);
        proof {
            assert forall|v: usize| differs_above(v, (vaddr / PAGE_SIZE) as usize, 0, old(self).pmap.spec_levels())
                implies #[trigger] walk_kept(old(self).pmap, self.pmap, v) by {
                assert(walk_kept(old(self).pmap, pm1, v));
                lemma_walk_kept_trans(old(self).pmap, pm1, self.pmap, v);
            }
            if r is Ok {
                assert(self.entries@[idx as int] == ent);
                assert(self.regions()[idx as int] == ent@);
                assert(page_base(vaddr) == page_vaddr);
                assert(self.anon_paddr(idx as int, offset) == ent.inner.anon_paddr(offset));
                assert((paddr / PAGE_SIZE) * PAGE_SIZE == paddr) by (nonlinear_arith)
                    requires
                        paddr % 4096 == 0,
                        PAGE_SIZE == 4096,
                ;
            }
        }
        r
    }

    /// One step of [`Self::populate`]: faulting in the page at `addr + off` of region `k` takes
    /// what holds of the pages before it to that page, and keeps the later pages untranslated.
    #[verifier::spinoff_prover]
    proof fn lemma_populate_step(a: VmSpaceInner, b: VmSpaceInner, addr: usize, size: usize, off: usize, k: int, access: u8, pm0: PhysMap)
        requires
            a.wf(),
            b.wf(),
            b.regions() == a.regions(),
            0 <= k < a.regions().len(),
            a.regions()[k].start == addr,
            a.regions()[k].end == addr + size,
            addr % PAGE_SIZE == 0,
            off % PAGE_SIZE == 0,
            off < size,
            size % PAGE_SIZE == 0,
            addr + size <= usize::MAX,
            access == prot::READ || access == prot::WRITE,
            b.page_map().spec_levels() == a.page_map().spec_levels(),
            canon_pages(addr as int, addr + size, a.page_map().spec_levels()),
            b.zero_page() == a.zero_page(),
            forall|v: usize| differs_above(v, ((addr + off) / PAGE_SIZE as int) as usize, 0, a.page_map().spec_levels())
                ==> #[trigger] walk_kept(a.page_map(), b.page_map(), v),
            forall|j: int, o: usize| 0 <= j < a.regions().len() && o % PAGE_SIZE == 0 && !(a.regions()[j].start
                <= ((addr + off) as usize) < a.regions()[j].end && o == page_base(((addr + off) as usize)) - a.regions()[j].start)
                ==> #[trigger] b.anon_paddr(j, o) == a.anon_paddr(j, o),
            forall|j: int| 0 <= j < a.regions().len() && (#[trigger] a.regions()[j]).start <= ((addr + off) as usize)
                < a.regions()[j].end && !tables_allow(a.page_map(), ((addr + off) as usize), access) ==> {
                &&& maps_with_region_flags(b.page_map().walk_spec((((addr + off) as usize) / PAGE_SIZE) as usize, 0), a.regions()[j])
                &&& backing_page(b, j, ((addr + off) as usize)) matches Some(p)
                    && p == b.page_map().walk_spec((((addr + off) as usize) / PAGE_SIZE) as usize, 0).ppn * PAGE_SIZE
            },
            forall|v: usize|
                #![trigger a.page_map().walk_spec(v, 0)]
                (addr + off) / (PAGE_SIZE as int) <= v < (addr + size) / (PAGE_SIZE as int)
                && !pm0.walk_spec(v, 0).valid ==> !a.page_map().walk_spec(v, 0).valid,
            forall|v: usize|
                #![trigger a.page_map().walk_spec(v, 0)]
                addr as int / (PAGE_SIZE as int) <= v < (addr + off) / (PAGE_SIZE as int)
                && !pm0.walk_spec(v, 0).valid ==> {
                &&& maps_with_region_flags(a.page_map().walk_spec(v, 0), a.regions()[k])
                &&& backing_page(a, k, (v * PAGE_SIZE) as usize) matches Some(p)
                    && p == a.page_map().walk_spec(v, 0).ppn * PAGE_SIZE
            },
        ensures
            forall|v: usize|
                #![trigger b.page_map().walk_spec(v, 0)]
                (addr + off + PAGE_SIZE) / (PAGE_SIZE as int) <= v < (addr + size) / (PAGE_SIZE as int)
                && !pm0.walk_spec(v, 0).valid ==> !b.page_map().walk_spec(v, 0).valid,
            forall|v: usize|
                #![trigger b.page_map().walk_spec(v, 0)]
                addr as int / (PAGE_SIZE as int) <= v < (addr + off + PAGE_SIZE) / (PAGE_SIZE as int)
                && !pm0.walk_spec(v, 0).valid ==> {
                &&& maps_with_region_flags(b.page_map().walk_spec(v, 0), a.regions()[k])
                &&& backing_page(b, k, (v * PAGE_SIZE) as usize) matches Some(p)
                    && p == b.page_map().walk_spec(v, 0).ppn * PAGE_SIZE
            },
    {
        let levels = a.page_map().spec_levels();
        let vaddr = ((addr + off) as usize);
        let u = (vaddr / PAGE_SIZE) as usize;
        assert(u * 4096 == vaddr && (addr + off + 4096) / 4096 == u + 1 && addr / 4096 <= u && u < (addr + size) / 4096
            && page_base(vaddr) == vaddr) by (nonlinear_arith)
            requires
                vaddr == addr + off,
                u == vaddr / 4096,
                addr % 4096 == 0,
                off % 4096 == 0,
                off < size,
                size % 4096 == 0,
                PAGE_SIZE == 4096,
        ;
        let r = a.regions()[k];
        assert(regions_ok(a.regions()));
        // Pages of the region other than `u` differ from it in a translated index.
        assert forall|v: usize| addr as int / (PAGE_SIZE as int) <= v < (addr + size) / (PAGE_SIZE as int) && v != u
            implies differs_above(v, u, 0, levels) by {
            assert(v * 4096 <= usize::MAX && u * 4096 <= usize::MAX) by (nonlinear_arith)
                requires
                    v < (addr + size) / 4096,
                    u < (addr + size) / 4096,
                    addr + size <= usize::MAX,
            ;
            physmap::lemma_vpn_bits_small(v);
            physmap::lemma_vpn_bits_small(u);
            a.pmap.lemma_wf_levels();
            assert(physmap::canon_page(v, levels));
            assert(physmap::canon_page(u, levels));
            physmap::lemma_canon_pages_differ(v, u, levels);
        }
        // Page `u` itself.
        if !pm0.walk_spec(u, 0).valid {
            assert(!a.page_map().walk_spec(u, 0).valid);
            a.pmap.lemma_page_translation(u);
            assert((u * PAGE_SIZE) as usize == vaddr);
            assert(0u8 & prot::READ != prot::READ && 0u8 & prot::WRITE != prot::WRITE) by (bit_vector);
            assert(!tables_allow(a.page_map(), vaddr, access));
            assert(a.regions()[k].start <= vaddr < a.regions()[k].end);
        }
        assert forall|v: usize|
            #![trigger b.page_map().walk_spec(v, 0)]
            (addr + off + PAGE_SIZE) / (PAGE_SIZE as int) <= v < (addr + size) / (PAGE_SIZE as int)
            && !pm0.walk_spec(v, 0).valid implies !b.page_map().walk_spec(v, 0).valid by {
            assert(!a.page_map().walk_spec(v, 0).valid);
            assert(walk_kept(a.page_map(), b.page_map(), v));
        }
        assert forall|v: usize|
            #![trigger b.page_map().walk_spec(v, 0)]
            addr as int / (PAGE_SIZE as int) <= v < (addr + off + PAGE_SIZE) / (PAGE_SIZE as int)
            && !pm0.walk_spec(v, 0).valid implies {
            &&& maps_with_region_flags(b.page_map().walk_spec(v, 0), a.regions()[k])
            &&& backing_page(b, k, (v * PAGE_SIZE) as usize) matches Some(p)
                && p == b.page_map().walk_spec(v, 0).ppn * PAGE_SIZE
        } by {
            if v != u {
                assert(v < u);
                assert(a.page_map().walk_spec(v, 0).valid);
                assert(walk_kept(a.page_map(), b.page_map(), v));
                assert(b.page_map().walk_spec(v, 0) == a.page_map().walk_spec(v, 0));
                assert(v * 4096 < addr + off) by (nonlinear_arith)
                    requires
                        v < u,
                        u * 4096 == addr + off,
                ;
                let w = (v * PAGE_SIZE) as usize;
                assert(w == v * 4096);
                assert(w % 4096 == 0 && w - addr != off && addr <= w < addr + size
                    && (w - addr) % 4096 == 0) by (nonlinear_arith)
                    requires
                        w == v * 4096,
                        addr / 4096 <= v < u,
                        u * 4096 == addr + off,
                        addr % 4096 == 0,
                        off < size,
                ;
                assert(page_base(w) == w);
                assert(b.anon_paddr(k, (w - addr) as usize) == a.anon_paddr(k, (w - addr) as usize));
            } else {
                assert(!tables_allow(a.page_map(), ((addr + off) as usize), access));
                assert((v * PAGE_SIZE) as usize == ((addr + off) as usize));
                assert(((((addr + off) as usize) / PAGE_SIZE) as usize) == v);
            }
        }
    }

    /// Fault in every page of region `k`, which runs from `addr` for `size` bytes, for `access`.
    /// The pages that the tables did not translate before are then translated to their backing
    /// pages with the region's protection, where every page of the region is canonical.
    fn populate(
        &mut self,
        fences: &mut VmFenceSet,
        addr: usize,
        size: usize,
        Ghost(k): Ghost<int>,
        access: u8,
        pmm: &mut PhysAllocator,
    ) -> (r: EResult<()>)
        requires
            old(self).wf(),
            old(pmm).wf(),
            old(self).tables_in_use(*old(pmm)),
            // A `MappablePage` cannot name physical page 0, so no page may come from there.
            old(pmm).range_start() > 0,
            0 <= k < old(self).regions().len(),
            old(self).regions()[k].start == addr,
            old(self).regions()[k].end == addr + size,
            addr % PAGE_SIZE == 0,
            size % PAGE_SIZE == 0,
            access == prot::READ || access == prot::WRITE,
            old(self).regions()[k].mapping matches Some(m) ==> size <= round_up(m.object.spec_len() - m.offset),
        ensures
            final(self).wf(),
            final(pmm).wf(),
            final(self).tables_in_use(*final(pmm)),
            final(self).regions() == old(self).regions(),
            final(self).page_map().spec_levels() == old(self).page_map().spec_levels(),
            final(pmm).range_start() == old(pmm).range_start(),
            final(pmm).range_end() == old(pmm).range_end(),
            allocated_from(*old(pmm), *final(pmm)),
            r is Err ==> r == Err::<(), Errno>(Errno::EFAULT) || r == Err::<(), Errno>(Errno::ENOMEM),
            r == Err::<(), Errno>(Errno::EFAULT) ==> old(self).regions()[k].prot_flags & access == 0,
            r == Err::<(), Errno>(Errno::ENOMEM) ==> lowest_from(final(pmm).free_blocks(), 0) == 64,
            forall|v: usize| apart_from(v, addr as int / (PAGE_SIZE as int), (addr + size) / (PAGE_SIZE as int),
                old(self).page_map().spec_levels()) ==> #[trigger] walk_kept(old(self).page_map(), final(self).page_map(), v),
            r is Ok && canon_pages(addr as int, addr + size, old(self).page_map().spec_levels()) ==> forall|v: usize|
                #![trigger final(self).page_map().walk_spec(v, 0)]
                addr as int / (PAGE_SIZE as int) <= v < (addr + size) / (PAGE_SIZE as int)
                && !old(self).page_map().walk_spec(v, 0).valid ==> {
                &&& maps_with_region_flags(final(self).page_map().walk_spec(v, 0), old(self).regions()[k])
                &&& backing_page(*final(self), k, (v * PAGE_SIZE) as usize) matches Some(p)
                    && p == final(self).page_map().walk_spec(v, 0).ppn * PAGE_SIZE
            },
            access != prot::WRITE && old(self).regions()[k].mapping is Some ==> forall|o: usize| o % PAGE_SIZE == 0
                ==> #[trigger] final(self).anon_paddr(k, o) == old(self).anon_paddr(k, o),
    {
        let ghost regs = self.regions();
        let ghost region = regs[k];
        let ghost levels = self.page_map().spec_levels();
        let ghost canon = canon_pages(addr as int, addr + size, levels);
        proof {
            assert(addr + size <= usize::MAX) by {
                assert(regions_ok(regs));
                assert(regs[k].end <= usize::MAX);
            }
        }
        let mut off: usize = 0;
        while off < size
            invariant
                old(self).wf(),
                pmm.range_start() > 0,
                self.wf(),
                pmm.wf(),
                self.tables_in_use(*pmm),
                self.regions() == regs,
                regs == old(self).regions(),
                region == regs[k],
                0 <= k < regs.len(),
                region.start == addr,
                region.end == addr + size,
                self.page_map().spec_levels() == levels,
                levels == old(self).page_map().spec_levels(),
                pmm.range_start() == old(pmm).range_start(),
                pmm.range_end() == old(pmm).range_end(),
                allocated_from(*old(pmm), *pmm),
                addr + size <= usize::MAX,
                addr % PAGE_SIZE == 0,
                off % PAGE_SIZE == 0,
                off <= size,
                size % PAGE_SIZE == 0,
                access == prot::READ || access == prot::WRITE,
                region.mapping matches Some(m) ==> size <= round_up(m.object.spec_len() - m.offset),
                canon == canon_pages(addr as int, addr + size, levels),
                forall|v: usize| apart_from(v, addr as int / (PAGE_SIZE as int), (addr + size) / (PAGE_SIZE as int), levels)
                    ==> #[trigger] walk_kept(old(self).page_map(), self.page_map(), v),
                canon ==> forall|v: usize|
                    #![trigger self.page_map().walk_spec(v, 0)]
                    (addr + off) / (PAGE_SIZE as int) <= v < (addr + size) / (PAGE_SIZE as int)
                    && !old(self).page_map().walk_spec(v, 0).valid ==> !self.page_map().walk_spec(v, 0).valid,
                canon ==> forall|v: usize|
                    #![trigger self.page_map().walk_spec(v, 0)]
                    addr as int / (PAGE_SIZE as int) <= v < (addr + off) / (PAGE_SIZE as int)
                    && !old(self).page_map().walk_spec(v, 0).valid ==> {
                    &&& maps_with_region_flags(self.page_map().walk_spec(v, 0), region)
                    &&& backing_page(*self, k, (v * PAGE_SIZE) as usize) matches Some(p)
                        && p == self.page_map().walk_spec(v, 0).ppn * PAGE_SIZE
                },
                access != prot::WRITE && region.mapping is Some ==> forall|o: usize| o % PAGE_SIZE == 0
                    ==> #[trigger] self.anon_paddr(k, o) == old(self).anon_paddr(k, o),
            decreases size - off,
        {
            let ghost pm_before = self.page_map();
            let ghost vs_before = *self;
            let ghost u = ((addr + off) / (PAGE_SIZE as int)) as usize;
            proof {
                assert((addr as int) / (PAGE_SIZE as int) <= u && u < (addr + size) / (PAGE_SIZE as int)
                    && u * 4096 == addr + off && (addr + off + 4096) / 4096 == u + 1) by (nonlinear_arith)
                    requires
                        u == (addr + off) / 4096,
                        off < size,
                        size % 4096 == 0,
                        addr % 4096 == 0,
                        off % 4096 == 0,
                        PAGE_SIZE == 4096,
                ;
            }
            let fr = self.populate_page(fences, addr + off, access, pmm);
            proof {
                if access != prot::WRITE && region.mapping is Some {
                    let vaddr = (addr + off) as usize;
                    lemma_populated_page_in_object(region, addr, off, size);
                    assert(page_base(vaddr) == vaddr) by {
                        assert(vaddr % 4096 == 0) by (nonlinear_arith)
                            requires
                                vaddr == addr + off,
                                addr % 4096 == 0,
                                off % 4096 == 0,
                        ;
                    }
                    assert(regs[k].start <= vaddr < regs[k].end);
                    assert forall|o: usize| o % PAGE_SIZE == 0 implies #[trigger] self.anon_paddr(k, o)
                        == old(self).anon_paddr(k, o) by {
                        if o == off {
                            assert(self.anon_paddr(k, (page_base(vaddr) - regs[k].start) as usize)
                                == vs_before.anon_paddr(k, (page_base(vaddr) - regs[k].start) as usize));
                        } else {
                            assert(self.anon_paddr(k, o) == vs_before.anon_paddr(k, o));
                        }
                    }
                }
                assert forall|v: usize| apart_from(v, addr as int / (PAGE_SIZE as int), (addr + size) / (PAGE_SIZE as int), levels)
                    implies #[trigger] walk_kept(old(self).page_map(), self.page_map(), v) by {
                    assert(differs_above(v, u, 0, levels));
                    assert(walk_kept(old(self).page_map(), pm_before, v));
                    lemma_walk_kept_trans(old(self).page_map(), pm_before, self.page_map(), v);
                }
            }
            match fr {
                Ok(()) => {},
                Err(e) => {
                    proof {
                        if e == Errno::EFAULT && region.prot_flags & access != 0 {
                            lemma_populated_page_in_object(region, addr, off, size);
                        }
                    }
                    return Err(e);
                },
            }
            proof {
                if canon {
                    Self::lemma_populate_step(vs_before, *self, addr, size, off, k, access, old(self).page_map());
                }
            }
            off = off + PAGE_SIZE;
        }
        Ok(())
    }

    /// Fault in every page of region `k`, made just now at `addr` for `size` bytes and without
    /// anonymous pages yet: with write access where it maps no memory object, else with read
    /// access. What this brings about is [`populated`].
    fn populate_new(
        &mut self,
        fences: &mut VmFenceSet,
        addr: usize,
        size: usize,
        Ghost(k): Ghost<int>,
        access: u8,
        pmm: &mut PhysAllocator,
    ) -> (r: EResult<()>)
        requires
            old(self).wf(),
            old(pmm).wf(),
            old(self).tables_in_use(*old(pmm)),
            // A `MappablePage` cannot name physical page 0, so no page may come from there.
            old(pmm).range_start() > 0,
            0 <= k < old(self).regions().len(),
            old(self).regions()[k].start == addr,
            old(self).regions()[k].end == addr + size,
            addr % PAGE_SIZE == 0,
            size % PAGE_SIZE == 0,
            access == if old(self).regions()[k].mapping is None { prot::WRITE } else { prot::READ },
            old(self).regions()[k].mapping matches Some(m) ==> size <= round_up(m.object.spec_len() - m.offset),
            forall|o: usize| #[trigger] old(self).anon_paddr(k, o) is None,
        ensures
            final(self).wf(),
            final(pmm).wf(),
            final(self).tables_in_use(*final(pmm)),
            final(self).regions() == old(self).regions(),
            final(self).page_map().spec_levels() == old(self).page_map().spec_levels(),
            final(pmm).range_start() == old(pmm).range_start(),
            final(pmm).range_end() == old(pmm).range_end(),
            allocated_from(*old(pmm), *final(pmm)),
            r is Err ==> r == Err::<(), Errno>(Errno::EFAULT) || r == Err::<(), Errno>(Errno::ENOMEM),
            r == Err::<(), Errno>(Errno::EFAULT) ==> old(self).regions()[k].prot_flags & access == 0,
            r == Err::<(), Errno>(Errno::ENOMEM) ==> lowest_from(final(pmm).free_blocks(), 0) == 64,
            forall|v: usize| apart_from(v, addr as int / (PAGE_SIZE as int), (addr + size) / (PAGE_SIZE as int),
                old(self).page_map().spec_levels()) ==> #[trigger] walk_kept(old(self).page_map(), final(self).page_map(), v),
            r is Ok ==> populated(*old(self), *final(self), addr, size as int),
    {
        let ghost regs = self.regions();
        let ghost vs1 = *self;
        let res = self.populate(fences, addr, size, Ghost(k), access, pmm);
        proof {
            if res is Ok {
                let levels = vs1.page_map().spec_levels();
                assert(regions_ok(regs));
                assert forall|j: int, v: usize|
                    #![trigger self.regions()[j], self.page_map().walk_spec(v, 0)]
                    0 <= j < self.regions().len() && self.regions()[j].start == addr
                    && canon_pages(addr as int, addr + size, levels)
                    && addr as int / (PAGE_SIZE as int) <= v < (addr + size) / (PAGE_SIZE as int)
                    && !vs1.page_map().walk_spec(v, 0).valid implies {
                    &&& maps_with_region_flags(self.page_map().walk_spec(v, 0), self.regions()[j])
                    &&& backing_page(*self, j, (v * PAGE_SIZE) as usize) matches Some(p)
                        && p == self.page_map().walk_spec(v, 0).ppn * PAGE_SIZE
                    &&& self.regions()[j].mapping matches Some(m) ==> self.page_map().walk_spec(v, 0).ppn * PAGE_SIZE
                        == (m.object.spec_paddr() + object_offset(m, (v * PAGE_SIZE - addr) as usize)) as usize
                } by {
                    if j != k {
                        if j < k {
                            assert(regs[j].end <= regs[k].start);
                        } else {
                            assert(regs[k].end <= regs[j].start);
                        }
                    }
                    assert(j == k);
                    assert(addr + size <= usize::MAX) by {
                        assert(regs[k].end <= usize::MAX);
                    }
                    assert(v * 4096 < addr + size) by (nonlinear_arith)
                        requires
                            v < (addr + size) / 4096,
                    ;
                    let w = (v * PAGE_SIZE) as usize;
                    assert(w == v * 4096);
                    assert(w % 4096 == 0 && (w - addr) % 4096 == 0 && addr <= w) by (nonlinear_arith)
                        requires
                            w == v * 4096,
                            addr / 4096 <= v,
                            addr % 4096 == 0,
                    ;
                    assert(page_base(w) == w);
                    assert(self.page_map().walk_spec(v, 0) == self.page_map().walk_spec(v, 0));
                    if regs[k].mapping is Some {
                        assert(self.anon_paddr(k, (w - addr) as usize) == vs1.anon_paddr(k, (w - addr) as usize));
                        assert(self.anon_paddr(k, (w - addr) as usize) is None);
                    }
                }
            }
        }
        res
    }

    /// Fault in the page at `vaddr` of a mapping being populated: what [`Self::fault`] does, of
    /// whose outcome this states what populating needs.
    fn populate_page(&mut self, fences: &mut VmFenceSet, vaddr: usize, access: u8, pmm: &mut PhysAllocator) -> (r: EResult<()>)
        requires
            old(self).wf(),
            old(pmm).wf(),
            old(self).tables_in_use(*old(pmm)),
            // A `MappablePage` cannot name physical page 0, so no page may come from there.
            old(pmm).range_start() > 0,
        ensures
            final(self).wf(),
            final(pmm).wf(),
            final(self).tables_in_use(*final(pmm)),
            final(self).regions() == old(self).regions(),
            final(self).page_map().spec_levels() == old(self).page_map().spec_levels(),
            final(pmm).range_start() == old(pmm).range_start(),
            final(pmm).range_end() == old(pmm).range_end(),
            allocated_from(*old(pmm), *final(pmm)),
            r is Err ==> r == Err::<(), Errno>(Errno::EFAULT) || r == Err::<(), Errno>(Errno::ENOMEM),
            forall|k: int| 0 <= k < old(self).regions().len() && (#[trigger] old(self).regions()[k]).start <= vaddr
                < old(self).regions()[k].end && r == Err::<(), Errno>(Errno::EFAULT)
                ==> old(self).regions()[k].prot_flags & access == 0 || object_lacks(old(self).regions()[k], vaddr),
            r == Err::<(), Errno>(Errno::ENOMEM) ==> lowest_from(final(pmm).free_blocks(), 0) == 64,
            forall|v: usize| differs_above(v, (vaddr / PAGE_SIZE) as usize, 0, old(self).page_map().spec_levels())
                ==> #[trigger] walk_kept(old(self).page_map(), final(self).page_map(), v),
            forall|j: int, o: usize| 0 <= j < old(self).regions().len() && o % PAGE_SIZE == 0 && !(old(self).regions()[j].start
                <= vaddr < old(self).regions()[j].end && o == page_base(vaddr) - old(self).regions()[j].start)
                ==> #[trigger] final(self).anon_paddr(j, o) == old(self).anon_paddr(j, o),
            final(self).zero_page() == old(self).zero_page(),
            r is Ok && access != 0 ==> final(self).page_map().walk_spec((vaddr / PAGE_SIZE) as usize, 0).valid,
            forall|k: int| 0 <= k < old(self).regions().len() && (#[trigger] old(self).regions()[k]).start <= vaddr
                < old(self).regions()[k].end && access != prot::WRITE && old(self).regions()[k].mapping is Some
                && !object_lacks(old(self).regions()[k], vaddr) ==> final(self).anon_paddr(
                k,
                (page_base(vaddr) - old(self).regions()[k].start) as usize,
            ) == old(self).anon_paddr(k, (page_base(vaddr) - old(self).regions()[k].start) as usize),
            forall|k: int| 0 <= k < old(self).regions().len() && (#[trigger] old(self).regions()[k]).start <= vaddr
                < old(self).regions()[k].end && r is Ok && !tables_allow(old(self).page_map(), vaddr, access) ==> {
                &&& maps_with_region_flags(final(self).page_map().walk_spec((vaddr / PAGE_SIZE) as usize, 0), old(self).regions()[k])
                &&& backing_page(*final(self), k, vaddr) matches Some(p)
                    && p == final(self).page_map().walk_spec((vaddr / PAGE_SIZE) as usize, 0).ppn * PAGE_SIZE
            },
    {
        self.fault(fences, vaddr, access, pmm)
    }

    /// Handle a page fault at address `vaddr`.
    /// If this returns `Ok`, the access should be retried.
    pub fn fault(&mut self, fences: &mut VmFenceSet, vaddr: usize, access: u8, pmm: &mut PhysAllocator) -> (r: EResult<()>)
        requires
            old(self).wf(),
            old(pmm).wf(),
            old(self).tables_in_use(*old(pmm)),
            // A `MappablePage` cannot name physical page 0, so no page may come from there.
            old(pmm).range_start() > 0,
        ensures
            final(self).wf(),
            final(pmm).wf(),
            final(self).tables_in_use(*final(pmm)),
            final(self).regions() == old(self).regions(),
            final(self).page_map().spec_levels() == old(self).page_map().spec_levels(),
            final(pmm).range_start() == old(pmm).range_start(),
            final(pmm).range_end() == old(pmm).range_end(),
            allocated_from(*old(pmm), *final(pmm)),
            !region_holds(old(self).regions(), vaddr as int) ==> r == Err::<(), Errno>(Errno::EFAULT) && *final(self) == *old(self),
            r is Err ==> r == Err::<(), Errno>(Errno::EFAULT) || r == Err::<(), Errno>(Errno::ENOMEM),
            r is Ok && access != 0 ==> final(self).page_map().walk_spec((vaddr / PAGE_SIZE) as usize, 0).valid,
            forall|k: int| 0 <= k < old(self).regions().len() && (#[trigger] old(self).regions()[k]).start <= vaddr
                < old(self).regions()[k].end ==> {
                let e = old(self).regions()[k];
                let fast = tables_allow(old(self).page_map(), vaddr, access);
                &&& fast ==> r is Ok && *final(self) == *old(self) && *final(pmm) == *old(pmm)
                &&& !fast && e.prot_flags & access == 0 ==> r == Err::<(), Errno>(Errno::EFAULT)
                &&& r == Err::<(), Errno>(Errno::EFAULT) ==> !fast && (e.prot_flags & access == 0 || object_lacks(e, vaddr))
                &&& r is Ok && !fast ==> maps_with_region_flags(final(self).page_map().walk_spec((vaddr / PAGE_SIZE) as usize, 0), e)
                &&& r is Ok && !fast ==> (backing_page(*final(self), k, vaddr) matches Some(p)
                    && p == final(self).page_map().walk_spec((vaddr / PAGE_SIZE) as usize, 0).ppn * PAGE_SIZE)
                &&& access != prot::WRITE && e.mapping is Some && !object_lacks(e, vaddr)
                    ==> final(self).anon_paddr(k, (page_base(vaddr) - e.start) as usize)
                    == old(self).anon_paddr(k, (page_base(vaddr) - e.start) as usize)
            },
            r == Err::<(), Errno>(Errno::ENOMEM) ==> lowest_from(final(pmm).free_blocks(), 0) == 64,
            forall|v: usize| differs_above(v, (vaddr / PAGE_SIZE) as usize, 0, old(self).page_map().spec_levels())
                ==> #[trigger] walk_kept(old(self).page_map(), final(self).page_map(), v),
            forall|j: int, o: usize| 0 <= j < old(self).regions().len() && o % PAGE_SIZE == 0 && !(old(self).regions()[j].start
                <= vaddr < old(self).regions()[j].end && o == page_base(vaddr) - old(self).regions()[j].start)
                ==> #[trigger] final(self).anon_paddr(j, o) == old(self).anon_paddr(j, o),
            final(self).zero_page() == old(self).zero_page(),
    {
        let mut i: usize = 0;
        while i < self.entries.len()
            invariant
                i <= self.entries@.len(),
                *self == *old(self),
                *pmm == *old(pmm),
                self.wf(),
                pmm.wf(),
                self.tables_in_use(*pmm),
                pmm.range_start() > 0,
                forall|j: int| 0 <= j < i ==> !((#[trigger] self.regions()[j]).start <= vaddr < self.regions()[j].end),
            decreases self.entries@.len() - i,
        {
            assert(self.regions()[i as int] == self.entries@[i as int]@);
            if self.entries[i].range.start <= vaddr && vaddr < self.entries[i].range.end {
                proof {
                    let s = self.regions();
                    assert forall|k: int| 0 <= k < s.len() && (#[trigger] s[k]).start <= vaddr < s[k].end implies k == i by {
                        if k < i {
                            assert(s[k].end <= s[i as int].start);
                        } else if k > i {
                            assert(s[i as int].end <= s[k].start);
                        }
                    }
                }
                return self.fault_impl(fences, vaddr, access, i, pmm);
            }
            i = i + 1;
        }
        proof {
            assert forall|v: usize| differs_above(v, (vaddr / PAGE_SIZE) as usize, 0, old(self).page_map().spec_levels())
                implies #[trigger] walk_kept(old(self).page_map(), self.page_map(), v) by {
            }
        }
        Err(Errno::EFAULT)
    }

    /// Create a new, empty address space whose page tables have `levels` levels.
    pub fn new(pmm: &mut PhysAllocator, levels: u32, zeroes: usize) -> (r: EResult<Self>)
        requires
            old(pmm).wf(),
            levels_ok(levels),
            zeroes != 0,
            zeroes % PAGE_SIZE == 0,
        ensures
            final(pmm).wf(),
            final(pmm).range_start() == old(pmm).range_start(),
            final(pmm).range_end() == old(pmm).range_end(),
            allocated_from(*old(pmm), *final(pmm)),
            r is Err ==> r == Err::<Self, Errno>(Errno::ENOMEM),
            (r is Err) <==> lowest_from(old(pmm).free_blocks(), 0) == 64,
            r is Err ==> *final(pmm) == *old(pmm),
            r matches Ok(v) ==> {
                &&& v.wf()
                &&& v.tables_in_use(*final(pmm))
                &&& v.regions() == Seq::<RegionView>::empty()
                &&& v.page_map().spec_levels() == levels
                &&& forall|vpn: usize| !(#[trigger] v.page_map().walk_spec(vpn, 0)).valid
            },
    {
        let pmap = match PhysMap::new(pmm, levels) {
            Ok(m) => m,
            Err(e) => {
                return Err(e);
            },
        };
        let v = VmSpaceInner { pmap, entries: Vec::new(), zeroes };
        assert(v.regions() =~= Seq::<RegionView>::empty());
        Ok(v)
    }

    /// Create a new mapping that must exist somewhere within `bounds` and try to place it at `hint`.
    /// If the [`FIXED`] flag is set in `map_flags`, then overwrite any existing mappings in the way.
    /// Will never touch ranges of memory outside of `bounds`; a failed [`POPULATE`] fault is
    /// returned and leaves the mapping in place.
    #[verifier::rlimit(100)]
    #[verifier::spinoff_prover]
    pub fn map(
        &mut self,
        size: usize,
        hint: usize,
        bounds: core::ops::Range<usize>,
        map_flags: u32,
        prot_flags: u8,
        mapping: Option<Mapping>,
        pmm: &mut PhysAllocator,
    ) -> (r: EResult<usize>)
        requires
            old(self).wf(),
            old(pmm).wf(),
            old(self).tables_in_use(*old(pmm)),
            // A `MappablePage` cannot name physical page 0, so no page may come from there.
            old(pmm).range_start() > 0,
            hint % PAGE_SIZE == 0,
            size <= usize::MAX - (PAGE_SIZE - 1),
            mapping matches Some(m) ==> m.offset % (PAGE_SIZE as u64) == 0 && m.offset <= m.object.spec_len(),
            map_flags & FIXED != 0 ==> hint + round_up(size as int) <= usize::MAX,
            map_flags & FIXED == 0 ==> bounds.start % PAGE_SIZE == 0 && bounds.end % PAGE_SIZE == 0,
        ensures
            final(self).wf(),
            final(pmm).wf(),
            final(self).tables_in_use(*final(pmm)),
            final(self).page_map().spec_levels() == old(self).page_map().spec_levels(),
            final(pmm).range_start() == old(pmm).range_start(),
            final(pmm).range_end() == old(pmm).range_end(),
            allocated_from(*old(pmm), *final(pmm)),
            map_result(old(self).regions(), size, hint, bounds, map_flags, prot_flags, mapping, r, final(self).regions()),
            r is Err ==> r == Err::<usize, Errno>(Errno::EINVAL) || r == Err::<usize, Errno>(Errno::ENXIO)
                || r == Err::<usize, Errno>(Errno::ENOMEM) || r == Err::<usize, Errno>(Errno::EFAULT),
            (r == Err::<usize, Errno>(Errno::EINVAL) || r == Err::<usize, Errno>(Errno::ENXIO))
                ==> *final(self) == *old(self) && *final(pmm) == *old(pmm),
            r == Err::<usize, Errno>(Errno::EFAULT) ==> map_flags & POPULATE != 0
                && prot_flags & (if mapping is None { prot::WRITE } else { prot::READ }) == 0,
            r == Err::<usize, Errno>(Errno::ENOMEM) ==> lowest_from(final(pmm).free_blocks(), 0) == 64
                || (map_flags & FIXED == 0 && placement(old(self).regions(), round_up(size as int), hint as int,
                bounds.start as int, bounds.end as int) is None),
            forall|v: usize| apart_from(v, map_target(old(self).regions(), size, hint, bounds, map_flags) / (PAGE_SIZE as int),
                (map_target(old(self).regions(), size, hint, bounds, map_flags) + round_up(size as int)) / (PAGE_SIZE as int),
                old(self).page_map().spec_levels())
                ==> #[trigger] walk_kept(old(self).page_map(), final(self).page_map(), v),
            r is Ok && map_flags & POPULATE != 0 ==> populated(*old(self), *final(self), r->Ok_0, round_up(size as int)),
            r is Ok && map_flags & FIXED == 0 ==> disjoint_from(
                old(self).regions(),
                RegionView { start: r->Ok_0, end: (r->Ok_0 + round_up(size as int)) as usize, prot_flags, map_flags, mapping },
            ),
    {
        let has_mapping = mapping.is_some();
        let ghost size_in = size;
        let pages = size / PAGE_SIZE + if size % PAGE_SIZE != 0 { 1 } else { 0 };
        proof {
            assert(pages * PAGE_SIZE == round_up(size as int) && pages * PAGE_SIZE <= usize::MAX) by (nonlinear_arith)
                requires
                    pages == size / 4096 + if size % 4096 != 0 { 1int } else { 0 },
                    size <= usize::MAX - 4095,
                    PAGE_SIZE == 4096,
            ;
        }
        let size = pages * PAGE_SIZE;
        if size == 0 {
            return Err(Errno::EINVAL);
        }
        if let Some(m) = &mapping {
            let avail = m.object.len() - m.offset;
            let avail_pages = avail / (PAGE_SIZE as u64) + if avail % (PAGE_SIZE as u64) != 0 { 1 } else { 0 };
            proof {
                assert(avail_pages * PAGE_SIZE == round_up(avail as int)) by (nonlinear_arith)
                    requires
                        avail_pages == avail / 4096 + if avail % 4096 != 0 { 1int } else { 0 },
                        PAGE_SIZE == 4096,
                ;
            }
            if (pages as u64) > avail_pages {
                return Err(Errno::ENXIO);
            }
        }
        let mut fences = VmFenceSet::new();
        let ghost target = map_target(old(self).regions(), size_in, hint, bounds, map_flags);
        let addr = if map_flags & FIXED != 0 {
            let _ = self.map_fixed(&mut fences, size, hint, map_flags, prot_flags, mapping, pmm);
            hint
        } else {
            match self.map_dynamic(size, hint, bounds, map_flags, prot_flags, mapping) {
                Ok(a) => a,
                Err(e) => {
                    return Err(e);
                },
            }
        };
        proof {
            assert(size == round_up(size_in as int));
            assert forall|v: usize| apart_from(v, target / (PAGE_SIZE as int), (target + size) / (PAGE_SIZE as int),
                old(self).page_map().spec_levels()) implies #[trigger] walk_kept(old(self).page_map(), self.page_map(), v) by {
                if map_flags & FIXED != 0 {
                    assert(addr == hint);
                }
            }
        }
        if map_flags & POPULATE != 0 {
            let access = if !has_mapping {
                prot::WRITE
            } else {
                prot::READ
            };
            let ghost regs = self.regions();
            let ghost region = RegionView { start: addr, end: (addr + size) as usize, prot_flags, map_flags, mapping };
            let ghost k: int;
            proof {
                if map_flags & FIXED != 0 {
                    let x = outside(
                        split_regions(split_regions(old(self).regions(), hint as int), (hint + size) as int),
                        hint as int,
                        (hint + size) as int,
                    );
                    lemma_with_region_has(x, region);
                    k = count_before(x, region.start as int);
                } else {
                    lemma_with_region_has(old(self).regions(), region);
                    k = count_before(old(self).regions(), region.start as int);
                }
                assert(regs[k] == region);
            }
            let ghost pm1 = self.page_map();
            let ghost vs1 = *self;
            let res = self.populate_new(&mut fences, addr, size, Ghost(k), access, pmm);
            proof {
                assert forall|v: usize| apart_from(v, target / (PAGE_SIZE as int), (target + size) / (PAGE_SIZE as int),
                    old(self).page_map().spec_levels()) implies #[trigger] walk_kept(old(self).page_map(), self.page_map(), v) by {
                    assert(walk_kept(old(self).page_map(), pm1, v));
                    lemma_walk_kept_trans(old(self).page_map(), pm1, self.page_map(), v);
                }
                if map_flags & FIXED == 0 {
                    assert(pm1 == old(self).page_map());
                    old(self).pmap.lemma_clears_refl();
                }
            }
            match res {
                Ok(()) => {},
                Err(e) => {
                    return Err(e);
                },
            }
            proof {
                let levels = old(self).page_map().spec_levels();
                if canon_pages(addr as int, addr + size, levels) {
                    assert forall|j: int, v: usize|
                        #![trigger self.regions()[j], self.page_map().walk_spec(v, 0)]
                        0 <= j < self.regions().len() && self.regions()[j].start == addr
                        && addr as int / (PAGE_SIZE as int) <= v < (addr + size) / (PAGE_SIZE as int)
                        && !old(self).page_map().walk_spec(v, 0).valid implies !vs1.page_map().walk_spec(v, 0).valid by {
                        if map_flags & FIXED != 0 {
                            PhysMap::lemma_clears_walk(&old(self).pmap, &pm1, v);
                        }
                    }
                }
            }
        }
        let _ = crate::mem::vmfence::shootdown(&fences);
        Ok(addr)
    }

    /// Change the protection flags for pages within `bounds`.
    /// Preserves the outer portion of mappings on the border of `bounds`. The pages of the
    /// changed regions leave the page tables, so that the next access maps them anew.
    pub fn protect(&mut self, bounds: core::ops::Range<usize>, prot_flags: u8, pmm: &mut PhysAllocator) -> (r: EResult<()>)
        requires
            old(self).wf(),
            old(pmm).wf(),
            old(self).tables_in_use(*old(pmm)),
            bounds.start % PAGE_SIZE == 0,
            bounds.end % PAGE_SIZE == 0,
        ensures
            final(self).wf(),
            final(pmm).wf(),
            final(self).tables_in_use(*final(pmm)),
            final(self).page_map().spec_levels() == old(self).page_map().spec_levels(),
            final(pmm).range_start() == old(pmm).range_start(),
            final(pmm).range_end() == old(pmm).range_end(),
            allocated_from(*old(pmm), *final(pmm)),
            r is Ok,
            final(self).regions() == reprotect(
                split_regions(split_regions(old(self).regions(), bounds.start as int), bounds.end as int),
                bounds.start as int,
                bounds.end as int,
                prot_flags,
            ),
            forall|j: int, vpn: usize|
                #![trigger final(self).regions()[j], final(self).page_map().walk_spec(vpn, 0)]
                0 <= j < final(self).regions().len() && bounds.start <= final(self).regions()[j].start < bounds.end
                && final(self).regions()[j].start / PAGE_SIZE <= vpn < final(self).regions()[j].end / PAGE_SIZE
                && !is_superpage(old(self).page_map().walk_spec(vpn, 0))
                ==> !final(self).page_map().walk_spec(vpn, 0).valid,
    {
        let _ = self.split(bounds.start);
        let _ = self.split(bounds.end);
        let ghost s2 = self.regions();
        let ghost pm0 = self.pmap;
        proof {
            pm0.lemma_clears_refl();
        }
        let mut fences = VmFenceSet::new();
        let mut i: usize = 0;
        while i < self.entries.len()
            invariant
                self.wf(),
                pmm.wf(),
                self.tables_in_use(*pmm),
                self.page_map().spec_levels() == old(self).page_map().spec_levels(),
                pmm.range_start() == old(pmm).range_start(),
                pmm.range_end() == old(pmm).range_end(),
                allocated_from(*old(pmm), *pmm),
                i <= self.entries@.len(),
                self.regions().len() == s2.len(),
                forall|j: int| 0 <= j < i ==> #[trigger] self.regions()[j] == reprotect(s2, bounds.start as int, bounds.end as int, prot_flags)[j],
                forall|j: int| i <= j < s2.len() ==> #[trigger] self.regions()[j] == s2[j],
                pm0 == old(self).pmap,
                pm0.wf(),
                pm0.clears_to(self.pmap),
                self.pmap.spec_root() == pm0.spec_root(),
                forall|j: int, vpn: usize|
                    #![trigger s2[j], self.pmap.walk_spec(vpn, 0)]
                    0 <= j < i && bounds.start <= s2[j].start < bounds.end
                    && s2[j].start / PAGE_SIZE <= vpn < s2[j].end / PAGE_SIZE && !is_superpage(pm0.walk_spec(vpn, 0))
                    ==> !self.pmap.walk_spec(vpn, 0).valid,
            decreases self.entries@.len() - i,
        {
            let start = self.entries[i].range.start;
            let end = self.entries[i].range.end;
            let ghost r0 = self.regions();
            assert(self.regions()[i as int] == self.entries@[i as int]@);
            if bounds.start <= start && start < bounds.end {
                let ghost es = self.entries@;
                let mut entry = self.entries.remove(i);
                entry.inner.prot_flags = prot_flags;
                self.entries.insert(i, entry);
                proof {
                    assert forall|j: int| 0 <= j < self.entries@.len() implies (#[trigger] self.entries@[j]).wf() by {
                        if j != i {
                            assert(self.entries@[j] == es[j]);
                        }
                    }
                    assert forall|j: int| 0 <= j < self.regions().len() && j != i implies #[trigger] self.regions()[j] == es[j]@ by {
                        assert(self.entries@[j] == es[j]);
                    }
                    assert(regions_ok(self.regions())) by {
                        let r = self.regions();
                        let o = views(es);
                        assert forall|a: int, b: int| 0 <= a < b < r.len() implies (#[trigger] r[a]).end <= (#[trigger] r[b]).start by {
                            assert(r[a].start == o[a].start && r[a].end == o[a].end);
                            assert(r[b].start == o[b].start && r[b].end == o[b].end);
                        }
                        assert forall|a: int| 0 <= a < r.len() implies (#[trigger] r[a]).start < r[a].end && r[a].start % PAGE_SIZE == 0 && r[a].end % PAGE_SIZE == 0 by {
                            assert(r[a].start == o[a].start && r[a].end == o[a].end);
                        }
                    }
                }
                let ghost r1 = self.regions();
                let ghost pm1 = self.pmap;
                self.unmap_pages(start, end, pmm);
                add_fences(&mut fences, start, end);
                proof {
                    assert(self.regions() == r1);
                    PhysMap::lemma_clears_trans(pm0, pm1, self.pmap);
                    assert forall|j: int, vpn: usize|
                        #![trigger s2[j], self.pmap.walk_spec(vpn, 0)]
                        0 <= j < i + 1 && bounds.start <= s2[j].start < bounds.end
                        && s2[j].start / PAGE_SIZE <= vpn < s2[j].end / PAGE_SIZE && !is_superpage(pm0.walk_spec(vpn, 0))
                        implies !self.pmap.walk_spec(vpn, 0).valid by {
                        PhysMap::lemma_clears_walk(&pm0, &pm1, vpn);
                        if j < i {
                            assert(!pm1.walk_spec(vpn, 0).valid);
                            pm1.lemma_clears_refl();
                            PhysMap::lemma_clears_walk(&pm1, &self.pmap, vpn);
                        } else {
                            assert(s2[j].start == start && s2[j].end == end);
                            assert(!is_superpage(pm1.walk_spec(vpn, 0)));
                        }
                    }
                    assert(r1[i as int] == (RegionView { prot_flags: prot_flags, ..r0[i as int] }));
                }
            }
            proof {
                let rp = reprotect(s2, bounds.start as int, bounds.end as int, prot_flags);
                assert forall|j: int| 0 <= j < i + 1 implies #[trigger] self.regions()[j] == rp[j] by {
                    if j < i {
                        assert(self.regions()[j] == r0[j]);
                    }
                }
                assert forall|j: int| i + 1 <= j < s2.len() implies #[trigger] self.regions()[j] == s2[j] by {
                    assert(self.regions()[j] == r0[j]);
                }
            }
            i = i + 1;
        }
        proof {
            assert(self.regions() =~= reprotect(s2, bounds.start as int, bounds.end as int, prot_flags));
        }
        let _ = crate::mem::vmfence::shootdown(&fences);
        Ok(())
    }

    /// Unmap all pages within `bounds`.
    /// Preserves the outer portion of mappings on the border of `bounds`.
    pub fn unmap(&mut self, bounds: core::ops::Range<usize>, pmm: &mut PhysAllocator) -> (r: EResult<()>)
        requires
            old(self).wf(),
            old(pmm).wf(),
            old(self).tables_in_use(*old(pmm)),
            bounds.start % PAGE_SIZE == 0,
            bounds.end % PAGE_SIZE == 0,
        ensures
            final(self).wf(),
            final(pmm).wf(),
            final(self).tables_in_use(*final(pmm)),
            final(self).page_map().spec_levels() == old(self).page_map().spec_levels(),
            final(pmm).range_start() == old(pmm).range_start(),
            final(pmm).range_end() == old(pmm).range_end(),
            allocated_from(*old(pmm), *final(pmm)),
            r is Ok,
            final(self).regions() == outside(
                split_regions(split_regions(old(self).regions(), bounds.start as int), bounds.end as int),
                bounds.start as int,
                bounds.end as int,
            ),
            old(self).page_map().clears_to(final(self).page_map()),
            forall|vpn: usize|
                bounds.start / PAGE_SIZE <= vpn < bounds.end / PAGE_SIZE
                    && region_holds(old(self).regions(), vpn * PAGE_SIZE)
                    && !is_superpage(old(self).page_map().walk_spec(vpn, 0))
                    ==> !(#[trigger] final(self).page_map().walk_spec(vpn, 0)).valid,
    {
        let _ = self.split(bounds.start);
        let _ = self.split(bounds.end);
        let ghost s0 = old(self).regions();
        let ghost s1 = split_regions(s0, bounds.start as int);
        let ghost s2 = self.regions();
        proof {
            lemma_split_regions_ok(s0, bounds.start as int);
            lemma_split_regions_ok(s1, bounds.end as int);
        }
        let mut fences = VmFenceSet::new();
        self.remove_mappings(&mut fences, bounds, pmm);
        proof {
            assert forall|vpn: usize|
                bounds.start / PAGE_SIZE <= vpn < bounds.end / PAGE_SIZE
                    && region_holds(s0, vpn * PAGE_SIZE)
                    && !is_superpage(old(self).page_map().walk_spec(vpn, 0))
                    implies !(#[trigger] self.page_map().walk_spec(vpn, 0)).valid by {
                let x = vpn * PAGE_SIZE;
                assert(bounds.start <= x < bounds.end && x % PAGE_SIZE as int == 0 && x / PAGE_SIZE as int == vpn) by (nonlinear_arith)
                    requires
                        bounds.start / 4096 <= vpn < bounds.end / 4096,
                        bounds.start % 4096 == 0,
                        bounds.end % 4096 == 0,
                        x == vpn * 4096,
                        PAGE_SIZE == 4096,
                ;
                let j = choose|j: int| 0 <= j < s0.len() && (#[trigger] s0[j]).start <= x < s0[j].end;
                lemma_split_holds(s0, bounds.start as int, j, x);
                let i1 = choose|i: int| 0 <= i < s1.len() && (#[trigger] s1[i]).start <= x < s1[i].end && s1[i].start == (if s0[j].start < bounds.start && bounds.start <= x {
                    bounds.start as int
                } else {
                    s0[j].start as int
                });
                lemma_split_holds(s1, bounds.end as int, i1, x);
                let i2 = choose|i: int| 0 <= i < s2.len() && (#[trigger] s2[i]).start <= x < s2[i].end && s2[i].start == (if s1[i1].start < bounds.end && bounds.end <= x {
                    bounds.end as int
                } else {
                    s1[i1].start as int
                });
                let r = s2[i2];
                assert(r.start % PAGE_SIZE == 0 && r.end % PAGE_SIZE == 0);
                assert(r.start / PAGE_SIZE <= vpn < r.end / PAGE_SIZE) by (nonlinear_arith)
                    requires
                        r.start <= x < r.end,
                        r.start % 4096 == 0,
                        r.end % 4096 == 0,
                        x == vpn * 4096,
                        PAGE_SIZE == 4096,
                ;
                assert(bounds.start <= r.start < bounds.end);
            }
        }
        let _ = crate::mem::vmfence::shootdown(&fences);
        Ok(())
    }

    /// Address of the anonymous page at byte offset `offset` of region `i`, if it has one.
    pub closed spec fn anon_paddr(&self, i: int, offset: usize) -> Option<usize> {
        self.entries@[i].inner.anon_paddr(offset)
    }

    /// The anonymous pages of region `i`, if it has any, are shared with another address space,
    /// so that a write to one of them copies it first.
    pub closed spec fn anon_shared(&self, i: int) -> bool {
        self.entries@[i].inner.amap matches Some(a) ==> a.shared
    }

    /// Evict the pages of region `index` that lie beyond the end of its memory object, now
    /// `max_len` bytes long: called when a mapped object shrinks. A page that the object's end
    /// cuts through stays. The pages leave the page tables and the region's anonymous memory.
    pub fn shrink(&mut self, index: usize, max_len: u64, pmm: &mut PhysAllocator)
        requires
            old(self).wf(),
            old(pmm).wf(),
            old(self).tables_in_use(*old(pmm)),
            index < old(self).regions().len(),
        ensures
            final(self).wf(),
            final(pmm).wf(),
            final(self).tables_in_use(*final(pmm)),
            final(self).regions() == old(self).regions(),
            final(self).page_map().spec_levels() == old(self).page_map().spec_levels(),
            final(pmm).range_start() == old(pmm).range_start(),
            final(pmm).range_end() == old(pmm).range_end(),
            allocated_from(*old(pmm), *final(pmm)),
            forall|j: int, o: usize| 0 <= j < old(self).regions().len() && j != index
                ==> #[trigger] final(self).anon_paddr(j, o) == old(self).anon_paddr(j, o),
            forall|o: usize| #[trigger] final(self).anon_paddr(index as int, o) == if shrink_evicts(
                old(self).regions()[index as int],
                max_len,
                o,
            ) {
                None
            } else {
                old(self).anon_paddr(index as int, o)
            },
    {
        let start = self.entries[index].range.start;
        let end = self.entries[index].range.end;
        assert(self.regions()[index as int] == self.entries@[index as int]@);
        let len = end - start;
        let offset = match self.entries[index].inner.mapping {
            Some(m) => m.offset,
            None => {
                return;
            },
        };
        let rest = max_len.saturating_sub(offset);
        let valid: usize = if rest < len as u64 {
            rest as usize
        } else {
            len
        };
        let cutoff = valid / PAGE_SIZE * PAGE_SIZE + if valid % PAGE_SIZE != 0 {
            PAGE_SIZE
        } else {
            0
        };
        proof {
            assert(cutoff == round_up(valid as int) && cutoff <= len && cutoff % PAGE_SIZE == 0) by (nonlinear_arith)
                requires
                    cutoff == valid / 4096 * 4096 + if valid % 4096 != 0 { 4096int } else { 0 },
                    valid <= len,
                    len % 4096 == 0,
                    PAGE_SIZE == 4096,
            ;
        }
        if cutoff >= len {
            return;
        }
        self.unmap_pages(start + cutoff, end, pmm);
        let ghost es = self.entries@;
        let mut entry = self.entries.remove(index);
        entry.inner.evict_from(cutoff);
        self.entries.insert(index, entry);
        proof {
            assert forall|j: int| 0 <= j < self.entries@.len() && j != index implies #[trigger] self.entries@[j] == es[j] by {}
            assert forall|j: int| 0 <= j < self.entries@.len() implies (#[trigger] self.entries@[j]).wf() by {
                if j != index {
                    assert(self.entries@[j] == es[j]);
                }
            }
            assert(self.regions() =~= views(es)) by {
                assert forall|j: int| 0 <= j < es.len() implies #[trigger] self.regions()[j] == views(es)[j] by {
                    if j != index {
                        assert(self.entries@[j] == es[j]);
                    }
                }
            }
        }
        let mut fences = VmFenceSet::new();
        add_fences(&mut fences, start + cutoff, end);
        let _ = crate::mem::vmfence::shootdown(&fences);
    }

    /// Clear the entire address space.
    pub fn clear(&mut self, pmm: &mut PhysAllocator)
        requires
            old(self).wf(),
            old(pmm).wf(),
            old(self).tables_in_use(*old(pmm)),
        ensures
            final(self).wf(),
            final(pmm).wf(),
            final(self).tables_in_use(*final(pmm)),
            final(self).page_map().spec_levels() == old(self).page_map().spec_levels(),
            final(pmm).range_start() == old(pmm).range_start(),
            final(pmm).range_end() == old(pmm).range_end(),
            allocated_from(*old(pmm), *final(pmm)),
            final(self).regions() == Seq::<RegionView>::empty(),
    {
        let mut fences = VmFenceSet::new();
        let mut i: usize = 0;
        while i < self.entries.len()
            invariant
                self.wf(),
                pmm.wf(),
                self.tables_in_use(*pmm),
                self.page_map().spec_levels() == old(self).page_map().spec_levels(),
                pmm.range_start() == old(pmm).range_start(),
                pmm.range_end() == old(pmm).range_end(),
                allocated_from(*old(pmm), *pmm),
                i <= self.entries@.len(),
            decreases self.entries@.len() - i,
        {
            let start = self.entries[i].range.start;
            let end = self.entries[i].range.end;
            self.unmap_pages(start, end, pmm);
            add_fences(&mut fences, start, end);
            i = i + 1;
        }
        let _ = crate::mem::vmfence::shootdown(&fences);
        self.entries = Vec::new();
        assert(self.regions() =~= Seq::<RegionView>::empty());
    }

    /// Clone this address space as needed for the `fork` system call: both copies share the
    /// anonymous pages until they write to them, and the writable private regions of this
    /// space leave the page tables so that the next write copies the page.
    pub fn fork(&mut self, pmm: &mut PhysAllocator) -> (r: EResult<Self>)
        requires
            old(self).wf(),
            old(pmm).wf(),
            old(self).tables_in_use(*old(pmm)),
        ensures
            final(self).wf(),
            final(pmm).wf(),
            final(self).tables_in_use(*final(pmm)),
            final(self).regions() == old(self).regions(),
            final(self).page_map().spec_levels() == old(self).page_map().spec_levels(),
            final(pmm).range_start() == old(pmm).range_start(),
            final(pmm).range_end() == old(pmm).range_end(),
            allocated_from(*old(pmm), *final(pmm)),
            r is Err ==> r == Err::<Self, Errno>(Errno::ENOMEM),
            r is Err ==> lowest_from(final(pmm).free_blocks(), 0) == 64,
            forall|i: int, off: usize| 0 <= i < old(self).regions().len()
                ==> #[trigger] final(self).anon_paddr(i, off) == old(self).anon_paddr(i, off) && final(self).anon_shared(i),
            old(self).page_map().clears_to(final(self).page_map()),
            forall|i: int, vpn: usize|
                #![trigger old(self).regions()[i], final(self).page_map().walk_spec(vpn, 0)]
                0 <= i < old(self).regions().len() && old(self).regions()[i].map_flags & PRIVATE != 0
                    && old(self).regions()[i].prot_flags & prot::WRITE != 0
                    && old(self).regions()[i].start / PAGE_SIZE <= vpn < old(self).regions()[i].end / PAGE_SIZE
                    && !is_superpage(old(self).page_map().walk_spec(vpn, 0))
                    ==> !final(self).page_map().walk_spec(vpn, 0).valid,
            r matches Ok(child) ==> {
                &&& child.wf()
                &&& child.tables_in_use(*final(pmm))
                &&& child.regions() == old(self).regions()
                &&& child.page_map().spec_levels() == old(self).page_map().spec_levels()
                &&& forall|i: int, off: usize| 0 <= i < old(self).regions().len()
                    ==> #[trigger] child.anon_paddr(i, off) == old(self).anon_paddr(i, off) && child.anon_shared(i)
            },
    {
        proof {
            old(self).pmap.lemma_clears_refl();
        }
        let mut fences = VmFenceSet::new();
        let mut copies: Vec<MapEntry> = Vec::new();
        let ghost s0 = self.regions();
        let mut i: usize = 0;
        while i < self.entries.len()
            invariant
                self.wf(),
                pmm.wf(),
                self.tables_in_use(*pmm),
                self.regions() == s0,
                self.page_map().spec_levels() == old(self).page_map().spec_levels(),
                pmm.range_start() == old(pmm).range_start(),
                pmm.range_end() == old(pmm).range_end(),
                allocated_from(*old(pmm), *pmm),
                i <= self.entries@.len(),
                views(copies@) == s0.take(i as int),
                forall|j: int| 0 <= j < copies@.len() ==> (#[trigger] copies@[j]).wf(),
                s0 == old(self).regions(),
                self.entries@.len() == old(self).entries@.len(),
                forall|j: int| i <= j < self.entries@.len() ==> #[trigger] self.entries@[j] == old(self).entries@[j],
                forall|j: int, off: usize| 0 <= j < i ==> #[trigger] self.entries@[j].inner.anon_paddr(off)
                    == old(self).entries@[j].inner.anon_paddr(off),
                forall|j: int| 0 <= j < i ==> #[trigger] self.anon_shared(j),
                forall|j: int, off: usize| 0 <= j < i ==> #[trigger] copies@[j].inner.anon_paddr(off)
                    == old(self).entries@[j].inner.anon_paddr(off),
                forall|j: int| 0 <= j < i ==> ((#[trigger] copies@[j]).inner.amap matches Some(a) ==> a.shared),
                self.pmap.spec_root() == old(self).pmap.spec_root(),
                old(self).pmap.clears_to(self.pmap),
                old(self).wf(),
                forall|j: int, vpn: usize|
                    #![trigger s0[j], self.pmap.walk_spec(vpn, 0)]
                    0 <= j < i && s0[j].map_flags & PRIVATE != 0 && s0[j].prot_flags & prot::WRITE != 0
                        && s0[j].start / PAGE_SIZE <= vpn < s0[j].end / PAGE_SIZE
                        && !is_superpage(old(self).pmap.walk_spec(vpn, 0))
                        ==> !self.pmap.walk_spec(vpn, 0).valid,
            decreases self.entries@.len() - i,
        {
            let ghost es = self.entries@;
            let ghost head = *self;
            let mut entry = self.entries.remove(i);
            assert(es[i as int].wf());
            assert(s0[i as int] == es[i as int]@);
            if let Some(a) = &mut entry.inner.amap {
                a.shared = true;
            }
            assert(entry.inner.amap matches Some(a) ==> a.shared);
            let copy = MapEntry {
                range: entry.range.start..entry.range.end,
                inner: MapEntryInner {
                    prot_flags: entry.inner.prot_flags,
                    map_flags: entry.inner.map_flags,
                    amap: match &entry.inner.amap {
                        Some(a) => Some(AnonMap { offset: a.offset, pages: copy_pages(&a.pages), shared: true }),
                        None => None,
                    },
                    mapping: entry.inner.mapping,
                },
            };
            let start = entry.range.start;
            let end = entry.range.end;
            let cow = (entry.inner.map_flags & PRIVATE) != 0 && (entry.inner.prot_flags & prot::WRITE) != 0;
            self.entries.insert(i, entry);
            proof {
                assert(views(self.entries@) =~= views(es));
                assert forall|j: int| 0 <= j < self.entries@.len() implies (#[trigger] self.entries@[j]).wf() by {
                    if j != i {
                        assert(self.entries@[j] == es[j]);
                    }
                }
                lemma_views_push(copies@, copy);
                assert(s0.take(i + 1) =~= s0.take(i as int).push(s0[i as int]));
                assert forall|j: int| 0 <= j < i + 1 implies #[trigger] self.anon_shared(j) by {
                    if j < i {
                        assert(head.anon_shared(j));
                        assert(self.entries@[j] == es[j]);
                    }
                }
            }
            copies.push(copy);
            let ghost before = self.pmap;
            let ghost mid = *self;
            if cow {
                // Writable private regions are copied on write.
                self.unmap_pages(start, end, pmm);
                proof {
                    PhysMap::lemma_clears_trans(old(self).pmap, before, self.pmap);
                    assert forall|j: int, vpn: usize|
                        #![trigger s0[j], self.pmap.walk_spec(vpn, 0)]
                        0 <= j < i + 1 && s0[j].map_flags & PRIVATE != 0 && s0[j].prot_flags & prot::WRITE != 0
                            && s0[j].start / PAGE_SIZE <= vpn < s0[j].end / PAGE_SIZE
                            && !is_superpage(old(self).pmap.walk_spec(vpn, 0))
                            implies !self.pmap.walk_spec(vpn, 0).valid by {
                        PhysMap::lemma_clears_walk(&old(self).pmap, &before, vpn);
                        if j < i {
                            assert(!before.walk_spec(vpn, 0).valid);
                        }
                        PhysMap::lemma_clears_walk(&before, &self.pmap, vpn);
                    }
                }
                add_fences(&mut fences, start, end);
            }
            proof {
                assert forall|j: int| 0 <= j < i + 1 implies #[trigger] self.anon_shared(j) by {
                    assert(mid.anon_shared(j));
                }
            }
            i = i + 1;
        }
        let _ = crate::mem::vmfence::shootdown(&fences);
        let ghost p1 = *pmm;
        let pmap = match PhysMap::new(pmm, self.pmap.levels()) {
            Ok(m) => m,
            Err(e) => {
                proof {
                    self.pmap.lemma_tables_in_use_shrink(p1, *pmm);
                }
                return Err(e);
            },
        };
        proof {
            self.pmap.lemma_tables_in_use_shrink(p1, *pmm);
            assert(s0.take(i as int) =~= s0);
        }
        let child = VmSpaceInner { pmap, entries: copies, zeroes: self.zeroes };
        Ok(child)
    }

    /// Do a virtual to physical address lookup.
    pub fn virt2phys(&self, vaddr: usize) -> (r: Virt2Phys)
        requires
            self.wf(),
        ensures
            r == self.page_map().virt2phys_spec(vaddr),
    {
        self.pmap.virt2phys(vaddr)
    }

    /// The page tables of a well-formed address space are well formed.
    pub proof fn lemma_wf_page_map(&self)
        requires
            self.wf(),
        ensures
            self.page_map().wf(),
    {
    }

    /// A translation in this address space names a whole page with the address inside it.
    pub proof fn lemma_v2p_ok(&self, vaddr: usize)
        requires
            self.wf(),
        ensures
            crate::mem::physmap::v2p_ok(self.page_map().virt2phys_spec(vaddr)),
    {
        self.pmap.lemma_v2p_ok(vaddr);
    }

    /// The page tables stay in use while the allocator only hands out more pages.
    pub proof fn lemma_tables_in_use_shrink(&self, p1: PhysAllocator, p2: PhysAllocator)
        requires
            self.tables_in_use(p1),
            allocated_from(p1, p2),
            p2.range_start() == p1.range_start(),
            p2.range_end() == p1.range_end(),
        ensures
            self.tables_in_use(p2),
    {
        self.pmap.lemma_tables_in_use_shrink(p1, p2);
    }

    /// The page tables stay in use when a block that holds none of them is freed: its pages
    /// are used otherwise than for page tables.
    pub proof fn lemma_tables_in_use_free(&self, p1: PhysAllocator, p2: PhysAllocator, block: Set<int>)
        requires
            self.tables_in_use(p1),
            forall|p: int| block.contains(p) ==> #[trigger] p1.usage_of(p) != PageUsage::PageTable,
            p2.free_set() == p1.free_set().union(block),
            forall|p: int| !block.contains(p) ==> #[trigger] p2.usage_of(p) == p1.usage_of(p),
            p2.range_start() == p1.range_start(),
            p2.range_end() == p1.range_end(),
        ensures
            self.tables_in_use(p2),
    {
        self.pmap.lemma_tables_in_use_free(p1, p2, block);
    }

    /// Number of levels of page table of this address space.
    pub fn levels(&self) -> (r: u32)
        requires
            self.wf(),
        ensures
            r == self.page_map().spec_levels(),
            levels_ok(r),
    {
        self.pmap.levels()
    }

    /// The page tables lie in pages that `pmm` has handed out.
    pub closed spec fn tables_in_use(&self, pmm: PhysAllocator) -> bool {
        self.pmap.tables_in_use(pmm)
    }
}

/// Copy a list of anonymous page slots.
fn copy_pages(pages: &Vec<Option<AnonPage>>) -> (r: Vec<Option<AnonPage>>)
    ensures
        r@ == pages@,
{
    let mut r: Vec<Option<AnonPage>> = Vec::new();
    let mut i: usize = 0;
    while i < pages.len()
        invariant
            i <= pages@.len(),
            r@ == pages@.subrange(0, i as int),
        decreases pages@.len() - i,
    {
        r.push(pages[i]);
        i = i + 1;
    }
    assert(r@ =~= pages@);
    r
}

/// Virtual address-space map for user memory.
pub struct VmSpace(VmSpaceInner);

impl VmSpace {
    /// The address space underneath.
    pub closed spec fn inner(&self) -> VmSpaceInner {
        self.0
    }

    /// Create a new address space for user memory.
    pub fn new(pmm: &mut PhysAllocator, levels: u32, zeroes: usize) -> (r: EResult<Self>)
        requires
            old(pmm).wf(),
            levels_ok(levels),
            zeroes != 0,
            zeroes % PAGE_SIZE == 0,
        ensures
            final(pmm).wf(),
            final(pmm).range_start() == old(pmm).range_start(),
            final(pmm).range_end() == old(pmm).range_end(),
            allocated_from(*old(pmm), *final(pmm)),
            r is Err ==> r == Err::<Self, Errno>(Errno::ENOMEM),
            (r is Err) <==> lowest_from(old(pmm).free_blocks(), 0) == 64,
            r is Err ==> *final(pmm) == *old(pmm),
            r matches Ok(v) ==> {
                &&& v.inner().wf()
                &&& v.inner().tables_in_use(*final(pmm))
                &&& v.inner().regions() == Seq::<RegionView>::empty()
                &&& v.inner().page_map().spec_levels() == levels
                &&& forall|vpn: usize| !(#[trigger] v.inner().page_map().walk_spec(vpn, 0)).valid
            },
    {
        match VmSpaceInner::new(pmm, levels, zeroes) {
            Ok(v) => Ok(VmSpace(v)),
            Err(e) => Err(e),
        }
    }

    /// The range within which the kernel will allow new non-fixed mmaps to be created for userspace.
    pub fn bounds(levels: u32) -> (r: core::ops::Range<usize>)
        requires
            levels_ok(levels),
        ensures
            r.start == half_size(levels) / 2,
            r.end == half_size(levels),
    {
        let half = physmap::canon_half_size(levels);
        half / 2..half
    }

    /// Create a new mapping in the user half and try to place it at `hint`.
    /// If the [`FIXED`] flag is set in `map_flags`, then overwrite any existing mappings in the way.
    pub fn map(
        &mut self,
        size: usize,
        hint: usize,
        map_flags: u32,
        prot_flags: u8,
        mapping: Option<Mapping>,
        pmm: &mut PhysAllocator,
    ) -> (r: EResult<usize>)
        requires
            old(self).inner().wf(),
            old(pmm).wf(),
            old(self).inner().tables_in_use(*old(pmm)),
            // A `MappablePage` cannot name physical page 0, so no page may come from there.
            old(pmm).range_start() > 0,
            size <= usize::MAX - (PAGE_SIZE - 1),
            mapping matches Some(m) ==> m.offset % (PAGE_SIZE as u64) == 0 && m.offset <= m.object.spec_len(),
        ensures
            final(self).inner().wf(),
            final(pmm).wf(),
            final(self).inner().tables_in_use(*final(pmm)),
            final(self).inner().page_map().spec_levels() == old(self).inner().page_map().spec_levels(),
            final(pmm).range_start() == old(pmm).range_start(),
            final(pmm).range_end() == old(pmm).range_end(),
            allocated_from(*old(pmm), *final(pmm)),
            ({
                let half = half_size(old(self).inner().page_map().spec_levels());
                if hint % PAGE_SIZE != 0 || (map_flags & FIXED != 0 && (hint == 0 || sat_add(hint as int, size as int) >= half - PAGE_SIZE)) {
                    r == Err::<usize, Errno>(Errno::EINVAL) && final(self).inner().regions() == old(self).inner().regions()
                } else {
                    &&& map_result(
                        old(self).inner().regions(),
                        size,
                        hint,
                        (half / 2) as usize..half as usize,
                        map_flags,
                        prot_flags & !prot::IO & !prot::NC,
                        mapping,
                        r,
                        final(self).inner().regions(),
                    )
                    &&& forall|v: usize| apart_from(
                        v,
                        map_target(old(self).inner().regions(), size, hint, (half / 2) as usize..half as usize, map_flags) / (PAGE_SIZE as int),
                        (map_target(old(self).inner().regions(), size, hint, (half / 2) as usize..half as usize, map_flags)
                            + round_up(size as int)) / (PAGE_SIZE as int),
                        old(self).inner().page_map().spec_levels(),
                    ) ==> #[trigger] walk_kept(old(self).inner().page_map(), final(self).inner().page_map(), v)
                    &&& r is Ok && map_flags & POPULATE != 0
                        ==> populated(old(self).inner(), final(self).inner(), r->Ok_0, round_up(size as int))
                }
            }),
    {
        let levels = self.0.levels();
        // Only page-aligned hints.
        if hint % PAGE_SIZE != 0 {
            return Err(Errno::EINVAL);
        }
        proof {
            crate::mem::physmap::lemma_half_size_aligned(levels);
        }
        // Fixed mappings stay in the lower half.
        if map_flags & FIXED != 0 && (hint == 0 || hint.saturating_add(size) >= physmap::canon_half_size(levels) - PAGE_SIZE) {
            return Err(Errno::EINVAL);
        }
        let bounds = Self::bounds(levels);
        proof {
            crate::mem::physmap::lemma_half_size_aligned(levels);
        }
        self.0.map(size, hint, bounds, map_flags, prot_flags & !prot::IO & !prot::NC, mapping, pmm)
    }

    /// Change the protection flags for pages within `bounds`, which must be a canonical user
    /// range; its end is rounded up to whole pages.
    pub fn protect(&mut self, bounds: core::ops::Range<usize>, prot_flags: u8, pmm: &mut PhysAllocator) -> (r: EResult<()>)
        requires
            old(self).inner().wf(),
            old(pmm).wf(),
            old(self).inner().tables_in_use(*old(pmm)),
        ensures
            final(self).inner().wf(),
            final(pmm).wf(),
            final(self).inner().tables_in_use(*final(pmm)),
            final(self).inner().page_map().spec_levels() == old(self).inner().page_map().spec_levels(),
            final(pmm).range_start() == old(pmm).range_start(),
            final(pmm).range_end() == old(pmm).range_end(),
            allocated_from(*old(pmm), *final(pmm)),
            !canon_user_range(bounds, old(self).inner().page_map().spec_levels()) || bounds.start % PAGE_SIZE != 0
                ==> r == Err::<(), Errno>(Errno::EINVAL) && final(self).inner().regions() == old(self).inner().regions(),
            canon_user_range(bounds, old(self).inner().page_map().spec_levels()) && bounds.start % PAGE_SIZE == 0 ==> {
                &&& r is Ok
                &&& final(self).inner().regions() == reprotect(
                    split_regions(split_regions(old(self).inner().regions(), bounds.start as int), round_up(bounds.end as int)),
                    bounds.start as int,
                    round_up(bounds.end as int),
                    prot_flags,
                )
                &&& forall|j: int, vpn: usize|
                    #![trigger final(self).inner().regions()[j], final(self).inner().page_map().walk_spec(vpn, 0)]
                    0 <= j < final(self).inner().regions().len() && bounds.start <= final(self).inner().regions()[j].start
                    < round_up(bounds.end as int) && final(self).inner().regions()[j].start / PAGE_SIZE <= vpn
                    < final(self).inner().regions()[j].end / PAGE_SIZE
                    && !is_superpage(old(self).inner().page_map().walk_spec(vpn, 0))
                    ==> !final(self).inner().page_map().walk_spec(vpn, 0).valid
            },
    {
        let levels = self.0.levels();
        if !physmap::is_canon_user_range(bounds.start..bounds.end, levels) {
            return Err(Errno::EINVAL);
        }
        if bounds.start % PAGE_SIZE != 0 {
            return Err(Errno::EINVAL);
        }
        proof {
            crate::mem::physmap::lemma_half_size_aligned(levels);
        }
        let end_pages = bounds.end / PAGE_SIZE + if bounds.end % PAGE_SIZE != 0 { 1 } else { 0 };
        proof {
            assert(end_pages * PAGE_SIZE == round_up(bounds.end as int) && end_pages * PAGE_SIZE <= usize::MAX) by (nonlinear_arith)
                requires
                    end_pages == bounds.end / 4096 + if bounds.end % 4096 != 0 { 1int } else { 0 },
                    bounds.end <= usize::MAX - 4095 || bounds.end % 4096 == 0,
                    PAGE_SIZE == 4096,
            ;
        }
        let end = end_pages * PAGE_SIZE;
        self.0.protect(bounds.start..end, prot_flags, pmm)
    }

    /// Unmap all pages within `bounds`, which must be a canonical user range.
    pub fn unmap(&mut self, bounds: core::ops::Range<usize>, pmm: &mut PhysAllocator) -> (r: EResult<()>)
        requires
            old(self).inner().wf(),
            old(pmm).wf(),
            old(self).inner().tables_in_use(*old(pmm)),
            bounds.start % PAGE_SIZE == 0,
            bounds.end % PAGE_SIZE == 0,
        ensures
            final(self).inner().wf(),
            final(pmm).wf(),
            final(self).inner().tables_in_use(*final(pmm)),
            final(self).inner().page_map().spec_levels() == old(self).inner().page_map().spec_levels(),
            final(pmm).range_start() == old(pmm).range_start(),
            final(pmm).range_end() == old(pmm).range_end(),
            allocated_from(*old(pmm), *final(pmm)),
            !canon_user_range(bounds, old(self).inner().page_map().spec_levels())
                ==> r == Err::<(), Errno>(Errno::EINVAL) && final(self).inner().regions() == old(self).inner().regions(),
            canon_user_range(bounds, old(self).inner().page_map().spec_levels()) ==> {
                &&& r is Ok
                &&& final(self).inner().regions() == outside(
                    split_regions(split_regions(old(self).inner().regions(), bounds.start as int), bounds.end as int),
                    bounds.start as int,
                    bounds.end as int,
                )
            },
            canon_user_range(bounds, old(self).inner().page_map().spec_levels()) ==> (forall|vpn: usize|
                bounds.start / PAGE_SIZE <= vpn < bounds.end / PAGE_SIZE
                    && region_holds(old(self).inner().regions(), vpn * PAGE_SIZE)
                    && !is_superpage(old(self).inner().page_map().walk_spec(vpn, 0))
                    ==> !(#[trigger] final(self).inner().page_map().walk_spec(vpn, 0)).valid),
    {
        let levels = self.0.levels();
        if !physmap::is_canon_user_range(bounds.start..bounds.end, levels) {
            return Err(Errno::EINVAL);
        }
        self.0.unmap(bounds, pmm)
    }

    /// Handle a page fault at address `vaddr`.
    /// If this returns `Ok`, the access should be retried.
    pub fn fault(&mut self, vaddr: usize, access: u8, pmm: &mut PhysAllocator) -> (r: EResult<()>)
        requires
            old(self).inner().wf(),
            old(pmm).wf(),
            old(self).inner().tables_in_use(*old(pmm)),
            // A `MappablePage` cannot name physical page 0, so no page may come from there.
            old(pmm).range_start() > 0,
        ensures
            final(self).inner().wf(),
            final(pmm).wf(),
            final(self).inner().tables_in_use(*final(pmm)),
            final(self).inner().regions() == old(self).inner().regions(),
            final(self).inner().page_map().spec_levels() == old(self).inner().page_map().spec_levels(),
            final(pmm).range_start() == old(pmm).range_start(),
            final(pmm).range_end() == old(pmm).range_end(),
            allocated_from(*old(pmm), *final(pmm)),
            !region_holds(old(self).inner().regions(), vaddr as int) ==> r == Err::<(), Errno>(Errno::EFAULT)
                && *final(self) == *old(self),
            r is Err ==> r == Err::<(), Errno>(Errno::EFAULT) || r == Err::<(), Errno>(Errno::ENOMEM),
            r is Ok && access != 0 ==> final(self).inner().page_map().walk_spec((vaddr / PAGE_SIZE) as usize, 0).valid,
            forall|k: int| 0 <= k < old(self).inner().regions().len() && (#[trigger] old(self).inner().regions()[k]).start
                <= vaddr < old(self).inner().regions()[k].end ==> {
                let e = old(self).inner().regions()[k];
                let fast = tables_allow(old(self).inner().page_map(), vaddr, access);
                &&& fast ==> r is Ok && *final(self) == *old(self) && *final(pmm) == *old(pmm)
                &&& !fast && e.prot_flags & access == 0 ==> r == Err::<(), Errno>(Errno::EFAULT)
                &&& r == Err::<(), Errno>(Errno::EFAULT) ==> !fast && (e.prot_flags & access == 0 || object_lacks(e, vaddr))
                &&& r is Ok && !fast ==> maps_with_region_flags(final(self).inner().page_map().walk_spec((vaddr / PAGE_SIZE) as usize, 0), e)
                &&& r is Ok && !fast ==> (backing_page(final(self).inner(), k, vaddr) matches Some(p)
                    && p == final(self).inner().page_map().walk_spec((vaddr / PAGE_SIZE) as usize, 0).ppn * PAGE_SIZE)
            },
            r == Err::<(), Errno>(Errno::ENOMEM) ==> lowest_from(final(pmm).free_blocks(), 0) == 64,
    {
        let mut fences = VmFenceSet::new();
        self.0.fault(&mut fences, vaddr, access, pmm)
    }

    /// Clone this address space as needed for the `fork` system call.
    pub fn fork(&mut self, pmm: &mut PhysAllocator) -> (r: EResult<Self>)
        requires
            old(self).inner().wf(),
            old(pmm).wf(),
            old(self).inner().tables_in_use(*old(pmm)),
        ensures
            final(self).inner().wf(),
            final(pmm).wf(),
            final(self).inner().tables_in_use(*final(pmm)),
            final(self).inner().regions() == old(self).inner().regions(),
            final(self).inner().page_map().spec_levels() == old(self).inner().page_map().spec_levels(),
            final(pmm).range_start() == old(pmm).range_start(),
            final(pmm).range_end() == old(pmm).range_end(),
            allocated_from(*old(pmm), *final(pmm)),
            r is Err ==> r == Err::<Self, Errno>(Errno::ENOMEM),
            r is Err ==> lowest_from(final(pmm).free_blocks(), 0) == 64,
            forall|i: int, off: usize| 0 <= i < old(self).inner().regions().len()
                ==> #[trigger] final(self).inner().anon_paddr(i, off) == old(self).inner().anon_paddr(i, off)
                && final(self).inner().anon_shared(i),
            old(self).inner().page_map().clears_to(final(self).inner().page_map()),
            forall|i: int, vpn: usize|
                #![trigger old(self).inner().regions()[i], final(self).inner().page_map().walk_spec(vpn, 0)]
                0 <= i < old(self).inner().regions().len() && old(self).inner().regions()[i].map_flags & PRIVATE != 0
                    && old(self).inner().regions()[i].prot_flags & prot::WRITE != 0
                    && old(self).inner().regions()[i].start / PAGE_SIZE <= vpn < old(self).inner().regions()[i].end / PAGE_SIZE
                    && !is_superpage(old(self).inner().page_map().walk_spec(vpn, 0))
                    ==> !final(self).inner().page_map().walk_spec(vpn, 0).valid,
            r matches Ok(child) ==> {
                &&& child.inner().wf()
                &&& child.inner().tables_in_use(*final(pmm))
                &&& child.inner().regions() == old(self).inner().regions()
                &&& child.inner().page_map().spec_levels() == old(self).inner().page_map().spec_levels()
                &&& forall|i: int, off: usize| 0 <= i < old(self).inner().regions().len()
                    ==> #[trigger] child.inner().anon_paddr(i, off) == old(self).inner().anon_paddr(i, off)
                    && child.inner().anon_shared(i)
            },
    {
        match self.0.fork(pmm) {
            Ok(c) => Ok(VmSpace(c)),
            Err(e) => Err(e),
        }
    }

    /// Clear the entire address space.
    pub fn clear(&mut self, pmm: &mut PhysAllocator)
        requires
            old(self).inner().wf(),
            old(pmm).wf(),
            old(self).inner().tables_in_use(*old(pmm)),
        ensures
            final(self).inner().wf(),
            final(pmm).wf(),
            final(self).inner().tables_in_use(*final(pmm)),
            final(self).inner().page_map().spec_levels() == old(self).inner().page_map().spec_levels(),
            final(pmm).range_start() == old(pmm).range_start(),
            final(pmm).range_end() == old(pmm).range_end(),
            allocated_from(*old(pmm), *final(pmm)),
            final(self).inner().regions() == Seq::<RegionView>::empty(),
    {
        self.0.clear(pmm);
    }

    /// Do a virtual to physical address lookup.
    pub fn virt2phys(&self, vaddr: usize) -> (r: Virt2Phys)
        requires
            self.inner().wf(),
        ensures
            r == self.inner().page_map().virt2phys_spec(vaddr),
    {
        self.0.virt2phys(vaddr)
    }
}

/// Virtual address-space map for kernel memory.
pub struct KernelVmSpace(VmSpaceInner);

/// The bounds within which the kernel makes its own non-fixed mappings: the upper quarter of
/// the higher half, up to the last page.
pub open spec fn kernel_bounds(levels: u32) -> (int, int) {
    (usize::MAX - half_size(levels) + 1 + half_size(levels) / 4, usize::MAX - (PAGE_SIZE - 1))
}

/// The mapping flags of a kernel mapping: unless it may be lazy, it is populated and shared.
pub open spec fn kernel_map_flags(map_flags: u32) -> u32 {
    if map_flags & LAZY_KERNEL == 0 {
        ((map_flags | POPULATE) & !PRIVATE) | SHARED
    } else {
        map_flags
    }
}

/// A kernel mapping that may not be lazy is populated at once and shared, never private, and
/// keeps every other flag it was asked for; one that may be lazy keeps its flags as they are.
pub proof fn lemma_kernel_map_flags(f: u32)
    ensures
        f & 0x8000_0000 == 0 ==> kernel_map_flags(f) & 0x8000 != 0 && kernel_map_flags(f) & 0x1 != 0
            && kernel_map_flags(f) & 0x2 == 0 && kernel_map_flags(f) & !0x8003u32 == f & !0x8003u32,
        f & 0x8000_0000 != 0 ==> kernel_map_flags(f) == f,
{
    assert(f & 0x8000_0000 == 0 ==> ((((f | 0x8000u32) & !0x2u32) | 0x1u32) & 0x8000 != 0 && (((f | 0x8000u32) & !0x2u32)
        | 0x1u32) & 0x1 != 0 && (((f | 0x8000u32) & !0x2u32) | 0x1u32) & 0x2 == 0 && (((f | 0x8000u32) & !0x2u32) | 0x1u32)
        & !0x8003u32 == f & !0x8003u32)) by (bit_vector);
}

impl KernelVmSpace {
    /// The address space underneath.
    pub closed spec fn inner(&self) -> VmSpaceInner {
        self.0
    }

    /// Create the kernel's address space.
    pub fn new(pmm: &mut PhysAllocator, levels: u32, zeroes: usize) -> (r: EResult<Self>)
        requires
            old(pmm).wf(),
            levels_ok(levels),
            zeroes != 0,
            zeroes % PAGE_SIZE == 0,
        ensures
            final(pmm).wf(),
            final(pmm).range_start() == old(pmm).range_start(),
            final(pmm).range_end() == old(pmm).range_end(),
            allocated_from(*old(pmm), *final(pmm)),
            r is Err ==> r == Err::<Self, Errno>(Errno::ENOMEM),
            (r is Err) <==> lowest_from(old(pmm).free_blocks(), 0) == 64,
            r is Err ==> *final(pmm) == *old(pmm),
            r matches Ok(v) ==> {
                &&& v.inner().wf()
                &&& v.inner().tables_in_use(*final(pmm))
                &&& v.inner().regions() == Seq::<RegionView>::empty()
                &&& v.inner().page_map().spec_levels() == levels
                &&& forall|vpn: usize| !(#[trigger] v.inner().page_map().walk_spec(vpn, 0)).valid
            },
    {
        match VmSpaceInner::new(pmm, levels, zeroes) {
            Ok(v) => Ok(KernelVmSpace(v)),
            Err(e) => Err(e),
        }
    }

    /// The bounds within which the kernel makes its own non-fixed mappings.
    pub fn bounds(levels: u32) -> (r: core::ops::Range<usize>)
        requires
            levels_ok(levels),
        ensures
            r.start == kernel_bounds(levels).0,
            r.end == kernel_bounds(levels).1,
    {
        let half = physmap::canon_half_size(levels);
        proof {
            crate::mem::physmap::lemma_half_size_aligned(levels);
        }
        physmap::higher_half_vaddr(levels) + half / 4..0usize.wrapping_sub(PAGE_SIZE)
    }

    /// Create a new kernel mapping and try to place it at `hint`; without [`LAZY_KERNEL`] it is
    /// populated at once and shared.
    pub fn map(
        &mut self,
        size: usize,
        hint: usize,
        map_flags: u32,
        prot_flags: u8,
        mapping: Option<Mapping>,
        pmm: &mut PhysAllocator,
    ) -> (r: EResult<usize>)
        requires
            old(self).inner().wf(),
            old(pmm).wf(),
            old(self).inner().tables_in_use(*old(pmm)),
            // A `MappablePage` cannot name physical page 0, so no page may come from there.
            old(pmm).range_start() > 0,
            hint % PAGE_SIZE == 0,
            size <= usize::MAX - (PAGE_SIZE - 1),
            map_flags & FIXED != 0 ==> hint >= usize::MAX - half_size(old(self).inner().page_map().spec_levels()) + 1
                && hint + round_up(size as int) <= usize::MAX,
            mapping matches Some(m) ==> m.offset % (PAGE_SIZE as u64) == 0 && m.offset <= m.object.spec_len(),
        ensures
            final(self).inner().wf(),
            final(pmm).wf(),
            final(self).inner().tables_in_use(*final(pmm)),
            final(self).inner().page_map().spec_levels() == old(self).inner().page_map().spec_levels(),
            final(pmm).range_start() == old(pmm).range_start(),
            final(pmm).range_end() == old(pmm).range_end(),
            allocated_from(*old(pmm), *final(pmm)),
            map_result(
                old(self).inner().regions(),
                size,
                hint,
                kernel_bounds(old(self).inner().page_map().spec_levels()).0 as usize..kernel_bounds(
                    old(self).inner().page_map().spec_levels(),
                ).1 as usize,
                kernel_map_flags(map_flags),
                prot_flags,
                mapping,
                r,
                final(self).inner().regions(),
            ),
            forall|v: usize| apart_from(
                v,
                map_target(old(self).inner().regions(), size, hint,
                    kernel_bounds(old(self).inner().page_map().spec_levels()).0 as usize..kernel_bounds(
                        old(self).inner().page_map().spec_levels()).1 as usize, kernel_map_flags(map_flags)) / (PAGE_SIZE as int),
                (map_target(old(self).inner().regions(), size, hint,
                    kernel_bounds(old(self).inner().page_map().spec_levels()).0 as usize..kernel_bounds(
                        old(self).inner().page_map().spec_levels()).1 as usize, kernel_map_flags(map_flags)) + round_up(size as int))
                    / (PAGE_SIZE as int),
                old(self).inner().page_map().spec_levels(),
            ) ==> #[trigger] walk_kept(old(self).inner().page_map(), final(self).inner().page_map(), v),
            r is Ok && kernel_map_flags(map_flags) & POPULATE != 0
                ==> populated(old(self).inner(), final(self).inner(), r->Ok_0, round_up(size as int)),
            r == Err::<usize, Errno>(Errno::EFAULT) ==> prot_flags & (if mapping is None { prot::WRITE } else { prot::READ }) == 0,
            r == Err::<usize, Errno>(Errno::ENOMEM) ==> lowest_from(final(pmm).free_blocks(), 0) == 64
                || (map_flags & FIXED == 0 && placement(old(self).inner().regions(), round_up(size as int), hint as int,
                kernel_bounds(old(self).inner().page_map().spec_levels()).0,
                kernel_bounds(old(self).inner().page_map().spec_levels()).1) is None),
    {
        let flags = if map_flags & LAZY_KERNEL == 0 {
            ((map_flags | POPULATE) & !PRIVATE) | SHARED
        } else {
            map_flags
        };
        assert(flags & FIXED == map_flags & FIXED) by (bit_vector)
            requires
                flags == map_flags || flags == ((map_flags | 0x8000u32) & !0x2u32) | 0x1u32,
        ;
        let levels = self.0.levels();
        let bounds = Self::bounds(levels);
        proof {
            crate::mem::physmap::lemma_half_size_aligned(levels);
            let h = half_size(levels);
            assert(bounds.start % PAGE_SIZE == 0 && bounds.end % PAGE_SIZE == 0) by (nonlinear_arith)
                requires
                    bounds.start == usize::MAX - h + 1 + h / 4,
                    bounds.end == usize::MAX - 4095,
                    (usize::MAX + 1) % 4096 == 0,
                    h % 4096 == 0,
                    (h / 4) % 4096 == 0,
                    PAGE_SIZE == 4096,
            ;
        }
        self.0.map(size, hint, bounds, flags, prot_flags, mapping, pmm)
    }

    /// Handle a page fault at address `vaddr`.
    /// If this returns `Ok`, the access should be retried.
    pub fn fault(&mut self, vaddr: usize, access: u8, pmm: &mut PhysAllocator) -> (r: EResult<()>)
        requires
            old(self).inner().wf(),
            old(pmm).wf(),
            old(self).inner().tables_in_use(*old(pmm)),
            // A `MappablePage` cannot name physical page 0, so no page may come from there.
            old(pmm).range_start() > 0,
        ensures
            final(self).inner().wf(),
            final(pmm).wf(),
            final(self).inner().tables_in_use(*final(pmm)),
            final(self).inner().regions() == old(self).inner().regions(),
            final(self).inner().page_map().spec_levels() == old(self).inner().page_map().spec_levels(),
            final(pmm).range_start() == old(pmm).range_start(),
            final(pmm).range_end() == old(pmm).range_end(),
            allocated_from(*old(pmm), *final(pmm)),
            !region_holds(old(self).inner().regions(), vaddr as int) ==> r == Err::<(), Errno>(Errno::EFAULT)
                && *final(self) == *old(self),
            r is Err ==> r == Err::<(), Errno>(Errno::EFAULT) || r == Err::<(), Errno>(Errno::ENOMEM),
            r is Ok && access != 0 ==> final(self).inner().page_map().walk_spec((vaddr / PAGE_SIZE) as usize, 0).valid,
            forall|k: int| 0 <= k < old(self).inner().regions().len() && (#[trigger] old(self).inner().regions()[k]).start
                <= vaddr < old(self).inner().regions()[k].end ==> {
                let e = old(self).inner().regions()[k];
                let fast = tables_allow(old(self).inner().page_map(), vaddr, access);
                &&& fast ==> r is Ok && *final(self) == *old(self) && *final(pmm) == *old(pmm)
                &&& !fast && e.prot_flags & access == 0 ==> r == Err::<(), Errno>(Errno::EFAULT)
                &&& r == Err::<(), Errno>(Errno::EFAULT) ==> !fast && (e.prot_flags & access == 0 || object_lacks(e, vaddr))
                &&& r is Ok && !fast ==> maps_with_region_flags(final(self).inner().page_map().walk_spec((vaddr / PAGE_SIZE) as usize, 0), e)
                &&& r is Ok && !fast ==> (backing_page(final(self).inner(), k, vaddr) matches Some(p)
                    && p == final(self).inner().page_map().walk_spec((vaddr / PAGE_SIZE) as usize, 0).ppn * PAGE_SIZE)
            },
            r == Err::<(), Errno>(Errno::ENOMEM) ==> lowest_from(final(pmm).free_blocks(), 0) == 64,
    {
        let mut fences = VmFenceSet::new();
        self.0.fault(&mut fences, vaddr, access, pmm)
    }

    /// Change the protection flags for pages within `bounds`, which must lie within the kernel's
    /// own mapping bounds. Preserves the outer portion of mappings on the border of `bounds`.
    pub fn protect(&mut self, bounds: core::ops::Range<usize>, prot_flags: u8, pmm: &mut PhysAllocator) -> (r: EResult<()>)
        requires
            old(self).inner().wf(),
            old(pmm).wf(),
            old(self).inner().tables_in_use(*old(pmm)),
            kernel_bounds(old(self).inner().page_map().spec_levels()).0 <= bounds.start,
            bounds.end <= kernel_bounds(old(self).inner().page_map().spec_levels()).1,
            bounds.start % PAGE_SIZE == 0,
            bounds.end % PAGE_SIZE == 0,
        ensures
            final(self).inner().wf(),
            final(pmm).wf(),
            final(self).inner().tables_in_use(*final(pmm)),
            final(self).inner().page_map().spec_levels() == old(self).inner().page_map().spec_levels(),
            final(pmm).range_start() == old(pmm).range_start(),
            final(pmm).range_end() == old(pmm).range_end(),
            allocated_from(*old(pmm), *final(pmm)),
            r is Ok,
            final(self).inner().regions() == reprotect(
                split_regions(split_regions(old(self).inner().regions(), bounds.start as int), bounds.end as int),
                bounds.start as int,
                bounds.end as int,
                prot_flags,
            ),
            forall|j: int, vpn: usize|
                #![trigger final(self).inner().regions()[j], final(self).inner().page_map().walk_spec(vpn, 0)]
                0 <= j < final(self).inner().regions().len() && bounds.start <= final(self).inner().regions()[j].start
                < bounds.end && final(self).inner().regions()[j].start / PAGE_SIZE <= vpn
                < final(self).inner().regions()[j].end / PAGE_SIZE
                && !is_superpage(old(self).inner().page_map().walk_spec(vpn, 0))
                ==> !final(self).inner().page_map().walk_spec(vpn, 0).valid,
    {
        self.0.protect(bounds, prot_flags, pmm)
    }

    /// Unmap all pages within `bounds`, which must lie within the kernel's own mapping bounds.
    /// Preserves the outer portion of mappings on the border of `bounds`.
    pub fn unmap(&mut self, bounds: core::ops::Range<usize>, pmm: &mut PhysAllocator) -> (r: EResult<()>)
        requires
            old(self).inner().wf(),
            old(pmm).wf(),
            old(self).inner().tables_in_use(*old(pmm)),
            kernel_bounds(old(self).inner().page_map().spec_levels()).0 <= bounds.start,
            bounds.end <= kernel_bounds(old(self).inner().page_map().spec_levels()).1,
            bounds.start % PAGE_SIZE == 0,
            bounds.end % PAGE_SIZE == 0,
        ensures
            final(self).inner().wf(),
            final(pmm).wf(),
            final(self).inner().tables_in_use(*final(pmm)),
            final(self).inner().page_map().spec_levels() == old(self).inner().page_map().spec_levels(),
            final(pmm).range_start() == old(pmm).range_start(),
            final(pmm).range_end() == old(pmm).range_end(),
            allocated_from(*old(pmm), *final(pmm)),
            r is Ok,
            final(self).inner().regions() == outside(
                split_regions(split_regions(old(self).inner().regions(), bounds.start as int), bounds.end as int),
                bounds.start as int,
                bounds.end as int,
            ),
            forall|vpn: usize|
                bounds.start / PAGE_SIZE <= vpn < bounds.end / PAGE_SIZE
                    && region_holds(old(self).inner().regions(), vpn * PAGE_SIZE)
                    && !is_superpage(old(self).inner().page_map().walk_spec(vpn, 0))
                    ==> !(#[trigger] final(self).inner().page_map().walk_spec(vpn, 0)).valid,
    {
        self.0.unmap(bounds, pmm)
    }

    /// Do a virtual to physical address lookup.
    pub fn virt2phys(&self, vaddr: usize) -> (r: Virt2Phys)
        requires
            self.inner().wf(),
        ensures
            r == self.inner().page_map().virt2phys_spec(vaddr),
    {
        self.0.virt2phys(vaddr)
    }

    /// Page number of the root page table, for the CPU.
    pub fn root(&self) -> (r: usize)
        ensures
            r == self.inner().page_map().spec_root(),
    {
        self.0.pmap.root()
    }
}

/// Where the boot protocol put the kernel and the higher-half direct map of physical memory.
#[derive(Debug)]
pub struct KernelLayout {
    /// Virtual addresses of the kernel's code.
    pub text: core::ops::Range<usize>,
    /// Virtual addresses of the kernel's read-only data.
    pub rodata: core::ops::Range<usize>,
    /// Virtual addresses of the kernel's writable data.
    pub data: core::ops::Range<usize>,
    /// Kernel base virtual address.
    pub kernel_vaddr: usize,
    /// Kernel base physical address.
    pub kernel_paddr: usize,
    /// Virtual address of the higher-half direct map.
    pub hhdm_vaddr: usize,
    /// Offset from physical to virtual addresses in the higher-half direct map.
    pub hhdm_offset: usize,
    /// Size of the higher-half direct map.
    pub hhdm_size: usize,
}

/// Flags of the kernel's own fixed mappings.
pub const KERNEL_SEGMENT_FLAGS: u32 = 0x8011;

/// The region that maps `size` bytes of the physical memory `object` at `vaddr`.
pub open spec fn segment_region(vaddr: usize, size: usize, prot_flags: u8, object: RawMemory) -> RegionView {
    RegionView {
        start: vaddr,
        end: (vaddr + round_up(size as int)) as usize,
        prot_flags,
        map_flags: KERNEL_SEGMENT_FLAGS,
        mapping: Some(Mapping { offset: 0, object }),
    }
}

/// The regions after mapping a segment over `s`.
pub open spec fn with_segment(s: Seq<RegionView>, vaddr: usize, size: usize, prot_flags: u8, object: RawMemory) -> Seq<RegionView> {
    fixed_map(s, vaddr as int, round_up(size as int), segment_region(vaddr, size, prot_flags, object))
}

/// `object` describes the `size` bytes of physical memory at `paddr`.
pub open spec fn describes(object: RawMemory, paddr: usize, size: usize) -> bool {
    object.spec_paddr() == paddr && object.spec_raw_len() == size
}

/// A segment that can be mapped: page-aligned, not wrapping around, of physical memory that
/// is not at address zero.
pub open spec fn segment_ok(vaddr: usize, size: usize, paddr: usize) -> bool {
    &&& vaddr % PAGE_SIZE == 0
    &&& size <= usize::MAX - (PAGE_SIZE - 1)
    &&& vaddr + round_up(size as int) <= usize::MAX
    &&& paddr != 0
    &&& paddr % PAGE_SIZE == 0
    &&& paddr + size <= usize::MAX
}

/// Whether a segment of `size` bytes, not empty, can be mapped from `paddr` to `vaddr`.
fn segment_fits(vaddr: usize, size: usize, paddr: usize) -> (r: bool)
    ensures
        r == (segment_ok(vaddr, size, paddr) && size > 0),
{
    if size == 0 || vaddr % PAGE_SIZE != 0 || size > usize::MAX - (PAGE_SIZE - 1) || paddr == 0 || paddr % PAGE_SIZE != 0
        || paddr > usize::MAX - size {
        return false;
    }
    let pages = size / PAGE_SIZE + if size % PAGE_SIZE != 0 { 1 } else { 0 };
    proof {
        assert(pages * PAGE_SIZE == round_up(size as int) && pages * PAGE_SIZE <= usize::MAX) by (nonlinear_arith)
            requires
                pages == size / 4096 + if size % 4096 != 0 { 1int } else { 0 },
                size <= usize::MAX - 4095,
                PAGE_SIZE == 4096,
        ;
    }
    vaddr <= usize::MAX - pages * PAGE_SIZE
}

/// The boot layout can be mapped: every kernel segment and the direct map is a non-empty
/// range that [`segment_ok`] accepts.
pub open spec fn layout_ok(l: KernelLayout) -> bool {
    let k = l.kernel_paddr.wrapping_sub(l.kernel_vaddr);
    &&& l.text.start <= l.text.end && l.rodata.start <= l.rodata.end && l.data.start <= l.data.end
    &&& l.hhdm_offset <= l.hhdm_vaddr
    &&& l.text.start < l.text.end && segment_ok(l.text.start, (l.text.end - l.text.start) as usize, l.text.start.wrapping_add(k))
    &&& l.rodata.start < l.rodata.end && segment_ok(l.rodata.start, (l.rodata.end - l.rodata.start) as usize, l.rodata.start.wrapping_add(k))
    &&& l.data.start < l.data.end && segment_ok(l.data.start, (l.data.end - l.data.start) as usize, l.data.start.wrapping_add(k))
    &&& l.hhdm_size > 0 && segment_ok(l.hhdm_vaddr, l.hhdm_size, (l.hhdm_vaddr - l.hhdm_offset) as usize)
}

/// The tables translate page `v`, with a page-sized entry, to the physical page at
/// `paddr + (v * PAGE_SIZE - vaddr)`: a segment mapped at `vaddr` from `paddr`.
pub open spec fn translates(m: PhysMap, v: usize, vaddr: usize, paddr: usize) -> bool {
    &&& m.walk_spec(v, 0).valid
    &&& m.walk_spec(v, 0).level == 0
    &&& m.walk_spec(v, 0).ppn * PAGE_SIZE == paddr + (v * PAGE_SIZE - vaddr)
}

/// Every page of the `size` bytes at `vaddr` is translated to the physical memory at `paddr`.
pub open spec fn segment_mapped(m: PhysMap, vaddr: usize, size: usize, paddr: usize) -> bool {
    forall|v: usize| vaddr / PAGE_SIZE <= v < (vaddr + round_up(size as int)) / (PAGE_SIZE as int)
        ==> #[trigger] translates(m, v, vaddr, paddr)
}

/// No page of the `size` bytes at `vaddr` is translated.
pub open spec fn segment_unmapped(m: PhysMap, vaddr: usize, size: usize) -> bool {
    forall|v: usize| vaddr / PAGE_SIZE <= v < (vaddr + round_up(size as int)) / (PAGE_SIZE as int)
        ==> !(#[trigger] m.walk_spec(v, 0)).valid
}

/// Start, length and physical address of the kernel's `i`-th fixed mapping: code, read-only
/// data, writable data, then the direct map.
pub open spec fn kernel_segment(l: KernelLayout, i: int) -> (usize, usize, usize) {
    let k = l.kernel_paddr.wrapping_sub(l.kernel_vaddr);
    if i == 0 {
        (l.text.start, (l.text.end - l.text.start) as usize, l.text.start.wrapping_add(k))
    } else if i == 1 {
        (l.rodata.start, (l.rodata.end - l.rodata.start) as usize, l.rodata.start.wrapping_add(k))
    } else if i == 2 {
        (l.data.start, (l.data.end - l.data.start) as usize, l.data.start.wrapping_add(k))
    } else {
        (l.hhdm_vaddr, l.hhdm_size, (l.hhdm_vaddr - l.hhdm_offset) as usize)
    }
}

/// The kernel's fixed mappings lie on canonical pages, and no two of them share a page.
pub open spec fn layout_apart(l: KernelLayout, levels: u32) -> bool {
    &&& forall|i: int| 0 <= i < 4 ==> canon_pages(
        (#[trigger] kernel_segment(l, i)).0 as int,
        kernel_segment(l, i).0 + round_up(kernel_segment(l, i).1 as int),
        levels,
    )
    &&& forall|i: int, j: int| 0 <= i < j < 4 ==> {
        let a = #[trigger] kernel_segment(l, i);
        let b = #[trigger] kernel_segment(l, j);
        a.0 + round_up(a.1 as int) <= b.0 || b.0 + round_up(b.1 as int) <= a.0
    }
}

/// A page of one canonical span is apart from every page of another canonical span that it
/// does not share an address with.
proof fn lemma_spans_apart(v: usize, s1: int, e1: int, s2: int, e2: int, levels: u32)
    requires
        levels_ok(levels),
        0 <= s1,
        0 <= s2,
        e1 <= usize::MAX,
        e2 <= usize::MAX,
        s1 % PAGE_SIZE as int == 0,
        s2 % PAGE_SIZE as int == 0,
        e1 % PAGE_SIZE as int == 0,
        e2 % PAGE_SIZE as int == 0,
        s1 / PAGE_SIZE as int <= v < e1 / PAGE_SIZE as int,
        canon_pages(s1, e1, levels),
        canon_pages(s2, e2, levels),
        e1 <= s2 || e2 <= s1,
    ensures
        apart_from(v, s2 / PAGE_SIZE as int, e2 / PAGE_SIZE as int, levels),
{
    assert forall|w: usize| s2 / PAGE_SIZE as int <= w < e2 / PAGE_SIZE as int implies #[trigger] differs_above(v, w, 0, levels) by {
        assert(v * 4096 <= usize::MAX && w * 4096 <= usize::MAX && v != w) by (nonlinear_arith)
            requires
                s1 / 4096 <= v < e1 / 4096,
                s2 / 4096 <= w < e2 / 4096,
                e1 <= usize::MAX,
                e2 <= usize::MAX,
                s1 % 4096 == 0,
                s2 % 4096 == 0,
                e1 % 4096 == 0,
                e2 % 4096 == 0,
                e1 <= s2 || e2 <= s1,
        ;
        physmap::lemma_vpn_bits_small(v);
        physmap::lemma_vpn_bits_small(w);
        assert(physmap::canon_page(v, levels));
        assert(physmap::canon_page(w, levels));
        physmap::lemma_canon_pages_differ(v, w, levels);
    }
}

/// A segment's translation outlives changes to the tables that keep every page apart from
/// `lo..hi`, when the segment's pages are.
proof fn lemma_segment_kept(a: PhysMap, b: PhysMap, vaddr: usize, size: usize, paddr: usize, lo: int, hi: int, levels: u32)
    requires
        forall|v: usize| apart_from(v, lo, hi, levels) ==> #[trigger] walk_kept(a, b, v),
        forall|v: usize| vaddr / PAGE_SIZE <= v < (vaddr + round_up(size as int)) / (PAGE_SIZE as int)
            ==> apart_from(v, lo, hi, levels),
    ensures
        segment_mapped(a, vaddr, size, paddr) ==> segment_mapped(b, vaddr, size, paddr),
        segment_unmapped(a, vaddr, size) ==> segment_unmapped(b, vaddr, size),
{
    assert forall|v: usize| vaddr / PAGE_SIZE <= v < (vaddr + round_up(size as int)) / (PAGE_SIZE as int)
        implies #[trigger] walk_kept(a, b, v) by {
    }
    if segment_mapped(a, vaddr, size, paddr) {
        assert forall|v: usize| vaddr / PAGE_SIZE <= v < (vaddr + round_up(size as int)) / (PAGE_SIZE as int)
            implies #[trigger] translates(b, v, vaddr, paddr) by {
            assert(translates(a, v, vaddr, paddr));
            assert(walk_kept(a, b, v));
        }
    }
    if segment_unmapped(a, vaddr, size) {
        assert forall|v: usize| vaddr / PAGE_SIZE <= v < (vaddr + round_up(size as int)) / (PAGE_SIZE as int)
            implies !(#[trigger] b.walk_spec(v, 0)).valid by {
            assert(!a.walk_spec(v, 0).valid);
            assert(walk_kept(a, b, v));
        }
    }
}

/// Cutting the regions at a point that lies inside none of them keeps a region.
proof fn lemma_split_keeps(s: Seq<RegionView>, t: int, e: RegionView)
    requires
        s.contains(e),
        !(e.start < t < e.end),
    ensures
        split_regions(s, t).contains(e),
    decreases s.len(),
{
    let r = split_regions(s.drop_last(), t);
    if s.last() == e {
        assert(piece(e, t) == seq![e]);
        assert((r + piece(e, t))[r.len() as int] == e);
    } else {
        let i = choose|i: int| 0 <= i < s.len() && s[i] == e;
        assert(s.drop_last()[i] == e);
        lemma_split_keeps(s.drop_last(), t, e);
        let j = choose|j: int| 0 <= j < r.len() && r[j] == e;
        assert((r + piece(s.last(), t))[j] == e);
    }
}

/// Dropping the regions that start in `lo..hi` keeps one that starts elsewhere.
proof fn lemma_outside_keeps(s: Seq<RegionView>, lo: int, hi: int, e: RegionView)
    requires
        s.contains(e),
        !(lo <= e.start < hi),
    ensures
        outside(s, lo, hi).contains(e),
    decreases s.len(),
{
    let r = outside(s.drop_last(), lo, hi);
    if s.last() == e {
        assert(r.push(e)[r.len() as int] == e);
    } else {
        let i = choose|i: int| 0 <= i < s.len() && s[i] == e;
        assert(s.drop_last()[i] == e);
        lemma_outside_keeps(s.drop_last(), lo, hi, e);
        let j = choose|j: int| 0 <= j < r.len() && r[j] == e;
        if !(lo <= s.last().start < hi) {
            assert(r.push(s.last())[j] == e);
        }
    }
}

/// Inserting a region keeps the others.
proof fn lemma_with_region_keeps(s: Seq<RegionView>, e: RegionView, x: RegionView)
    requires
        s.contains(x),
    ensures
        with_region(s, e).contains(x),
{
    lemma_with_region_has(s, e);
    let p = count_before(s, e.start as int);
    let i = choose|i: int| 0 <= i < s.len() && s[i] == x;
    if i < p {
        assert(with_region(s, e)[i] == x);
    } else {
        assert(with_region(s, e)[i + 1] == x);
    }
}

/// In regions that lie in order, an inserted region shares no address with the others.
proof fn lemma_with_region_apart(s: Seq<RegionView>, e: RegionView, x: RegionView)
    requires
        regions_ok(with_region(s, e)),
        s.contains(x),
    ensures
        x.end <= e.start || e.end <= x.start,
{
    lemma_with_region_has(s, e);
    let p = count_before(s, e.start as int);
    let r = with_region(s, e);
    let i = choose|i: int| 0 <= i < s.len() && s[i] == x;
    if i < p {
        assert(r[i] == x);
        assert(r[i].end <= r[p].start);
    } else {
        assert(r[i + 1] == x);
        assert(r[p].end <= r[i + 1].start);
    }
}

/// A fixed mapping keeps a region that shares no address with it.
proof fn lemma_fixed_map_keeps(s: Seq<RegionView>, a: int, sz: int, region: RegionView, x: RegionView)
    requires
        s.contains(x),
        sz > 0,
        x.start < x.end,
        x.end <= a || a + sz <= x.start,
    ensures
        fixed_map(s, a, sz, region).contains(x),
{
    lemma_split_keeps(s, a, x);
    lemma_split_keeps(split_regions(s, a), a + sz, x);
    lemma_outside_keeps(split_regions(split_regions(s, a), a + sz), a, a + sz, x);
    lemma_with_region_keeps(outside(split_regions(split_regions(s, a), a + sz), a, a + sz), region, x);
}

/// Map `size` bytes of physical memory at `paddr` to `vaddr`, populated at once.
fn map_segment(
    kmm: &mut KernelVmSpace,
    vaddr: usize,
    size: usize,
    paddr: usize,
    prot_flags: u8,
    pmm: &mut PhysAllocator,
) -> (r: EResult<RawMemory>)
    requires
        old(kmm).inner().wf(),
        old(pmm).wf(),
        old(kmm).inner().tables_in_use(*old(pmm)),
        // A `MappablePage` cannot name physical page 0, so no page may come from there.
        old(pmm).range_start() > 0,
    ensures
        final(kmm).inner().wf(),
        final(pmm).wf(),
        final(kmm).inner().tables_in_use(*final(pmm)),
        final(kmm).inner().page_map().spec_levels() == old(kmm).inner().page_map().spec_levels(),
        final(pmm).range_start() == old(pmm).range_start(),
        final(pmm).range_end() == old(pmm).range_end(),
        allocated_from(*old(pmm), *final(pmm)),
        !segment_ok(vaddr, size, paddr) ==> r == Err::<RawMemory, Errno>(Errno::EINVAL),
        size == 0 && segment_ok(vaddr, size, paddr) ==> r == Err::<RawMemory, Errno>(Errno::EINVAL),
        r matches Ok(o) ==> describes(o, paddr, size) && size > 0 && final(kmm).inner().regions() == with_segment(
            old(kmm).inner().regions(),
            vaddr,
            size,
            prot_flags,
            o,
        ),
        r is Err ==> r == Err::<RawMemory, Errno>(Errno::EINVAL) || r == Err::<RawMemory, Errno>(Errno::ENOMEM)
            || r == Err::<RawMemory, Errno>(Errno::EFAULT),
        segment_ok(vaddr, size, paddr) && size > 0 ==> r != Err::<RawMemory, Errno>(Errno::EINVAL),
        r == Err::<RawMemory, Errno>(Errno::ENOMEM) ==> lowest_from(final(pmm).free_blocks(), 0) == 64,
        prot_flags & prot::READ != 0 ==> r != Err::<RawMemory, Errno>(Errno::EFAULT),
        forall|v: usize| apart_from(v, vaddr as int / PAGE_SIZE as int, (vaddr + round_up(size as int)) / PAGE_SIZE as int,
            old(kmm).inner().page_map().spec_levels())
            ==> #[trigger] walk_kept(old(kmm).inner().page_map(), final(kmm).inner().page_map(), v),
        r is Ok && canon_pages(vaddr as int, vaddr + round_up(size as int), old(kmm).inner().page_map().spec_levels())
            && segment_unmapped(old(kmm).inner().page_map(), vaddr, size)
            ==> segment_mapped(final(kmm).inner().page_map(), vaddr, size, paddr),
{
    if vaddr % PAGE_SIZE != 0 || size > usize::MAX - (PAGE_SIZE - 1) || paddr == 0 || paddr % PAGE_SIZE != 0
        || paddr > usize::MAX - size {
        return Err(Errno::EINVAL);
    }
    let pages = size / PAGE_SIZE + if size % PAGE_SIZE != 0 { 1 } else { 0 };
    proof {
        assert(pages * PAGE_SIZE == round_up(size as int) && pages * PAGE_SIZE <= usize::MAX) by (nonlinear_arith)
            requires
                pages == size / 4096 + if size % 4096 != 0 { 1int } else { 0 },
                size <= usize::MAX - 4095,
                PAGE_SIZE == 4096,
        ;
    }
    if vaddr > usize::MAX - pages * PAGE_SIZE {
        return Err(Errno::EINVAL);
    }
    let object = RawMemory::new(paddr, size);
    assert(0x10u32 | 0x8000u32 | 0x1u32 == 0x8011u32) by (bit_vector);
    assert(0x8011u32 & 0x10u32 != 0) by (bit_vector);
    assert(object.spec_len() == size);
    let mapping = Some(Mapping { offset: 0, object });
    assert(0u64 % 4096u64 == 0u64);
    assert(mapping matches Some(m) ==> m.offset % (PAGE_SIZE as u64) == 0 && m.offset <= m.object.spec_len());
    assert(0x8011u32 & 0x8000u32 != 0) by (bit_vector);
    let r = kmm.0.map(
        size,
        vaddr,
        0..0,
        FIXED | POPULATE | SHARED,
        prot_flags,
        Some(Mapping { offset: 0, object }),
        pmm,
    );
    proof {
        let levels = old(kmm).inner().page_map().spec_levels();
        let sz = round_up(size as int);
        if r is Ok && canon_pages(vaddr as int, vaddr + sz, levels) && segment_unmapped(old(kmm).inner().page_map(), vaddr, size) {
            let s0 = old(kmm).inner().regions();
            let x = outside(split_regions(split_regions(s0, vaddr as int), vaddr + sz), vaddr as int, vaddr + sz);
            let e = segment_region(vaddr, size, prot_flags, object);
            lemma_with_region_has(x, e);
            let k = count_before(x, vaddr as int);
            assert(kmm.inner().regions()[k] == e);
            assert(populated(old(kmm).inner(), kmm.inner(), vaddr, sz));
            assert forall|v: usize| vaddr / PAGE_SIZE <= v < (vaddr + sz) / (PAGE_SIZE as int)
                implies #[trigger] translates(kmm.inner().page_map(), v, vaddr, paddr) by {
                assert(!old(kmm).inner().page_map().walk_spec(v, 0).valid);
                assert(kmm.inner().regions()[k].start == vaddr);
                let w = kmm.inner().page_map().walk_spec(v, 0);
                assert(maps_with_region_flags(w, kmm.inner().regions()[k]));
                assert(v * 4096 - vaddr < size && v * 4096 >= vaddr) by (nonlinear_arith)
                    requires
                        vaddr / 4096 <= v < (vaddr + sz) / 4096,
                        vaddr % 4096 == 0,
                        sz == (size + 4095) / 4096 * 4096,
                ;
                assert(w.ppn * PAGE_SIZE == (paddr + (v * PAGE_SIZE - vaddr)) as usize);
            }
        }
    }
    match r {
        Ok(_) => Ok(object),
        Err(e) => Err(e),
    }
}

/// The kernel's fixed mappings as [`init`] makes them: code, read-only data, writable data
/// and the direct map, each at its own address.
pub open spec fn kernel_segments(layout: KernelLayout, o: Seq<RawMemory>) -> Seq<RegionView> {
    let s1 = with_segment(Seq::empty(), layout.text.start, (layout.text.end - layout.text.start) as usize, prot::READ | prot::EXEC, o[0]);
    let s2 = with_segment(s1, layout.rodata.start, (layout.rodata.end - layout.rodata.start) as usize, prot::READ, o[1]);
    let s3 = with_segment(s2, layout.data.start, (layout.data.end - layout.data.start) as usize, prot::READ | prot::WRITE, o[2]);
    with_segment(s3, layout.hhdm_vaddr, layout.hhdm_size, prot::READ | prot::WRITE, o[3])
}

/// A fixed mapping holds the region it maps.
proof fn lemma_fixed_map_has(s: Seq<RegionView>, a: int, sz: int, region: RegionView)
    ensures
        fixed_map(s, a, sz, region).contains(region),
{
    let x = outside(split_regions(split_regions(s, a), a + sz), a, a + sz);
    lemma_with_region_has(x, region);
    assert(fixed_map(s, a, sz, region)[count_before(x, region.start as int)] == region);
}

/// What [`layout_ok`] says of the kernel's `i`-th fixed mapping.
proof fn lemma_kernel_segment_ok(l: KernelLayout, i: int)
    requires
        layout_ok(l),
        0 <= i < 4,
    ensures
        segment_ok(kernel_segment(l, i).0, kernel_segment(l, i).1, kernel_segment(l, i).2),
        kernel_segment(l, i).1 > 0,
        round_up(kernel_segment(l, i).1 as int) > 0,
        round_up(kernel_segment(l, i).1 as int) % PAGE_SIZE as int == 0,
{
    let g = kernel_segment(l, i);
    assert(round_up(g.1 as int) > 0 && round_up(g.1 as int) % 4096 == 0) by (nonlinear_arith)
        requires
            g.1 > 0,
            round_up(g.1 as int) == (g.1 + 4095) / 4096 * 4096,
    ;
}

/// Every one of the kernel's fixed mappings that shares a page with no other keeps its region
/// among [`kernel_segments`].
proof fn lemma_kernel_segments_hold(l: KernelLayout, levels: u32, o: Seq<RawMemory>, i: int)
    requires
        layout_ok(l),
        layout_apart(l, levels),
        0 <= i < 4,
    ensures
        exists|e: RegionView| #[trigger] kernel_segments(l, o).contains(e) && e.start == kernel_segment(l, i).0
            && e.end == kernel_segment(l, i).0 + round_up(kernel_segment(l, i).1 as int),
{
    let g0 = kernel_segment(l, 0);
    let g1 = kernel_segment(l, 1);
    let g2 = kernel_segment(l, 2);
    let g3 = kernel_segment(l, 3);
    lemma_kernel_segment_ok(l, 0);
    lemma_kernel_segment_ok(l, 1);
    lemma_kernel_segment_ok(l, 2);
    lemma_kernel_segment_ok(l, 3);
    let r0 = segment_region(g0.0, g0.1, prot::READ | prot::EXEC, o[0]);
    let r1 = segment_region(g1.0, g1.1, prot::READ, o[1]);
    let r2 = segment_region(g2.0, g2.1, prot::READ | prot::WRITE, o[2]);
    let r3 = segment_region(g3.0, g3.1, prot::READ | prot::WRITE, o[3]);
    let s1 = with_segment(Seq::empty(), g0.0, g0.1, prot::READ | prot::EXEC, o[0]);
    let s2 = with_segment(s1, g1.0, g1.1, prot::READ, o[1]);
    let s3 = with_segment(s2, g2.0, g2.1, prot::READ | prot::WRITE, o[2]);
    let s4 = with_segment(s3, g3.0, g3.1, prot::READ | prot::WRITE, o[3]);
    assert(s4 == kernel_segments(l, o));
    lemma_fixed_map_has(Seq::empty(), g0.0 as int, round_up(g0.1 as int), r0);
    lemma_fixed_map_has(s1, g1.0 as int, round_up(g1.1 as int), r1);
    lemma_fixed_map_has(s2, g2.0 as int, round_up(g2.1 as int), r2);
    lemma_fixed_map_has(s3, g3.0 as int, round_up(g3.1 as int), r3);
    if i == 0 {
        assert(kernel_segment(l, 0) == g0 && kernel_segment(l, 1) == g1);
        lemma_fixed_map_keeps(s1, g1.0 as int, round_up(g1.1 as int), r1, r0);
        assert(kernel_segment(l, 2) == g2);
        lemma_fixed_map_keeps(s2, g2.0 as int, round_up(g2.1 as int), r2, r0);
        assert(kernel_segment(l, 3) == g3);
        lemma_fixed_map_keeps(s3, g3.0 as int, round_up(g3.1 as int), r3, r0);
        assert(s4.contains(r0));
    } else if i == 1 {
        assert(kernel_segment(l, 1) == g1 && kernel_segment(l, 2) == g2);
        lemma_fixed_map_keeps(s2, g2.0 as int, round_up(g2.1 as int), r2, r1);
        assert(kernel_segment(l, 3) == g3);
        lemma_fixed_map_keeps(s3, g3.0 as int, round_up(g3.1 as int), r3, r1);
        assert(s4.contains(r1));
    } else if i == 2 {
        assert(kernel_segment(l, 2) == g2 && kernel_segment(l, 3) == g3);
        lemma_fixed_map_keeps(s3, g3.0 as int, round_up(g3.1 as int), r3, r2);
        assert(s4.contains(r2));
    } else {
        assert(s4.contains(r3));
    }
}

/// A change to the tables that keeps every page apart from the kernel's `j`-th fixed mapping
/// keeps what holds of the pages of its `i`-th.
proof fn lemma_layout_kept(l: KernelLayout, levels: u32, i: int, j: int, a: PhysMap, b: PhysMap)
    requires
        levels_ok(levels),
        layout_ok(l),
        layout_apart(l, levels),
        0 <= i < 4,
        0 <= j < 4,
        i != j,
        forall|v: usize| apart_from(v, kernel_segment(l, j).0 as int / PAGE_SIZE as int,
            (kernel_segment(l, j).0 + round_up(kernel_segment(l, j).1 as int)) / PAGE_SIZE as int, levels)
            ==> #[trigger] walk_kept(a, b, v),
    ensures
        segment_mapped(a, kernel_segment(l, i).0, kernel_segment(l, i).1, kernel_segment(l, i).2)
            ==> segment_mapped(b, kernel_segment(l, i).0, kernel_segment(l, i).1, kernel_segment(l, i).2),
        segment_unmapped(a, kernel_segment(l, i).0, kernel_segment(l, i).1)
            ==> segment_unmapped(b, kernel_segment(l, i).0, kernel_segment(l, i).1),
{
    let gi = kernel_segment(l, i);
    let gj = kernel_segment(l, j);
    lemma_kernel_segment_ok(l, i);
    lemma_kernel_segment_ok(l, j);
    let lo = gj.0 as int / PAGE_SIZE as int;
    let hi = (gj.0 + round_up(gj.1 as int)) / PAGE_SIZE as int;
    assert(canon_pages(gi.0 as int, gi.0 + round_up(gi.1 as int), levels));
    assert(canon_pages(gj.0 as int, gj.0 + round_up(gj.1 as int), levels));
    if i < j {
        assert(gi.0 + round_up(gi.1 as int) <= gj.0 || gj.0 + round_up(gj.1 as int) <= gi.0);
    } else {
        assert(gj.0 + round_up(gj.1 as int) <= gi.0 || gi.0 + round_up(gi.1 as int) <= gj.0);
    }
    assert forall|v: usize| gi.0 / PAGE_SIZE <= v < (gi.0 + round_up(gi.1 as int)) / (PAGE_SIZE as int)
        implies apart_from(v, lo, hi, levels) by {
        lemma_spans_apart(v, gi.0 as int, gi.0 + round_up(gi.1 as int), gj.0 as int, gj.0 + round_up(gj.1 as int), levels);
    }
    lemma_segment_kept(a, b, gi.0, gi.1, gi.2, lo, hi, levels);
}

/// Mapping the page of zeroes at `z`, placed apart from the kernel's fixed mappings in the top
/// half of the address space, keeps what holds of the pages of the `i`-th of them.
proof fn lemma_zero_kept(l: KernelLayout, levels: u32, o: Seq<RawMemory>, i: int, z: usize, a: PhysMap, b: PhysMap)
    requires
        levels_ok(levels),
        layout_ok(l),
        layout_apart(l, levels),
        0 <= i < 4,
        regions_ok(with_region(kernel_segments(l, o), zeroes_region(z, o[4]))),
        z >= usize::MAX - half_size(levels) + 1,
        z % PAGE_SIZE == 0,
        z + PAGE_SIZE <= usize::MAX,
        forall|v: usize| apart_from(v, z as int / PAGE_SIZE as int, (z + PAGE_SIZE) / PAGE_SIZE as int, levels)
            ==> #[trigger] walk_kept(a, b, v),
    ensures
        segment_mapped(a, kernel_segment(l, i).0, kernel_segment(l, i).1, kernel_segment(l, i).2)
            ==> segment_mapped(b, kernel_segment(l, i).0, kernel_segment(l, i).1, kernel_segment(l, i).2),
{
    let g = kernel_segment(l, i);
    lemma_kernel_segment_ok(l, i);
    lemma_kernel_segments_hold(l, levels, o, i);
    let e = choose|e: RegionView| #[trigger] kernel_segments(l, o).contains(e) && e.start == g.0
        && e.end == g.0 + round_up(g.1 as int);
    lemma_with_region_apart(kernel_segments(l, o), zeroes_region(z, o[4]), e);
    assert forall|w: usize| z as int / PAGE_SIZE as int <= w < (z + PAGE_SIZE) / PAGE_SIZE as int
        implies #[trigger] physmap::canon_page(w, levels) by {
        assert(w == z / PAGE_SIZE) by (nonlinear_arith)
            requires
                z / 4096 <= w < (z + 4096) / 4096,
                z % 4096 == 0,
        ;
        physmap::lemma_top_half_canon(z, levels);
    }
    assert(canon_pages(g.0 as int, g.0 + round_up(g.1 as int), levels));
    assert forall|v: usize| g.0 / PAGE_SIZE <= v < (g.0 + round_up(g.1 as int)) / (PAGE_SIZE as int)
        implies #[trigger] apart_from(v, z as int / PAGE_SIZE as int, (z + PAGE_SIZE) / PAGE_SIZE as int, levels) by {
        lemma_spans_apart(v, g.0 as int, g.0 + round_up(g.1 as int), z as int, z + PAGE_SIZE, levels);
    }
    lemma_segment_kept(a, b, g.0, g.1, g.2, z as int / PAGE_SIZE as int, (z + PAGE_SIZE) / PAGE_SIZE as int, levels);
}

/// What mapping the kernel's `i`-th fixed mapping took the tables from `a` to `b`: it keeps
/// every page apart from it, and translates its pages where they are canonical and were
/// untranslated before.
pub open spec fn segment_step(l: KernelLayout, levels: u32, i: int, a: PhysMap, b: PhysMap) -> bool {
    let g = kernel_segment(l, i);
    &&& canon_pages(g.0 as int, g.0 + round_up(g.1 as int), levels) && segment_unmapped(a, g.0, g.1)
        ==> segment_mapped(b, g.0, g.1, g.2)
    &&& forall|v: usize| apart_from(v, g.0 as int / PAGE_SIZE as int, (g.0 + round_up(g.1 as int)) / PAGE_SIZE as int, levels)
        ==> #[trigger] walk_kept(a, b, v)
}

/// Mapping the kernel's fixed mappings in turn on empty tables, then the page of zeroes apart
/// from them, leaves each of them translated, where they lie on canonical pages apart from
/// one another.
proof fn lemma_init_mapped(
    l: KernelLayout,
    levels: u32,
    o: Seq<RawMemory>,
    z: usize,
    pm0: PhysMap,
    pm1: PhysMap,
    pm2: PhysMap,
    pm3: PhysMap,
    pm4: PhysMap,
    pm5: PhysMap,
)
    requires
        levels_ok(levels),
        layout_ok(l),
        layout_apart(l, levels),
        forall|v: usize| !(#[trigger] pm0.walk_spec(v, 0)).valid,
        segment_step(l, levels, 0, pm0, pm1),
        segment_step(l, levels, 1, pm1, pm2),
        segment_step(l, levels, 2, pm2, pm3),
        segment_step(l, levels, 3, pm3, pm4),
        regions_ok(with_region(kernel_segments(l, o), zeroes_region(z, o[4]))),
        z >= usize::MAX - half_size(levels) + 1,
        z % PAGE_SIZE == 0,
        z + PAGE_SIZE <= usize::MAX,
        forall|v: usize| apart_from(v, z as int / PAGE_SIZE as int, (z + PAGE_SIZE) / PAGE_SIZE as int, levels)
            ==> #[trigger] walk_kept(pm4, pm5, v),
    ensures
        forall|i: int| 0 <= i < 4 ==> segment_mapped(pm5, #[trigger] kernel_segment(l, i).0, kernel_segment(l, i).1,
            kernel_segment(l, i).2),
{
    let g0 = kernel_segment(l, 0);
    let g1 = kernel_segment(l, 1);
    let g2 = kernel_segment(l, 2);
    let g3 = kernel_segment(l, 3);
    assert(segment_unmapped(pm0, g0.0, g0.1));
    assert(segment_unmapped(pm0, g1.0, g1.1));
    assert(segment_unmapped(pm0, g2.0, g2.1));
    assert(segment_unmapped(pm0, g3.0, g3.1));
    assert(canon_pages(g0.0 as int, g0.0 + round_up(g0.1 as int), levels));
    assert(canon_pages(g1.0 as int, g1.0 + round_up(g1.1 as int), levels));
    assert(canon_pages(g2.0 as int, g2.0 + round_up(g2.1 as int), levels));
    assert(canon_pages(g3.0 as int, g3.0 + round_up(g3.1 as int), levels));
    // The code.
    assert(segment_mapped(pm1, g0.0, g0.1, g0.2));
    lemma_layout_kept(l, levels, 1, 0, pm0, pm1);
    lemma_layout_kept(l, levels, 2, 0, pm0, pm1);
    lemma_layout_kept(l, levels, 3, 0, pm0, pm1);
    // The read-only data.
    assert(segment_mapped(pm2, g1.0, g1.1, g1.2));
    lemma_layout_kept(l, levels, 0, 1, pm1, pm2);
    lemma_layout_kept(l, levels, 2, 1, pm1, pm2);
    lemma_layout_kept(l, levels, 3, 1, pm1, pm2);
    // The writable data.
    assert(segment_mapped(pm3, g2.0, g2.1, g2.2));
    lemma_layout_kept(l, levels, 0, 2, pm2, pm3);
    lemma_layout_kept(l, levels, 1, 2, pm2, pm3);
    lemma_layout_kept(l, levels, 3, 2, pm2, pm3);
    // The direct map.
    assert(segment_mapped(pm4, g3.0, g3.1, g3.2));
    lemma_layout_kept(l, levels, 0, 3, pm3, pm4);
    lemma_layout_kept(l, levels, 1, 3, pm3, pm4);
    lemma_layout_kept(l, levels, 2, 3, pm3, pm4);
    // The page of zeroes.
    lemma_zero_kept(l, levels, o, 0, z, pm4, pm5);
    lemma_zero_kept(l, levels, o, 1, z, pm4, pm5);
    lemma_zero_kept(l, levels, o, 2, z, pm4, pm5);
    lemma_zero_kept(l, levels, o, 3, z, pm4, pm5);
}

/// The region of the page of zeroes at `z`.
pub open spec fn zeroes_region(z: usize, object: RawMemory) -> RegionView {
    RegionView {
        start: z,
        end: (z + PAGE_SIZE) as usize,
        prot_flags: prot::READ,
        map_flags: kernel_map_flags(SHARED),
        mapping: Some(Mapping { offset: 0, object }),
    }
}

/// Initialize the virtual-memory management: build the kernel's address space from the boot
/// layout, with a page of zeroes, and return it with the virtual address of that page.
/// The caller zero-fills the page and hands the root page table to the CPU.
#[verifier::rlimit(40)]
pub fn init(pmm: &mut PhysAllocator, levels: u32, layout: KernelLayout) -> (r: EResult<(KernelVmSpace, usize)>)
    requires
        old(pmm).wf(),
        // A `MappablePage` cannot name physical page 0, so no page may come from there.
        old(pmm).range_start() > 0,
        levels_ok(levels),
    ensures
        final(pmm).wf(),
        final(pmm).range_start() == old(pmm).range_start(),
        final(pmm).range_end() == old(pmm).range_end(),
        allocated_from(*old(pmm), *final(pmm)),
        r matches Ok((k, z)) ==> {
            &&& k.inner().wf()
            &&& k.inner().tables_in_use(*final(pmm))
            &&& k.inner().page_map().spec_levels() == levels
            &&& exists|o: Seq<RawMemory>| {
                &&& o.len() == 5
                &&& describes(o[0], layout.text.start.wrapping_add(layout.kernel_paddr.wrapping_sub(layout.kernel_vaddr)), (layout.text.end - layout.text.start) as usize)
                &&& describes(o[1], layout.rodata.start.wrapping_add(layout.kernel_paddr.wrapping_sub(layout.kernel_vaddr)), (layout.rodata.end - layout.rodata.start) as usize)
                &&& describes(o[2], layout.data.start.wrapping_add(layout.kernel_paddr.wrapping_sub(layout.kernel_vaddr)), (layout.data.end - layout.data.start) as usize)
                &&& describes(o[3], (layout.hhdm_vaddr - layout.hhdm_offset) as usize, layout.hhdm_size)
                &&& o[4].spec_raw_len() == PAGE_SIZE
                &&& placement(#[trigger] kernel_segments(layout, o), PAGE_SIZE as int, 0, kernel_bounds(levels).0, kernel_bounds(levels).1) == Some(z as int)
                &&& k.inner().regions() == with_region(kernel_segments(layout, o), zeroes_region(z, o[4]))
            }
        },
        r matches Ok((k, z)) ==> (layout_apart(layout, levels) ==> forall|i: int| 0 <= i < 4 ==> segment_mapped(
            k.inner().page_map(),
            #[trigger] kernel_segment(layout, i).0,
            kernel_segment(layout, i).1,
            kernel_segment(layout, i).2,
        )),
        r is Err ==> r == Err::<(KernelVmSpace, usize), Errno>(Errno::EINVAL) || r == Err::<(KernelVmSpace, usize), Errno>(Errno::ENOMEM),
        !layout_ok(layout) ==> r == Err::<(KernelVmSpace, usize), Errno>(Errno::EINVAL) && *final(pmm) == *old(pmm),
        layout_ok(layout) ==> r != Err::<(KernelVmSpace, usize), Errno>(Errno::EINVAL),
        r == Err::<(KernelVmSpace, usize), Errno>(Errno::ENOMEM) ==> lowest_from(final(pmm).free_blocks(), 0) == 64
            || exists|o: Seq<RawMemory>| {
                &&& o.len() == 5
                &&& describes(o[0], layout.text.start.wrapping_add(layout.kernel_paddr.wrapping_sub(layout.kernel_vaddr)), (layout.text.end - layout.text.start) as usize)
                &&& describes(o[1], layout.rodata.start.wrapping_add(layout.kernel_paddr.wrapping_sub(layout.kernel_vaddr)), (layout.rodata.end - layout.rodata.start) as usize)
                &&& describes(o[2], layout.data.start.wrapping_add(layout.kernel_paddr.wrapping_sub(layout.kernel_vaddr)), (layout.data.end - layout.data.start) as usize)
                &&& describes(o[3], (layout.hhdm_vaddr - layout.hhdm_offset) as usize, layout.hhdm_size)
                &&& placement(#[trigger] kernel_segments(layout, o), PAGE_SIZE as int, 0, kernel_bounds(levels).0, kernel_bounds(levels).1) is None
            },
{
    // The boot layout is checked before anything is allocated.
    let k_v2p = layout.kernel_paddr.wrapping_sub(layout.kernel_vaddr);
    if layout.text.end < layout.text.start || layout.rodata.end < layout.rodata.start || layout.data.end
        < layout.data.start || layout.hhdm_vaddr < layout.hhdm_offset {
        return Err(Errno::EINVAL);
    }
    if !segment_fits(layout.text.start, layout.text.end - layout.text.start, layout.text.start.wrapping_add(k_v2p))
        || !segment_fits(layout.rodata.start, layout.rodata.end - layout.rodata.start, layout.rodata.start.wrapping_add(k_v2p))
        || !segment_fits(layout.data.start, layout.data.end - layout.data.start, layout.data.start.wrapping_add(k_v2p))
        || !segment_fits(layout.hhdm_vaddr, layout.hhdm_size, layout.hhdm_vaddr - layout.hhdm_offset) {
        return Err(Errno::EINVAL);
    }
    // The page of zeroes.
    let ghost p0 = *pmm;
    let zp = match pmm.page_alloc(0, PageUsage::KernelAnon) {
        Ok(p) => p,
        Err(e) => {
            return Err(e);
        },
    };
    proof {
        let s = lowest_from(p0.free_blocks(), 0);
        let bp = p0.free_blocks()[last_of(p0.free_blocks(), s as u8)].ppn as int;
        assert(pow2(0) == 1) by {
            lemma2_to64();
        }
        assert(block_set(bp, 0).contains(bp));
        lemma_free_in_range(p0, bp);
        lemma_page_div(bp, PAGE_SIZE as int);
    }
    proof {
        lemma_range_fits(p0);
        let s = lowest_from(p0.free_blocks(), 0);
        let bp = p0.free_blocks()[last_of(p0.free_blocks(), s as u8)].ppn as int;
        assert(zp <= usize::MAX - PAGE_SIZE) by (nonlinear_arith)
            requires
                zp == bp * 4096,
                bp < p0.range_end(),
                p0.range_end() <= usize::MAX / 4096,
                PAGE_SIZE == 4096,
        ;
    }
    if zp > usize::MAX - PAGE_SIZE {
        return Err(Errno::EINVAL);
    }
    let mut kmm = match KernelVmSpace::new(pmm, levels, zp) {
        Ok(k) => k,
        Err(e) => {
            return Err(e);
        },
    };
    // Kernel code, read-only data and writable data, then the higher-half direct map.
    assert((1u8 | 4u8) & 1u8 != 0 && (1u8 | 2u8) & 1u8 != 0 && 1u8 & 1u8 != 0) by (bit_vector);
    let ghost pm0 = kmm.inner().page_map();
    let o0 = map_segment(&mut kmm, layout.text.start, layout.text.end - layout.text.start,
        layout.text.start.wrapping_add(k_v2p), prot::READ | prot::EXEC, pmm)?;
    let ghost pm1 = kmm.inner().page_map();
    assert(segment_step(layout, levels, 0, pm0, pm1));
    let o1 = map_segment(&mut kmm, layout.rodata.start, layout.rodata.end - layout.rodata.start,
        layout.rodata.start.wrapping_add(k_v2p), prot::READ, pmm)?;
    let ghost pm2 = kmm.inner().page_map();
    assert(segment_step(layout, levels, 1, pm1, pm2));
    let o2 = map_segment(&mut kmm, layout.data.start, layout.data.end - layout.data.start,
        layout.data.start.wrapping_add(k_v2p), prot::READ | prot::WRITE, pmm)?;
    let ghost pm3 = kmm.inner().page_map();
    assert(segment_step(layout, levels, 2, pm2, pm3));
    let o3 = map_segment(&mut kmm, layout.hhdm_vaddr, layout.hhdm_size,
        layout.hhdm_vaddr - layout.hhdm_offset, prot::READ | prot::WRITE, pmm)?;
    let ghost pm4 = kmm.inner().page_map();
    assert(segment_step(layout, levels, 3, pm3, pm4));
    let o4 = RawMemory::new(zp, PAGE_SIZE);
    let ghost segs = kmm.inner().regions();
    assert(SHARED & FIXED == 0) by (bit_vector);
    assert(1u32 & 0x8000_0000u32 == 0u32) by (bit_vector);
    assert(((1u32 | 0x8000u32) & !2u32) | 1u32 == 0x8001u32) by (bit_vector);
    assert(0x8001u32 & 0x10u32 == 0u32) by (bit_vector);
    assert(kernel_map_flags(SHARED) == 0x8001u32);
    let ghost segs0 = kmm.inner().regions();
    let z = match kmm.map(PAGE_SIZE, 0, SHARED, prot::READ, Some(Mapping { offset: 0, object: o4 }), pmm) {
        Ok(z) => z,
        Err(e) => {
            proof {
                let o = seq![o0, o1, o2, o3, o4];
                assert(segs0 == kernel_segments(layout, o));
                assert(round_up(PAGE_SIZE as int) == PAGE_SIZE);
            }
            return Err(e);
        },
    };
    proof {
        let o = seq![o0, o1, o2, o3, o4];
        assert(segs == kernel_segments(layout, o));
        assert(round_up(PAGE_SIZE as int) == PAGE_SIZE);
        assert(o4.spec_len() == PAGE_SIZE);
        crate::mem::physmap::lemma_half_size_aligned(levels);
        assert(0 <= kernel_bounds(levels).0 <= usize::MAX);
        assert(0 <= kernel_bounds(levels).1 <= usize::MAX);
        let pl = placement(segs, PAGE_SIZE as int, 0, kernel_bounds(levels).0, kernel_bounds(levels).1);
        assert(pl is Some);
        assert(pl == Some(z as int));
        assert(kmm.inner().regions() == with_region(kernel_segments(layout, o), zeroes_region(z, o[4])));
        if layout_apart(layout, levels) {
            let b = kernel_bounds(levels);
            assert(map_target(segs0, PAGE_SIZE, 0, b.0 as usize..b.1 as usize, kernel_map_flags(SHARED)) == z);
            assert(regions_ok(kmm.inner().regions()));
            lemma_with_region_has(kernel_segments(layout, o), zeroes_region(z, o[4]));
            assert(z % PAGE_SIZE == 0);
            assert(z >= usize::MAX - half_size(levels) + 1);
            assert(z + PAGE_SIZE <= usize::MAX);
            lemma_init_mapped(layout, levels, o, z, pm0, pm1, pm2, pm3, pm4, kmm.inner().page_map());
        }
    }
    Ok((kmm, z))
}

} // verus!
