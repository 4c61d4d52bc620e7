//! Memory objects: things that can be mapped into an address space, one page at a time.
use vstd::prelude::*;
use crate::config::PAGE_SIZE;
use crate::errno::EResult;
use crate::mem::pmm::PAddrr;

verus! {

/// A page that can be memory-mapped: a page-aligned, non-zero physical address with three flags
/// packed into its low bits (bit 0: writable, bit 1: refcounted, bit 2: tracks dirtiness).
pub struct MappablePage(usize);

impl MappablePage {
    #[verifier::type_invariant]
    spec fn inv(self) -> bool {
        self.0 & !0xfffusize != 0
    }

    pub closed spec fn spec_paddr(&self) -> usize {
        self.0 & !0xfffusize
    }

    pub closed spec fn spec_writable(&self) -> bool {
        self.0 & 1 != 0
    }

    pub closed spec fn spec_refcounted(&self) -> bool {
        self.0 & 2 != 0
    }

    pub closed spec fn spec_tracks_dirty(&self) -> bool {
        self.0 & 4 != 0
    }

    /// Describe the page at `paddr` with the given flags.
    pub fn new(paddr: usize, refcounted: bool, writable: bool, tracks_dirty: bool) -> (r: Self)
        requires
            paddr != 0,
            paddr % PAGE_SIZE == 0,
        ensures
            r.spec_paddr() == paddr,
            r.spec_refcounted() == refcounted,
            r.spec_writable() == writable,
            r.spec_tracks_dirty() == tracks_dirty,
    {
        let t: usize = if tracks_dirty { 4 } else { 0 };
        let rc: usize = if refcounted { 2 } else { 0 };
        let w: usize = if writable { 1 } else { 0 };
        assert(paddr & 0xfff == 0) by (bit_vector)
            requires paddr % 4096 == 0;
        let v = paddr + t + rc + w;
        assert({
            &&& v & !0xfffusize == paddr
            &&& (v & 1 != 0) == (w == 1)
            &&& (v & 2 != 0) == (rc == 2)
            &&& (v & 4 != 0) == (t == 4)
        }) by (bit_vector)
            requires
                paddr & 0xfff == 0,
                paddr != 0,
                v == paddr + t + rc + w,
                t == 0 || t == 4,
                rc == 0 || rc == 2,
                w == 0 || w == 1,
        ;
        MappablePage(v)
    }

    /// Take away the permission to write to the page.
    pub fn clear_writable(&mut self)
        ensures
            final(self).spec_paddr() == old(self).spec_paddr(),
            !final(self).spec_writable(),
            final(self).spec_refcounted() == old(self).spec_refcounted(),
            final(self).spec_tracks_dirty() == old(self).spec_tracks_dirty(),
    {
        proof {
            use_type_invariant(&*self);
        }
        let v = self.0;
        let tmp = v & !1usize;
        assert({
            &&& tmp & !0xfffusize == v & !0xfffusize
            &&& tmp & 1 == 0
            &&& (tmp & 2 != 0) == (v & 2 != 0)
            &&& (tmp & 4 != 0) == (v & 4 != 0)
        }) by (bit_vector)
            requires tmp == v & !1usize;
        self.0 = tmp;
    }

    /// Physical address of the page; it is page-aligned and not zero.
    pub fn paddr(&self) -> (r: PAddrr)
        ensures
            r == self.spec_paddr(),
            r != 0,
            r % PAGE_SIZE == 0,
    {
        proof {
            use_type_invariant(self);
        }
        let v = self.0;
        assert((v & !0xfffusize) % 4096 == 0) by (bit_vector);
        v & !(PAGE_SIZE - 1)
    }

    /// Whether the page may be written to.
    pub fn writable(&self) -> (r: bool)
        ensures
            r == self.spec_writable(),
    {
        (self.0 & 1) != 0
    }

    /// Whether mapping the page takes a reference on it.
    pub fn refcounted(&self) -> (r: bool)
        ensures
            r == self.spec_refcounted(),
    {
        (self.0 & 2) != 0
    }

    /// Whether writes to the page must be tracked.
    pub fn tracks_dirty(&self) -> (r: bool)
        ensures
            r == self.spec_tracks_dirty(),
    {
        (self.0 & 4) != 0
    }

    /// Physical address of the page, consuming the description.
    pub fn into_paddr(self) -> (r: PAddrr)
        ensures
            r == self.spec_paddr(),
    {
        self.0 & !(PAGE_SIZE - 1)
    }
}

/// An object that can be mapped into an address space.
pub trait MemObject {
    /// Size in bytes of the object.
    spec fn spec_len(&self) -> nat;

    /// Get the size in bytes of the object; it is page-aligned.
    fn len(&self) -> (r: u64)
        ensures
            r == self.spec_len(),
    ;

    /// Try to get an existing page from the object.
    /// May spuriously return `None` even if the page is available.
    fn get(&self, offset: u64) -> Option<MappablePage>
        requires
            offset % (PAGE_SIZE as u64) == 0,
            offset < self.spec_len(),
    ;

    /// Allocate a new page from the object.
    fn alloc_page(&self, offset: u64) -> EResult<MappablePage>
        requires
            offset % (PAGE_SIZE as u64) == 0,
            offset < self.spec_len(),
    ;

    /// Mark a page as being dirty.
    fn mark_dirty(&self, offset: u64);

    /// Whether this object tracks dirtiness.
    fn tracks_dirty(&self) -> bool;
}

/// A fixed range of physical memory, mapped as is.
#[derive(Clone, Copy, Debug)]
pub struct RawMemory {
    paddr: PAddrr,
    len: usize,
}

impl RawMemory {
    #[verifier::type_invariant]
    spec fn inv(self) -> bool {
        &&& self.paddr != 0
        &&& self.paddr % PAGE_SIZE == 0
        &&& self.paddr + self.len <= usize::MAX
    }

    pub closed spec fn spec_paddr(&self) -> PAddrr {
        self.paddr
    }

    pub closed spec fn spec_raw_len(&self) -> usize {
        self.len
    }

    /// Describe the `len` bytes of physical memory at `paddr`.
    pub fn new(paddr: PAddrr, len: usize) -> (r: Self)
        requires
            paddr != 0,
            paddr % PAGE_SIZE == 0,
            paddr + len <= usize::MAX,
        ensures
            r.spec_paddr() == paddr,
            r.spec_raw_len() == len,
    {
        RawMemory { paddr, len }
    }
}

impl MemObject for RawMemory {
    open spec fn spec_len(&self) -> nat {
        self.spec_raw_len() as nat
    }

    fn len(&self) -> (r: u64) {
        self.len as u64
    }

    fn get(&self, offset: u64) -> (r: Option<MappablePage>)
        ensures
            r is Some,
            r->Some_0.spec_paddr() == self.spec_paddr() + offset,
            r->Some_0.spec_writable(),
            !r->Some_0.spec_refcounted(),
            !r->Some_0.spec_tracks_dirty(),
    {
        proof {
            use_type_invariant(self);
        }
        let addr = self.paddr + offset as usize;
        assert(addr % PAGE_SIZE == 0) by (nonlinear_arith)
            requires
                addr == self.paddr + offset,
                self.paddr % 4096 == 0,
                offset % 4096 == 0,
                PAGE_SIZE == 4096,
        ;
        Some(MappablePage::new(addr, false, true, false))
    }

    fn alloc_page(&self, offset: u64) -> (r: EResult<MappablePage>)
        ensures
            r is Ok,
            r->Ok_0.spec_paddr() == self.spec_paddr() + offset,
            r->Ok_0.spec_writable(),
            !r->Ok_0.spec_refcounted(),
            !r->Ok_0.spec_tracks_dirty(),
    {
        proof {
            use_type_invariant(self);
        }
        let addr = self.paddr + offset as usize;
        assert(addr % PAGE_SIZE == 0) by (nonlinear_arith)
            requires
                addr == self.paddr + offset,
                self.paddr % 4096 == 0,
                offset % 4096 == 0,
                PAGE_SIZE == 4096,
        ;
        Ok(MappablePage::new(addr, false, true, false))
    }

    fn mark_dirty(&self, _offset: u64) {
    }

    fn tracks_dirty(&self) -> (r: bool)
        ensures
            !r,
    {
        false
    }
}

} // verus!
