//! A cache of the contents of a block device or file, kept in entries of whole pages and whole
//! blocks: the page size and the block size may differ either way.
use vstd::prelude::*;
use vstd::arithmetic::power2::*;
use vstd::bits::*;
use vstd::arithmetic::div_mod::{lemma_fundamental_div_mod, lemma_fundamental_div_mod_converse, lemma_mod_pos_bound, lemma_div_pos_is_pos};
use crate::config::PAGE_SIZE;
use crate::errno::{Errno, EResult};
use crate::mem::memobject::MappablePage;
use crate::mem::pmm::{PhysAllocator, PageUsage, block_set, lowest_from, last_of, lemma_alloc_aligned, lemma_free_in_range, lemma_free_usage, lemma_alloc_free_roundtrip, lemma_range_fits, MAX_ORDER};
use crate::mem::arith::{lemma_pow2_mono, lemma_pow2_pos_int};

verus! {

/// Entry flag: the entry holds changes not yet written to the backing store.
pub const DIRTY: u32 = 1;
/// Entry flag: the entry is being written to the backing store.
pub const WRITING: u32 = 2;
/// Entry flag: the entry is being read from the backing store.
pub const READING: u32 = 4;

/// Reads and writes the blocks behind a [`PageCache`]; its block size need not be the page size.
pub trait Pager {
    /// The byte at byte offset `a` of the backing store; each kind of pager says what it is.
    closed spec fn stored(&self, a: int) -> u8 {
        arbitrary()
    }

    /// Log2 of the size of the store's blocks in bytes; each kind of pager says what it is.
    closed spec fn block_size_exp(&self) -> u8 {
        arbitrary()
    }

    /// Read `block_count` blocks from block `start_block` on into `buf`, which holds the
    /// entry at physical address `paddr`: after a read that succeeds, `buf` begins with the
    /// store's bytes from that block on.
    fn read_blocks(&self, start_block: u64, block_count: usize, paddr: usize, buf: &mut [u8]) -> (r: EResult<()>)
        ensures
            final(buf)@.len() == old(buf)@.len(),
            r is Ok ==> forall|i: int| 0 <= i < old(buf)@.len() && i < block_count * pow2(self.block_size_exp() as nat)
                ==> #[trigger] final(buf)@[i] == self.stored(start_block * pow2(self.block_size_exp() as nat) + i),
    ;

    /// Write `block_count` blocks from block `start_block` on from `buf`, which holds the entry
    /// at physical address `paddr`: after a write that succeeds, the store holds the bytes of
    /// `buf` there and its other bytes as before. What a failed write leaves is not known.
    fn write_blocks(&mut self, start_block: u64, block_count: usize, paddr: usize, buf: &[u8]) -> (r: EResult<()>)
        ensures
            final(self).block_size_exp() == old(self).block_size_exp(),
            r is Ok ==> forall|a: int| #[trigger] final(self).stored(a) == if written(
                start_block,
                block_count,
                old(self).block_size_exp(),
                buf@.len(),
                a,
            ) {
                buf@[a - start_block * pow2(old(self).block_size_exp() as nat)]
            } else {
                old(self).stored(a)
            },
    ;
}

/// `after` is the store `before` with entry `e` of `eb` bytes written back: the entry's first
/// `valid` bytes are stored at its place, and the store's bytes outside the entry's place are
/// as they were.
pub open spec fn stored_entry<P: Pager>(before: P, after: P, e: CacheEntry, eb: nat, valid: int) -> bool {
    &&& forall|a: int| e.index * eb <= a < e.index * eb + valid ==> #[trigger] after.stored(a) == e.data@[a - e.index * eb]
    &&& forall|a: int| !(e.index * eb <= a < e.index * eb + eb) ==> #[trigger] after.stored(a) == before.stored(a)
}

/// Every entry of `s` numbered in `list` that was waiting for a write has its bytes of the
/// object, as cache `c` places them, in the store of `pager`.
pub open spec fn stores_listed<P: Pager>(c: PageCache, s: Seq<CacheEntry>, list: Seq<u64>, pager: P) -> bool {
    forall|j: int, a: int|
        #![trigger s[j], pager.stored(a)]
        0 <= j < s.len() && list.contains(s[j].index) && needs_write(s[j]) && s[j].index * c.entry_bytes() <= a
            < s[j].index * c.entry_bytes() + c.valid_bytes(s[j].index)
        ==> pager.stored(a) == s[j].data@[a - s[j].index * c.entry_bytes()]
}

/// No entry of `s` numbered in `list` is waiting for a write.
pub open spec fn none_waiting(s: Seq<CacheEntry>, list: Seq<u64>) -> bool {
    forall|j: int| 0 <= j < s.len() && list.contains(s[j].index) ==> !needs_write(#[trigger] s[j])
}

/// Syncing the entry numbered `k` at position `p` keeps the bytes of the entries synced before
/// in the store, and adds its own.
proof fn lemma_sync_step_store<P: Pager>(
    c: PageCache,
    s0: Seq<CacheEntry>,
    cur: Seq<CacheEntry>,
    part: Seq<u64>,
    k: u64,
    p: int,
    pold: P,
    before: P,
    after: P,
)
    requires
        c.geometry_ok(),
        synced(s0, cur, part, true),
        sorted(cur),
        0 <= p < cur.len(),
        cur[p].index == k,
        stores_listed(c, s0, part, before),
        none_waiting(s0, part) ==> before == pold,
        !needs_write(cur[p]) ==> after == before,
        needs_write(cur[p]) ==> stored_entry(before, after, cur[p], c.entry_bytes(), c.valid_bytes(k)),
    ensures
        stores_listed(c, s0, part.push(k), after),
        none_waiting(s0, part.push(k)) ==> after == pold,
{
    let eb = c.entry_bytes();
    let np = part.push(k);
    assert(cur[p]@ == EntryView { flags: cur[p].flags, ..s0[p]@ });
    assert(np[part.len() as int] == k);
    assert forall|x: u64| #[trigger] np.contains(x) implies part.contains(x) || x == k by {
        let q = choose|q: int| 0 <= q < np.len() && np[q] == x;
        if q < part.len() {
            assert(part[q] == x);
        }
    }
    assert forall|x: u64| part.contains(x) implies #[trigger] np.contains(x) by {
        let q = choose|q: int| 0 <= q < part.len() && part[q] == x;
        assert(np[q] == x);
    }
    assert(np.contains(k));
    assert forall|j: int, a: int|
        #![trigger s0[j], after.stored(a)]
        0 <= j < s0.len() && np.contains(s0[j].index) && needs_write(s0[j]) && s0[j].index * eb <= a
            < s0[j].index * eb + c.valid_bytes(s0[j].index)
        implies after.stored(a) == s0[j].data@[a - s0[j].index * eb] by {
        let idx = s0[j].index;
        assert(cur[j]@ == EntryView { flags: cur[j].flags, ..s0[j]@ });
        assert(c.valid_bytes(idx) <= eb);
        if idx == k {
            if j != p {
                if j < p {
                    assert(cur[j].index < cur[p].index);
                } else {
                    assert(cur[p].index < cur[j].index);
                }
            }
            if !needs_write(cur[p]) {
                assert(part.contains(idx));
                assert(before.stored(a) == s0[j].data@[a - idx * eb]);
            }
        } else {
            assert(part.contains(idx));
            assert(before.stored(a) == s0[j].data@[a - idx * eb]);
            if needs_write(cur[p]) {
                if idx < k {
                    lemma_places_apart(idx, k, eb);
                } else {
                    lemma_places_apart(k, idx, eb);
                }
                assert(!(k * eb <= a < k * eb + eb));
            }
        }
    }
    if none_waiting(s0, np) {
        assert forall|j: int| 0 <= j < s0.len() && part.contains(s0[j].index) implies !needs_write(#[trigger] s0[j]) by {
            assert(np.contains(s0[j].index));
        }
        assert(!needs_write(s0[p]));
        assert(cur[p].flags == s0[p].flags);
    }
}

/// A number that no entry has adds nothing to what syncing has to do.
proof fn lemma_sync_step_absent<P: Pager>(c: PageCache, s0: Seq<CacheEntry>, part: Seq<u64>, k: u64, pold: P, pager: P)
    requires
        forall|j: int| 0 <= j < s0.len() ==> (#[trigger] s0[j]).index != k,
        stores_listed(c, s0, part, pager),
        none_waiting(s0, part) ==> pager == pold,
    ensures
        stores_listed(c, s0, part.push(k), pager),
        none_waiting(s0, part.push(k)) ==> pager == pold,
{
    let np = part.push(k);
    assert(np[part.len() as int] == k);
    assert forall|x: u64| #[trigger] np.contains(x) && x != k implies part.contains(x) by {
        let q = choose|q: int| 0 <= q < np.len() && np[q] == x;
        if q < part.len() {
            assert(part[q] == x);
        }
    }
    assert forall|x: u64| part.contains(x) implies #[trigger] np.contains(x) by {
        let q = choose|q: int| 0 <= q < part.len() && part[q] == x;
        assert(np[q] == x);
    }
    assert forall|j: int, a: int|
        #![trigger s0[j], pager.stored(a)]
        0 <= j < s0.len() && np.contains(s0[j].index) && needs_write(s0[j]) && s0[j].index * c.entry_bytes() <= a
            < s0[j].index * c.entry_bytes() + c.valid_bytes(s0[j].index)
        implies pager.stored(a) == s0[j].data@[a - s0[j].index * c.entry_bytes()] by {
        assert(part.contains(s0[j].index));
    }
    if none_waiting(s0, np) {
        assert forall|j: int| 0 <= j < s0.len() && part.contains(s0[j].index) implies !needs_write(#[trigger] s0[j]) by {
            assert(np.contains(s0[j].index));
        }
    }
}

/// Entries numbered differently have places in the store that do not overlap.
proof fn lemma_places_apart(i1: u64, i2: u64, eb: nat)
    requires
        i1 < i2,
    ensures
        i1 * eb + eb <= i2 * eb,
{
    assert(i1 * eb + eb <= i2 * eb) by (nonlinear_arith)
        requires
            i1 < i2,
    ;
}

/// Byte `a` of the store is among those that writing `block_count` blocks of 2^`bexp` bytes
/// from block `start_block` on, out of a buffer of `len` bytes, writes.
pub open spec fn written(start_block: u64, block_count: usize, bexp: u8, len: nat, a: int) -> bool {
    let base = start_block * pow2(bexp as nat);
    base <= a < base + len && a - base < block_count * pow2(bexp as nat)
}

/// One entry of a [`PageCache`]: a run of whole pages that holds whole blocks.
pub struct CacheEntry {
    /// The entry's number: it holds the bytes from `index` entries into the object on.
    pub index: u64,
    /// Physical address of the entry's pages.
    pub paddr: usize,
    /// [`DIRTY`], [`WRITING`] and [`READING`].
    pub flags: u32,
    /// References to the entry's pages handed out and not given back yet.
    pub refs: u32,
    /// The entry's bytes.
    pub data: Vec<u8>,
}

/// What an entry holds, as plain values.
pub struct EntryView {
    pub index: u64,
    pub paddr: usize,
    pub flags: u32,
    pub refs: u32,
    pub data: Seq<u8>,
}

impl View for CacheEntry {
    type V = EntryView;

    open spec fn view(&self) -> EntryView {
        EntryView { index: self.index, paddr: self.paddr, flags: self.flags, refs: self.refs, data: self.data@ }
    }
}

/// The views of the entries `s`.
pub open spec fn views(s: Seq<CacheEntry>) -> Seq<EntryView> {
    s.map_values(|e: CacheEntry| e@)
}

/// A reference count one higher, wrapping around as an atomic counter does.
pub open spec fn refs_up(n: u32) -> u32 {
    if n == u32::MAX { 0 } else { (n + 1) as u32 }
}

/// A reference count one lower, wrapping around as an atomic counter does.
pub open spec fn refs_down(n: u32) -> u32 {
    if n == 0 { u32::MAX } else { (n - 1) as u32 }
}

/// The entries are in increasing order of their numbers.
pub open spec fn sorted(s: Seq<CacheEntry>) -> bool {
    forall|i: int, j: int| 0 <= i < j < s.len() ==> (#[trigger] s[i]).index < (#[trigger] s[j]).index
}

/// Position of the first entry of `s` from `from` on whose number is at least `k`, or the
/// length of `s`.
pub open spec fn lower_bound(s: Seq<CacheEntry>, k: u64, from: int) -> int
    decreases s.len() - from,
{
    if from < 0 || from >= s.len() {
        s.len() as int
    } else if s[from].index >= k {
        from
    } else {
        lower_bound(s, k, from + 1)
    }
}

/// Position of the entry numbered `k` in `s`, or the length of `s` if there is none.
pub open spec fn find(s: Seq<CacheEntry>, k: u64) -> int {
    let p = lower_bound(s, k, 0);
    if p < s.len() && s[p].index == k {
        p
    } else {
        s.len() as int
    }
}

proof fn lemma_lower_bound(s: Seq<CacheEntry>, k: u64, from: int)
    requires
        0 <= from <= s.len(),
    ensures
        from <= lower_bound(s, k, from) <= s.len(),
        forall|i: int| from <= i < lower_bound(s, k, from) ==> (#[trigger] s[i]).index < k,
        lower_bound(s, k, from) < s.len() ==> s[lower_bound(s, k, from)].index >= k,
    decreases s.len() - from,
{
    if from < s.len() && s[from].index < k {
        lemma_lower_bound(s, k, from + 1);
    }
}

/// In sorted entries, [`find`] finds the only entry numbered `k`, if there is one.
pub proof fn lemma_find(s: Seq<CacheEntry>, k: u64)
    requires
        sorted(s),
    ensures
        0 <= find(s, k) <= s.len(),
        find(s, k) < s.len() ==> s[find(s, k)].index == k,
        forall|i: int| 0 <= i < s.len() && i != find(s, k) ==> (#[trigger] s[i]).index != k,
        forall|i: int| 0 <= i < lower_bound(s, k, 0) ==> (#[trigger] s[i]).index < k,
        forall|i: int| lower_bound(s, k, 0) <= i < s.len() ==> (#[trigger] s[i]).index >= k,
        0 <= lower_bound(s, k, 0) <= s.len(),
{
    lemma_lower_bound(s, k, 0);
    let p = lower_bound(s, k, 0);
    assert forall|i: int| p <= i < s.len() implies (#[trigger] s[i]).index >= k by {
        if i > p {
            assert(s[p].index < s[i].index);
        }
    }
    assert forall|i: int| 0 <= i < s.len() && i != find(s, k) implies (#[trigger] s[i]).index != k by {
        if i > p && p < s.len() {
            assert(s[p].index < s[i].index);
        }
    }
}

/// A generic page cache that translates between the page size and the block size.
pub struct PageCache {
    /// Log-base-2 of the number of bytes in a block.
    pub block_size_exp: u8,
    /// Log-base-2 of the number of pages in an entry.
    pub entry_pages_exp: u8,
    /// Log-base-2 of the number of blocks in an entry.
    pub entry_blocks_exp: u8,
    /// The cached entries, in increasing order of their numbers.
    pub entries: Vec<CacheEntry>,
    /// Size in bytes of the object.
    pub len: u64,
}

/// 2^e as a `u64`.
fn pow2_u64(e: u8) -> (r: u64)
    requires
        e < 64,
    ensures
        r == pow2(e as nat),
{
    proof {
        lemma_u64_pow2_no_overflow(e as nat);
        lemma_u64_shl_is_mul(1, e as u64);
    }
    1u64 << e
}

/// 2^e as a `usize`.
fn pow2_usize(e: u8) -> (r: usize)
    requires
        e < 32,
    ensures
        r == pow2(e as nat),
{
    proof {
        lemma_pow2_mono(e as nat, 31);
        lemma2_to64();
        lemma_usize_shl_is_mul(1, e as usize);
    }
    1usize << e
}

impl PageCache {
    /// Log-base-2 of the number of bytes in an entry.
    pub open spec fn entry_size_exp(&self) -> nat {
        (self.entry_pages_exp + 12) as nat
    }

    /// Bytes in an entry.
    pub open spec fn entry_bytes(&self) -> nat {
        pow2(self.entry_size_exp())
    }

    /// Bytes in a block.
    pub open spec fn block_bytes(&self) -> nat {
        pow2(self.block_size_exp as nat)
    }

    /// Blocks in an entry.
    pub open spec fn blocks_per_entry(&self) -> nat {
        pow2(self.entry_blocks_exp as nat)
    }

    /// Blocks that hold the object's bytes, the last one perhaps in part.
    pub open spec fn block_len(&self) -> int {
        (self.len + self.block_bytes() - 1) / self.block_bytes() as int
    }

    /// An entry is a whole number of pages and of blocks, whichever is larger.
    pub open spec fn geometry_ok(&self) -> bool {
        &&& self.block_size_exp < 32
        &&& self.entry_pages_exp + 12 == if self.block_size_exp > 12 { self.block_size_exp as int } else { 12 }
        &&& self.entry_blocks_exp + self.block_size_exp == self.entry_pages_exp + 12
    }

    /// The entries are sorted by number, each holds one entry's bytes, and its pages lie at a
    /// page-aligned, non-zero physical address.
    pub open spec fn wf(&self) -> bool {
        &&& self.geometry_ok()
        &&& sorted(self.entries@)
        &&& forall|i: int| 0 <= i < self.entries@.len() ==> {
            &&& (#[trigger] self.entries@[i]).data@.len() == self.entry_bytes()
            &&& self.entries@[i].paddr != 0
            &&& self.entries@[i].paddr % PAGE_SIZE == 0
            &&& self.entries@[i].paddr + self.entry_bytes() <= usize::MAX
        }
    }

    /// The entries' pages are blocks of `pmm` of the entries' size, in use by the cache, and no
    /// two entries share a page.
    pub open spec fn owned(&self, pmm: PhysAllocator) -> bool {
        &&& forall|i: int| 0 <= i < self.entries@.len() ==> entry_owned(#[trigger] self.entries@[i], self.entry_pages_exp, pmm)
        &&& forall|i: int, j: int| 0 <= i < self.entries@.len() && 0 <= j < self.entries@.len() && i != j
            ==> #[trigger] self.entries@[i].paddr + self.entry_bytes() <= #[trigger] self.entries@[j].paddr
            || self.entries@[j].paddr + self.entry_bytes() <= self.entries@[i].paddr
    }

    /// A cache for an object of `len` bytes stored in blocks of 2^`block_size_exp` bytes.
    pub fn new(block_size_exp: u8, len: u64) -> (r: Self)
        requires
            block_size_exp < 32,
        ensures
            r.wf(),
            r.block_size_exp == block_size_exp,
            r.len == len,
            r.entries@.len() == 0,
    {
        let entry_size_exp: u8 = if block_size_exp > 12 { block_size_exp } else { 12 };
        let entry_pages_exp = entry_size_exp - 12;
        let entry_blocks_exp = entry_size_exp - block_size_exp;
        PageCache { block_size_exp, entry_pages_exp, entry_blocks_exp, entries: Vec::new(), len }
    }

    /// Change the object's length. Entries past the new end stay cached.
    pub fn set_len(&mut self, new_len: u64)
        ensures
            final(self).len == new_len,
            final(self).entries@ == old(self).entries@,
            final(self).block_size_exp == old(self).block_size_exp,
            final(self).entry_pages_exp == old(self).entry_pages_exp,
            final(self).entry_blocks_exp == old(self).entry_blocks_exp,
    {
        self.len = new_len;
    }

    /// The number of the entry that holds page-aligned byte offset `offset`, and the page of
    /// the entry that holds it.
    pub fn index(&self, offset: u64) -> (r: (u64, usize))
        requires
            self.geometry_ok(),
            offset % PAGE_SIZE as u64 == 0,
        ensures
            r.0 == offset as nat / self.entry_bytes(),
            r.1 == (offset as nat / PAGE_SIZE as nat) % pow2(self.entry_pages_exp as nat),
            r.1 < pow2(self.entry_pages_exp as nat),
    {
        let entry_bytes = pow2_u64(self.entry_pages_exp + 12);
        let pages = pow2_u64(self.entry_pages_exp);
        proof {
            lemma_pow2_pos_int(self.entry_pages_exp as nat);
            lemma_pow2_pos_int(self.entry_size_exp());
            lemma_pow2_mono(self.entry_pages_exp as nat, 31);
            lemma2_to64();
        }
        let page = (offset / PAGE_SIZE as u64) % pages;
        (offset / entry_bytes, page as usize)
    }

    /// The blocks that entry `index` holds and the object has: from `index` times the blocks
    /// per entry on, up to the end of the entry or of the object's blocks, whichever is first.
    pub fn block_range(&self, index: u64) -> (r: (u64, u64))
        requires
            self.geometry_ok(),
            index * pow2(self.entry_blocks_exp as nat) + pow2(self.entry_blocks_exp as nat) <= u64::MAX,
        ensures
            r.0 == index * self.blocks_per_entry(),
            r.1 == if r.0 + self.blocks_per_entry() < self.block_len() {
                r.0 + self.blocks_per_entry()
            } else {
                self.block_len()
            },
    {
        let bs = pow2_u64(self.block_size_exp);
        let bpe = pow2_u64(self.entry_blocks_exp);
        proof {
            lemma_pow2_pos_int(self.block_size_exp as nat);
        }
        proof {
            assert(self.len % bs != 0 ==> self.len / bs < u64::MAX) by (nonlinear_arith)
                requires
                    bs > 0,
            ;
        }
        let block_len = self.len / bs + if self.len % bs != 0 { 1 } else { 0 };
        proof {
            assert(block_len == self.block_len()) by (nonlinear_arith)
                requires
                    block_len == self.len / bs + if self.len % bs != 0 { 1int } else { 0 },
                    bs > 0,
                    bs == self.block_bytes(),
            ;
        }
        let start = index * bpe;
        let end = if start + bpe < block_len { start + bpe } else { block_len };
        (start, end)
    }

    /// The page at page-aligned byte offset `addr`, if its entry is cached; the entry gains a
    /// reference.
    pub fn get(&mut self, addr: u64) -> (r: EResult<Option<MappablePage>>)
        requires
            old(self).wf(),
            addr % PAGE_SIZE as u64 == 0,
        ensures
            final(self).wf(),
            same_shape(*old(self), *final(self)),
            ({
                let s = old(self).entries@;
                let k = (addr as nat / old(self).entry_bytes()) as u64;
                let p = find(s, k);
                let pg = (addr as nat / PAGE_SIZE as nat) % pow2(old(self).entry_pages_exp as nat);
                &&& p == s.len() ==> r == Ok::<Option<MappablePage>, Errno>(None) && views(final(self).entries@) == views(s)
                &&& p < s.len() ==> {
                    &&& r matches Ok(Some(mp)) && mp.spec_paddr() == s[p].paddr + pg * PAGE_SIZE
                        && mp.spec_refcounted() && mp.spec_writable() && mp.spec_tracks_dirty()
                    &&& views(final(self).entries@) == views(s).update(p, EntryView { refs: refs_up(s[p].refs), ..s[p]@ })
                }
            }),
    {
        let (k, page) = self.index(addr);
        match self.find_entry(k) {
            None => Ok(None),
            Some(p) => {
                let paddr = self.bump_refs(p);
                proof {
                    lemma_pow2_mono(self.entry_pages_exp as nat, 19);
                    lemma2_to64();
                    assert(page * PAGE_SIZE + PAGE_SIZE <= self.entry_bytes()) by (nonlinear_arith)
                        requires
                            page < pow2(self.entry_pages_exp as nat),
                            self.entry_bytes() == pow2(self.entry_pages_exp as nat) * 4096,
                    {}
                }
                Ok(Some(MappablePage::new(paddr + page * PAGE_SIZE, true, true, true)))
            },
        }
    }

    /// Add a reference to entry `p`; returns the entry's physical address.
    fn bump_refs(&mut self, p: usize) -> (r: usize)
        requires
            old(self).wf(),
            p < old(self).entries@.len(),
        ensures
            final(self).wf(),
            same_shape(*old(self), *final(self)),
            r == old(self).entries@[p as int].paddr,
            final(self).entries@.len() == old(self).entries@.len(),
            forall|i: int| 0 <= i < old(self).entries@.len() ==> #[trigger] final(self).entries@[i].paddr
                == old(self).entries@[i].paddr,
            views(final(self).entries@) == views(old(self).entries@).update(
                p as int,
                EntryView { refs: refs_up(old(self).entries@[p as int].refs), ..old(self).entries@[p as int]@ },
            ),
    {
        let ghost s = self.entries@;
        let mut e = self.entries.remove(p);
        e.refs = if e.refs == u32::MAX { 0 } else { e.refs + 1 };
        let paddr = e.paddr;
        self.entries.insert(p, e);
        proof {
            lemma_replace_keeps(s, self.entries@, p as int);
            lemma_entry_bytes(*self);
        }
        paddr
    }

    /// Give back a reference to the page at page-aligned byte offset `addr`, as dropping a
    /// page that [`Self::get`] or [`Self::alloc_page`] handed out does.
    pub fn release(&mut self, addr: u64)
        requires
            old(self).wf(),
            addr % PAGE_SIZE as u64 == 0,
        ensures
            final(self).wf(),
            same_shape(*old(self), *final(self)),
            ({
                let s = old(self).entries@;
                let p = find(s, (addr as nat / old(self).entry_bytes()) as u64);
                &&& p == s.len() ==> views(final(self).entries@) == views(s)
                &&& p < s.len() ==> views(final(self).entries@) == views(s).update(
                    p,
                    EntryView { refs: refs_down(s[p].refs), ..s[p]@ },
                )
            }),
    {
        let (k, _) = self.index(addr);
        match self.find_entry(k) {
            None => {},
            Some(p) => {
                let ghost s = self.entries@;
                let mut e = self.entries.remove(p);
                e.refs = if e.refs == 0 { u32::MAX } else { e.refs - 1 };
                self.entries.insert(p, e);
                proof {
                    lemma_replace_keeps(s, self.entries@, p as int);
                    lemma_entry_bytes(*self);
                }
            },
        }
    }

    /// Mark the entry holding page-aligned byte offset `addr` as dirty, if it is cached.
    pub fn mark_dirty(&mut self, addr: u64)
        requires
            old(self).wf(),
            addr % PAGE_SIZE as u64 == 0,
        ensures
            final(self).wf(),
            same_shape(*old(self), *final(self)),
            ({
                let s = old(self).entries@;
                let p = find(s, (addr as nat / old(self).entry_bytes()) as u64);
                &&& p == s.len() ==> views(final(self).entries@) == views(s)
                &&& p < s.len() ==> views(final(self).entries@) == views(s).update(
                    p,
                    EntryView { flags: s[p].flags | DIRTY, ..s[p]@ },
                )
            }),
    {
        let (k, _) = self.index(addr);
        match self.find_entry(k) {
            None => {},
            Some(p) => {
                let ghost s = self.entries@;
                let mut e = self.entries.remove(p);
                e.flags = e.flags | DIRTY;
                self.entries.insert(p, e);
                proof {
                    lemma_replace_keeps(s, self.entries@, p as int);
                    lemma_entry_bytes(*self);
                }
            },
        }
    }

    /// Whether any cached entry is dirty.
    pub fn has_dirty_pages(&self) -> (r: bool)
        ensures
            r == exists|i: int| 0 <= i < self.entries@.len() && #[trigger] self.entries@[i].flags & DIRTY != 0,
    {
        let mut i: usize = 0;
        while i < self.entries.len()
            invariant
                i <= self.entries@.len(),
                forall|j: int| 0 <= j < i ==> #[trigger] self.entries@[j].flags & DIRTY == 0,
            decreases self.entries@.len() - i,
        {
            if self.entries[i].flags & DIRTY != 0 {
                return true;
            }
            i = i + 1;
        }
        false
    }

    /// How many of the bytes of entry `k` the object has: the rest of the entry is zeroes.
    pub open spec fn valid_bytes(&self, k: u64) -> int {
        let start = k * self.entry_bytes();
        if self.len <= start {
            0
        } else if self.len - start < self.entry_bytes() {
            self.len - start
        } else {
            self.entry_bytes() as int
        }
    }

    /// Bytes in an entry.
    fn entry_bytes_exec(&self) -> (r: usize)
        requires
            self.geometry_ok(),
        ensures
            r == self.entry_bytes(),
    {
        proof {
            lemma_entry_bytes(*self);
        }
        pow2_usize(self.entry_pages_exp + 12)
    }

    /// Get the page at page-aligned byte offset `addr` from the cache, reading its entry in
    /// through `pager` first if it is not cached yet; the entry gains a reference. The entry
    /// must begin within the object.
    pub fn alloc_page<P: Pager>(&mut self, pager: &P, addr: u64, pmm: &mut PhysAllocator) -> (r: EResult<MappablePage>)
        requires
            old(self).wf(),
            old(pmm).wf(),
            old(self).owned(*old(pmm)),
            // A `MappablePage` cannot name physical page 0, so no page may come from there.
            old(pmm).range_start() > 0,
            addr % PAGE_SIZE as u64 == 0,
            addr + old(self).entry_bytes() <= u64::MAX,
            (addr as nat / old(self).entry_bytes()) * old(self).entry_bytes() <= old(self).len,
            pager.block_size_exp() == old(self).block_size_exp,
        ensures
            final(self).wf(),
            same_shape(*old(self), *final(self)),
            final(pmm).wf(),
            final(self).owned(*final(pmm)),
            final(pmm).range_start() == old(pmm).range_start(),
            final(pmm).range_end() == old(pmm).range_end(),
            final(pmm).free_set().subset_of(old(pmm).free_set()),
            ({
                let s = old(self).entries@;
                let k = (addr as nat / old(self).entry_bytes()) as u64;
                let p = find(s, k);
                let pg = (addr as nat / PAGE_SIZE as nat) % pow2(old(self).entry_pages_exp as nat);
                &&& p < s.len() ==> {
                    &&& r matches Ok(mp) && mp.spec_paddr() == s[p].paddr + pg * PAGE_SIZE
                        && mp.spec_refcounted() && mp.spec_writable() && mp.spec_tracks_dirty()
                    &&& views(final(self).entries@) == views(s).update(p, EntryView { refs: refs_up(s[p].refs), ..s[p]@ })
                    &&& *final(pmm) == *old(pmm)
                }
                &&& p == s.len() && lowest_from(old(pmm).free_blocks(), old(self).entry_pages_exp as int) == 64
                    ==> r == Err::<MappablePage, Errno>(Errno::ENOMEM)
                &&& p == s.len() && r is Err ==> views(final(self).entries@) == views(s) && final(pmm).free_set()
                    == old(pmm).free_set()
                &&& p == s.len() && r is Ok ==> {
                    let lb = lower_bound(s, k, 0);
                    let e = final(self).entries@[lb];
                    &&& r->Ok_0.spec_paddr() == e.paddr + pg * PAGE_SIZE
                    &&& r->Ok_0.spec_refcounted() && r->Ok_0.spec_writable() && r->Ok_0.spec_tracks_dirty()
                    &&& views(final(self).entries@) == views(s).insert(lb, e@)
                    &&& e.index == k && e.flags == 0 && e.refs == 1
                    &&& forall|i: int| old(self).valid_bytes(k) <= i < e.data@.len() ==> #[trigger] e.data@[i] == 0
                    &&& forall|i: int| 0 <= i < old(self).valid_bytes(k)
                        ==> #[trigger] e.data@[i] == pager.stored(k * old(self).entry_bytes() + i)
                }
            }),
    {
        let (k, page) = self.index(addr);
        proof {
            lemma_entry_bytes(*self);
            lemma_pow2_mono(self.entry_pages_exp as nat, 19);
            lemma2_to64();
            assert(page * PAGE_SIZE + PAGE_SIZE <= self.entry_bytes()) by (nonlinear_arith)
                requires
                    page < pow2(self.entry_pages_exp as nat),
                    self.entry_bytes() == pow2(self.entry_pages_exp as nat) * 4096,
            {}
        }
        match self.find_entry(k) {
            Some(p) => {
                let paddr = self.bump_refs(p);
                proof {
                    lemma_owned_same_pages(*old(self), *self, *pmm);
                }
                return Ok(MappablePage::new(paddr + page * PAGE_SIZE, true, true, true));
            },
            None => {},
        }
        let ghost pm0 = *pmm;
        let paddr = match pmm.page_alloc(self.entry_pages_exp, PageUsage::Cache) {
            Ok(x) => x,
            Err(e) => {
                return Err(e);
            },
        };
        let ghost ppn = paddr as int / PAGE_SIZE as int;
        proof {
            lemma_fresh_block(pm0, *pmm, self.entry_pages_exp, paddr);
            let eb = self.entry_bytes() as int;
            assert(k * eb <= addr) by (nonlinear_arith)
                requires
                    k == addr as int / eb,
                    eb > 0,
            ;
        }
        let (start, end) = self.read_range(k);
        let count = end - start;
        let buf_len = self.blocks_bytes(count);
        let mut buf: Vec<u8> = Vec::new();
        let mut i: usize = 0;
        while i < buf_len
            invariant
                i <= buf_len,
                buf@.len() == i,
            decreases buf_len - i,
        {
            buf.push(0u8);
            i = i + 1;
        }
        let res = pager.read_blocks(start, count as usize, paddr, buf.as_mut_slice());
        match res {
            Err(e) => {
                let ghost pm1 = *pmm;
                pmm.page_free(paddr, self.entry_pages_exp);
                proof {
                    lemma_alloc_free_roundtrip(pm0, pm1, *pmm, ppn, self.entry_pages_exp as nat);
                    lemma_owned_after_free(*self, pm0, pm1, *pmm, ppn);
                }
                return Err(e);
            },
            Ok(()) => {},
        }
        let valid = self.valid_bytes_exec(k);
        let eb = self.entry_bytes_exec();
        proof {
            lemma_geometry(*self);
            lemma_read_covers_valid(*self, k, start, end);
            assert(start * self.block_bytes() == k * self.entry_bytes()) by (nonlinear_arith)
                requires
                    start == k * self.blocks_per_entry(),
                    self.entry_bytes() == self.blocks_per_entry() * self.block_bytes(),
            ;
        }
        let data = fill_entry(&buf, valid, eb);
        let entry = CacheEntry { index: k, paddr, flags: 0, refs: 1, data };
        let lb = self.lower_bound_of(k);
        let ghost s = self.entries@;
        proof {
            lemma_find(s, k);
        }
        self.entries.insert(lb, entry);
        proof {
            lemma_range_fits(pm0);
            lemma_insert_keeps(*old(self), *self, lb as int, pm0, *pmm, ppn);
        }
        Ok(MappablePage::new(paddr + page * PAGE_SIZE, true, true, true))
    }

    /// The blocks that entry `k` reads and writes; entry `k` begins within the object.
    fn read_range(&self, k: u64) -> (r: (u64, u64))
        requires
            self.geometry_ok(),
            k * self.entry_bytes() <= self.len,
            k * self.entry_bytes() + self.entry_bytes() <= u64::MAX,
        ensures
            r.0 == k * self.blocks_per_entry(),
            r.0 <= r.1 <= r.0 + self.blocks_per_entry(),
            r.1 == if r.0 + self.blocks_per_entry() < self.block_len() {
                r.0 + self.blocks_per_entry()
            } else {
                self.block_len()
            },
    {
        proof {
            lemma_geometry(*self);
            let bs = self.block_bytes() as int;
            let bpe = self.blocks_per_entry() as int;
            let eb = self.entry_bytes() as int;
            assert(k * bpe + bpe <= u64::MAX && k * bpe <= self.block_len()) by (nonlinear_arith)
                requires
                    bs >= 1,
                    bpe >= 1,
                    eb == bpe * bs,
                    k * eb <= self.len,
                    k * eb + eb <= u64::MAX,
                    self.block_len() == (self.len + bs - 1) / bs,
            ;
        }
        self.block_range(k)
    }

    /// Bytes in `count` blocks, for at most one entry's blocks.
    fn blocks_bytes(&self, count: u64) -> (r: usize)
        requires
            self.geometry_ok(),
            count <= self.blocks_per_entry(),
        ensures
            r == count * self.block_bytes(),
            r <= self.entry_bytes(),
    {
        proof {
            lemma_geometry(*self);
            lemma_entry_bytes(*self);
            assert(count * self.block_bytes() <= self.entry_bytes()) by (nonlinear_arith)
                requires
                    count <= self.blocks_per_entry(),
                    self.entry_bytes() == self.blocks_per_entry() * self.block_bytes(),
            ;
        }
        let bs = pow2_usize(self.block_size_exp);
        proof {
            lemma_geometry(*self);
            lemma_entry_bytes(*self);
            assert(count <= 0x8000_0000) by (nonlinear_arith)
                requires
                    count <= self.blocks_per_entry(),
                    self.entry_bytes() == self.blocks_per_entry() * self.block_bytes(),
                    self.block_bytes() >= 1,
                    self.entry_bytes() <= 0x8000_0000,
            ;
        }
        let c = count as usize;
        c * bs
    }

    /// The object's bytes in entry `k`, which begins within the object.
    fn valid_bytes_exec(&self, k: u64) -> (r: usize)
        requires
            self.geometry_ok(),
            k * self.entry_bytes() <= self.len,
        ensures
            r == self.valid_bytes(k),
    {
        proof {
            lemma_entry_bytes(*self);
        }
        let eb = pow2_u64(self.entry_pages_exp + 12);
        let start = k * eb;
        let rest = self.len - start;
        if rest < eb {
            rest as usize
        } else {
            eb as usize
        }
    }

    /// Write entry `p` back through `pager` if it is dirty and not being written already: the
    /// entry is clean after a write that succeeded, and dirty again after one that failed.
    fn sync_entry<P: Pager>(&mut self, pager: &mut P, p: usize) -> (r: EResult<()>)
        requires
            old(pager).block_size_exp() == old(self).block_size_exp,
            old(self).wf(),
            p < old(self).entries@.len(),
            old(self).entries@[p as int].index * old(self).entry_bytes() <= old(self).len,
            old(self).entries@[p as int].index * old(self).entry_bytes() + old(self).entry_bytes() <= u64::MAX,
        ensures
            final(self).wf(),
            same_shape(*old(self), *final(self)),
            final(self).entries@.len() == old(self).entries@.len(),
            forall|j: int| 0 <= j < old(self).entries@.len() && j != p ==> #[trigger] final(self).entries@[j]
                == old(self).entries@[j],
            ({
                let e = old(self).entries@[p as int];
                let f = final(self).entries@[p as int];
                &&& f@ == EntryView { flags: f.flags, ..e@ }
                &&& e.flags & (DIRTY | WRITING) != DIRTY ==> r is Ok && f.flags == e.flags
                &&& e.flags & (DIRTY | WRITING) == DIRTY ==> f.flags == if r is Ok { 0 } else { DIRTY }
            }),
            final(pager).block_size_exp() == old(pager).block_size_exp(),
            !needs_write(old(self).entries@[p as int]) ==> *final(pager) == *old(pager),
            needs_write(old(self).entries@[p as int]) && r is Ok ==> stored_entry(
                *old(pager),
                *final(pager),
                old(self).entries@[p as int],
                old(self).entry_bytes(),
                old(self).valid_bytes(old(self).entries@[p as int].index),
            ),
    {
        let f = self.entries[p].flags;
        if f & (DIRTY | WRITING) != DIRTY {
            return Ok(());
        }
        let k = self.entries[p].index;
        let (start, end) = self.read_range(k);
        let count = end - start;
        let n = self.blocks_bytes(count);
        proof {
            lemma_geometry(*self);
            lemma_read_covers_valid(*self, k, start, end);
            assert(start * self.block_bytes() == k * self.entry_bytes()) by (nonlinear_arith)
                requires
                    start == k * self.blocks_per_entry(),
                    self.entry_bytes() == self.blocks_per_entry() * self.block_bytes(),
            ;
        }
        let mut out: Vec<u8> = Vec::new();
        let mut i: usize = 0;
        while i < n
            invariant
                i <= n,
                n <= self.entry_bytes(),
                p < self.entries@.len(),
                self.entries@[p as int].data@.len() == self.entry_bytes(),
                out@.len() == i,
                forall|j: int| 0 <= j < i ==> #[trigger] out@[j] == self.entries@[p as int].data@[j],
            decreases n - i,
        {
            out.push(self.entries[p].data[i]);
            i = i + 1;
        }
        let paddr = self.entries[p].paddr;
        let ghost pg0 = *pager;
        let res = pager.write_blocks(start, count as usize, paddr, out.as_slice());
        proof {
            let e0 = self.entries@[p as int];
            let base = k * self.entry_bytes();
            assert(n == count * pow2(pg0.block_size_exp() as nat));
            if res is Ok {
                assert(pg0.block_size_exp() == self.block_size_exp);
                assert(start * pow2(pg0.block_size_exp() as nat) == base);
                assert(self.valid_bytes(k) <= n);
                lemma_entry_bytes(*self);
                lemma_geometry(*self);
                assert(count <= 0x8000_0000) by (nonlinear_arith)
                    requires
                        count <= end - start,
                        end - start <= self.blocks_per_entry(),
                        self.entry_bytes() == self.blocks_per_entry() * self.block_bytes(),
                        self.block_bytes() >= 1,
                        self.entry_bytes() <= 0x8000_0000,
                ;
                assert((count as usize) as int == count as int);
                assert forall|a: int| base <= a < base + self.valid_bytes(k)
                    implies #[trigger] pager.stored(a) == e0.data@[a - base] by {
                    assert(written(start, count as usize, pg0.block_size_exp(), out@.len(), a));
                    assert(out@[a - base] == e0.data@[a - base]);
                }
                assert forall|a: int| !(base <= a < base + self.entry_bytes())
                    implies #[trigger] pager.stored(a) == pg0.stored(a) by {
                    assert(!written(start, count as usize, pg0.block_size_exp(), out@.len(), a));
                }
            }
        }
        let ghost s = self.entries@;
        let mut e = self.entries.remove(p);
        e.flags = match res {
            Ok(()) => 0,
            Err(_) => DIRTY,
        };
        self.entries.insert(p, e);
        proof {
            lemma_replace_keeps(s, self.entries@, p as int);
            lemma_entry_bytes(*self);
        }
        res
    }

    /// Write back the listed entries that are dirty and not being written already, in order;
    /// stops at the first write that fails and returns its error.
    fn sync_impl<P: Pager>(&mut self, pager: &mut P, to_sync: &Vec<u64>) -> (r: EResult<()>)
        requires
            old(pager).block_size_exp() == old(self).block_size_exp,
            old(self).wf(),
            old(self).within(),
        ensures
            final(self).wf(),
            same_shape(*old(self), *final(self)),
            synced(old(self).entries@, final(self).entries@, to_sync@, r is Ok),
            final(pager).block_size_exp() == old(pager).block_size_exp(),
            none_waiting(old(self).entries@, to_sync@) ==> *final(pager) == *old(pager),
            r is Ok ==> stores_listed(*old(self), old(self).entries@, to_sync@, *final(pager)),
    {
        let mut i: usize = 0;
        while i < to_sync.len()
            invariant
                pager.block_size_exp() == self.block_size_exp,
                pager.block_size_exp() == old(pager).block_size_exp(),
                none_waiting(old(self).entries@, to_sync@.take(i as int)) ==> *pager == *old(pager),
                stores_listed(*old(self), old(self).entries@, to_sync@.take(i as int), *pager),
                self.wf(),
                same_shape(*old(self), *self),
                i <= to_sync@.len(),
                synced(old(self).entries@, self.entries@, to_sync@.take(i as int), true),
                self.within(),
            decreases to_sync@.len() - i,
        {
            let k = to_sync[i];
            let ghost s = self.entries@;
            let ghost pg_before = *pager;
            match self.find_entry(k) {
                None => {
                    proof {
                        lemma_find(s, k);
                        assert forall|j: int| 0 <= j < old(self).entries@.len() implies (#[trigger] old(self).entries@[j]).index
                            != k by {
                            assert(s[j]@ == EntryView { flags: s[j].flags, ..old(self).entries@[j]@ });
                        }
                        assert(to_sync@.take(i + 1) =~= to_sync@.take(i as int).push(k));
                        lemma_sync_step_absent(*old(self), old(self).entries@, to_sync@.take(i as int), k, *old(pager), *pager);
                    }
                },
                Some(p) => {
                    let res = self.sync_entry(pager, p);
                    proof {
                        lemma_find(s, k);
                        lemma_synced_step(old(self).entries@, s, self.entries@, to_sync@, i as int, p as int, res is Ok);
                        if res is Ok {
                            assert(to_sync@.take(i + 1) =~= to_sync@.take(i as int).push(k));
                            lemma_sync_step_store(*old(self), old(self).entries@, s, to_sync@.take(i as int), k,
                                p as int, *old(pager), pg_before, *pager);
                        }
                    }
                    if res.is_err() {
                        proof {
                            let s0 = old(self).entries@;
                            let t = self.entries@;
                            let full = to_sync@;
                            let part = to_sync@.take(i + 1);
                            let j = choose|j: int| 0 <= j < s0.len() && part.contains(s0[j].index) && needs_write(s0[j])
                                && #[trigger] t[j].flags == DIRTY;
                            let q = choose|q: int| 0 <= q < part.len() && #[trigger] part[q] == s0[j].index;
                            assert(full[q] == s0[j].index);
                            assert(full.contains(s0[j].index));
                            assert forall|j2: int| 0 <= j2 < s0.len() && part.contains(s0[j2].index) implies #[trigger] full.contains(s0[j2].index) by {
                                let q2 = choose|q2: int| 0 <= q2 < part.len() && #[trigger] part[q2] == s0[j2].index;
                                assert(full[q2] == s0[j2].index);
                            }
                        }
                        return res;
                    }
                },
            }
            proof {
                lemma_find(s, k);
                assert(to_sync@.take(i + 1) =~= to_sync@.take(i as int).push(k));
            }
            i = i + 1;
        }
        proof {
            assert(to_sync@.take(i as int) =~= to_sync@);
        }
        Ok(())
    }

    /// Every cached entry begins within the object, and its end is a `u64`.
    pub open spec fn within(&self) -> bool {
        forall|j: int| 0 <= j < self.entries@.len() ==> (#[trigger] self.entries@[j]).index * self.entry_bytes()
            <= self.len && self.entries@[j].index * self.entry_bytes() + self.entry_bytes() <= u64::MAX
    }

    /// Numbers of the dirty entries numbered `lo` to `hi`, in order.
    fn dirty_between(&self, lo: u64, hi: u64) -> (r: Vec<u64>)
        ensures
            r@ == dirty_in(self.entries@, lo, hi),
    {
        let mut out: Vec<u64> = Vec::new();
        let mut i: usize = 0;
        while i < self.entries.len()
            invariant
                i <= self.entries@.len(),
                out@ == dirty_in(self.entries@.take(i as int), lo, hi),
            decreases self.entries@.len() - i,
        {
            proof {
                assert(self.entries@.take(i + 1).drop_last() =~= self.entries@.take(i as int));
            }
            let k = self.entries[i].index;
            if lo <= k && k <= hi && self.entries[i].flags & DIRTY != 0 {
                out.push(k);
            }
            i = i + 1;
        }
        proof {
            assert(self.entries@.take(i as int) =~= self.entries@);
        }
        out
    }

    /// Write back the dirty entries that hold the bytes from page-aligned offset `addr` on for
    /// `len` bytes, up to the object's end; the offset of their last byte, or the object's end if
    /// that comes first, must be page-aligned. Stops at the first write that fails.
    pub fn sync<P: Pager>(&mut self, pager: &mut P, addr: u64, len: u64) -> (r: EResult<()>)
        requires
            old(pager).block_size_exp() == old(self).block_size_exp,
            old(self).wf(),
            old(self).within(),
            addr % PAGE_SIZE as u64 == 0,
            addr + len <= u64::MAX + 1,
            last_synced(addr, len, old(self).len) % PAGE_SIZE as int == 0,
        ensures
            final(self).wf(),
            same_shape(*old(self), *final(self)),
            synced(
                old(self).entries@,
                final(self).entries@,
                dirty_in(
                    old(self).entries@,
                    (addr as nat / old(self).entry_bytes()) as u64,
                    (last_synced(addr, len, old(self).len) / old(self).entry_bytes() as int) as u64,
                ),
                r is Ok,
            ),
            final(pager).block_size_exp() == old(pager).block_size_exp(),
            ({
                let list = dirty_in(
                    old(self).entries@,
                    (addr as nat / old(self).entry_bytes()) as u64,
                    (last_synced(addr, len, old(self).len) / old(self).entry_bytes() as int) as u64,
                );
                &&& none_waiting(old(self).entries@, list) ==> *final(pager) == *old(pager)
                &&& r is Ok ==> stores_listed(*old(self), old(self).entries@, list, *final(pager))
            }),
    {
        let start_index = self.index(addr).0;
        let last = if len > 0 { addr + (len - 1) } else { addr };
        let last = if last < self.len { last } else { self.len };
        let end_index = self.index(last).0;
        let to_sync = self.dirty_between(start_index, end_index);
        self.sync_impl(pager, &to_sync)
    }

    /// Write back all dirty entries, in order; stops at the first write that fails.
    pub fn sync_all<P: Pager>(&mut self, pager: &mut P) -> (r: EResult<()>)
        requires
            old(pager).block_size_exp() == old(self).block_size_exp,
            old(self).wf(),
            old(self).within(),
        ensures
            final(self).wf(),
            same_shape(*old(self), *final(self)),
            synced(old(self).entries@, final(self).entries@, dirty_in(old(self).entries@, 0, u64::MAX), r is Ok),
            final(pager).block_size_exp() == old(pager).block_size_exp(),
            none_waiting(old(self).entries@, dirty_in(old(self).entries@, 0, u64::MAX)) ==> *final(pager) == *old(pager),
            r is Ok ==> stores_listed(*old(self), old(self).entries@, dirty_in(old(self).entries@, 0, u64::MAX), *final(pager)),
    {
        let to_sync = self.dirty_between(0, u64::MAX);
        self.sync_impl(pager, &to_sync)
    }

    /// Evict the entries that are clean, not being read or written, and not referenced, and
    /// give their pages back to `pmm`.
    pub fn flush(&mut self, pmm: &mut PhysAllocator)
        requires
            old(self).wf(),
            old(pmm).wf(),
            old(self).owned(*old(pmm)),
        ensures
            final(self).wf(),
            same_shape(*old(self), *final(self)),
            final(pmm).wf(),
            final(self).owned(*final(pmm)),
            final(pmm).range_start() == old(pmm).range_start(),
            final(pmm).range_end() == old(pmm).range_end(),
            final(self).entries@ == kept_entries(old(self).entries@),
            final(pmm).free_set() == old(pmm).free_set().union(evicted_pages(old(self).entries@, old(self).entry_pages_exp)),
    {
        let ghost orig = self.entries@;
        let ghost c0 = *self;
        let ghost pm0 = *pmm;
        let order = self.entry_pages_exp;
        proof {
            lemma_entry_bytes(*self);
            lemma_pow2_mono(order as nat, 19);
            lemma2_to64();
        }
        let mut rest: Vec<CacheEntry> = Vec::new();
        core::mem::swap(&mut rest, &mut self.entries);
        let mut kept: Vec<CacheEntry> = Vec::new();
        let ghost mut k: int = 0;
        proof {
            assert(orig.skip(0) =~= orig);
            assert(orig.take(0) =~= Seq::<CacheEntry>::empty());
            assert(evicted_pages(orig.take(0), order) =~= Set::<int>::empty());
            assert(pm0.free_set().union(Set::<int>::empty()) =~= pm0.free_set());
        }
        while rest.len() > 0
            invariant
                0 <= k <= orig.len(),
                rest@ == orig.skip(k),
                kept@ == kept_entries(orig.take(k)),
                order == c0.entry_pages_exp,
                c0.wf(),
                c0.entries@ == orig,
                pm0.wf(),
                c0.owned(pm0),
                pmm.wf(),
                pmm.range_start() == pm0.range_start(),
                pmm.range_end() == pm0.range_end(),
                pmm.free_set() == pm0.free_set().union(evicted_pages(orig.take(k), order)),
                forall|q: int| 0 <= q < orig.len() && (q >= k || !evictable(orig[q]))
                    ==> entry_owned(#[trigger] orig[q], order, *pmm),
                order <= 19,
            decreases rest@.len(),
        {
            let ghost before = rest@;
            let e = rest.remove(0);
            proof {
                assert(e == orig[k]);
                assert(rest@ =~= orig.skip(k + 1));
                assert(orig.take(k + 1).drop_last() =~= orig.take(k));
                assert(orig.take(k + 1).last() == orig[k]);
            }
            if e.flags & (DIRTY | WRITING | READING) == 0 && e.refs == 0 {
                let ghost pm1 = *pmm;
                proof {
                    assert(entry_owned(orig[k], order, pm1));
                    lemma_free_block_ok(c0, pm1, k);
                }
                pmm.page_free(e.paddr, order);
                proof {
                    lemma_after_evict(c0, pm0, pm1, *pmm, k, |e: CacheEntry| evictable(e));
                }
            } else {
                kept.push(e);
                proof {
                    assert(evicted_pages(orig.take(k + 1), order) =~= evicted_pages(orig.take(k), order)) by {
                        lemma_evicted_step(orig, order, k, |e: CacheEntry| evictable(e));
                    }
                }
            }
            proof {
                k = k + 1;
            }
        }
        proof {
            assert(orig.take(k) =~= orig);
            lemma_kept_ok(c0, pm0, *pmm);
        }
        self.entries = kept;
    }

    /// Read the object's bytes from offset `addr` on into `out`, through the cache: entries
    /// that are not cached are read in through `pager`. The bytes must lie within the object.
    /// Stops at the first entry that cannot be read in and returns its error; when every byte
    /// is cached already, it succeeds.
    pub fn read_bytes<P: Pager>(&mut self, pager: &P, addr: u64, out: &mut Vec<u8>, pmm: &mut PhysAllocator) -> (r: EResult<()>)
        requires
            pager.block_size_exp() == old(self).block_size_exp,
            old(self).wf(),
            old(pmm).wf(),
            old(self).owned(*old(pmm)),
            // A `MappablePage` cannot name physical page 0, so no page may come from there.
            old(pmm).range_start() > 0,
            addr + old(out)@.len() <= old(self).len,
            old(self).len + old(self).entry_bytes() <= u64::MAX,
        ensures
            final(self).wf(),
            same_shape(*old(self), *final(self)),
            final(pmm).wf(),
            final(self).owned(*final(pmm)),
            final(pmm).range_start() == old(pmm).range_start(),
            final(pmm).range_end() == old(pmm).range_end(),
            final(pmm).free_set().subset_of(old(pmm).free_set()),
            final(out)@.len() == old(out)@.len(),
            keeps_bytes(old(self).entries@, final(self).entries@, old(self).entry_bytes()),
            (forall|j: int| 0 <= j < old(out)@.len() ==> #[trigger] byte_at(old(self).entries@, old(self).entry_bytes(), addr + j) is Some)
                ==> r is Ok,
            r is Ok ==> forall|j: int| 0 <= j < old(out)@.len() ==> #[trigger] byte_at(final(self).entries@, old(self).entry_bytes(), addr + j)
                == Some(final(out)@[j]),
    {
        let len = out.len();
        let eb = self.entry_bytes_exec();
        proof {
            lemma_entry_bytes(*self);
        }
        let ghost all_cached = forall|j: int| 0 <= j < len ==> #[trigger] byte_at(old(self).entries@, eb as nat, addr + j) is Some;
        let mut progress: usize = 0;
        while progress < len
            invariant
                pager.block_size_exp() == self.block_size_exp,
                self.wf(),
                same_shape(*old(self), *self),
                pmm.wf(),
                self.owned(*pmm),
                pmm.range_start() == old(pmm).range_start(),
                pmm.range_end() == old(pmm).range_end(),
                pmm.free_set().subset_of(old(pmm).free_set()),
                pmm.range_start() > 0,
                progress <= len,
                len == out@.len(),
                len == old(out)@.len(),
                eb == self.entry_bytes(),
                eb == old(self).entry_bytes(),
                eb % 4096 == 0,
                eb >= 4096,
                addr + len <= self.len,
                self.len + eb <= u64::MAX,
                all_cached == forall|j: int| 0 <= j < len ==> #[trigger] byte_at(old(self).entries@, eb as nat, addr + j) is Some,
                keeps_bytes(old(self).entries@, self.entries@, eb as nat),
                forall|j: int| 0 <= j < progress ==> #[trigger] byte_at(self.entries@, eb as nat, addr + j) == Some(out@[j]),
            decreases len - progress,
        {
            let cur = addr + progress as u64;
            let page_off = (cur % 4096) as usize;
            let page_base = cur - page_off as u64;
            let room = PAGE_SIZE - page_off;
            let copy_len = if room < len - progress { room } else { len - progress };
            proof {
                assert(page_base % 4096 == 0) by (nonlinear_arith)
                    requires
                        page_base == cur - page_off,
                        page_off == cur % 4096,
                ;
                lemma_same_entry(cur as int, eb as int);
            }
            let ghost s0 = self.entries@;
            proof {
                assert((page_base as int / eb as int) * eb as int <= page_base) by (nonlinear_arith)
                    requires
                        eb > 0,
                        page_base >= 0,
                ;
            }
            let res = self.alloc_page(pager, page_base, pmm);
            proof {
                if all_cached {
                    assert(byte_at(old(self).entries@, eb as nat, addr + progress) is Some);
                }
            }
            let (k, _) = self.index(page_base);
            match res {
                Ok(_) => {},
                Err(e) => {
                    proof {
                        lemma_views_same_bytes(s0, self.entries@, eb as nat);
                        assert forall|a: int| 0 <= a <= u64::MAX && #[trigger] byte_at(old(self).entries@, eb as nat, a) is Some
                            implies byte_at(self.entries@, eb as nat, a) == byte_at(old(self).entries@, eb as nat, a) by {
                            assert(byte_at(s0, eb as nat, a) == byte_at(old(self).entries@, eb as nat, a));
                        }
                    }
                    return Err(e);
                },
            }
            proof {
                lemma_alloc_keeps(s0, self.entries@, k, eb as nat);
                assert forall|j: int| 0 <= j < progress implies #[trigger] byte_at(self.entries@, eb as nat, addr + j) == Some(out@[j]) by {
                    assert(byte_at(s0, eb as nat, addr + j) == Some(out@[j]));
                }
                assert forall|a: int| 0 <= a <= u64::MAX && #[trigger] byte_at(old(self).entries@, eb as nat, a) is Some
                    implies byte_at(self.entries@, eb as nat, a) == byte_at(old(self).entries@, eb as nat, a) by {
                    assert(byte_at(s0, eb as nat, a) == byte_at(old(self).entries@, eb as nat, a));
                }
            }
            let p = match self.find_entry(k) {
                Some(p) => p,
                None => {
                    proof {
                        assert(false);
                    }
                    return Ok(());
                },
            };
            let off = (cur % eb as u64) as usize;
            let ghost s1 = self.entries@;
            let mut i: usize = 0;
            while i < copy_len
                invariant
                    i <= copy_len,
                    progress + copy_len <= len,
                    len == out@.len(),
                    copy_len <= 4096 - cur % 4096,
                    cur == addr + progress,
                    off == cur as int % eb as int,
                    p < s1.len(),
                    s1 == self.entries@,
                    s1[p as int].data@.len() == eb,
                    s1[p as int].index == k,
                    k == cur as int / eb as int,
                    find(s1, k) == p,
                    eb % 4096 == 0,
                    eb >= 4096,
                    forall|j: int| 0 <= j < progress ==> #[trigger] byte_at(s1, eb as nat, addr + j) == Some(out@[j]),
                    forall|j: int| progress <= j < progress + i ==> #[trigger] byte_at(s1, eb as nat, addr + j) == Some(out@[j]),
                decreases copy_len - i,
            {
                proof {
                    lemma_in_entry(cur as int, i as int, eb as int);
                }
                let b = self.entries[p].data[off + i];
                out.set(progress + i, b);
                proof {
                    assert(byte_at(s1, eb as nat, addr + progress + i) == Some(b));
                }
                i = i + 1;
            }
            let ghost c1 = *self;
            self.release(page_base);
            proof {
                lemma_release_keeps(s1, self.entries@, k, eb as nat);
                lemma_owned_same_pages(c1, *self, *pmm);
                assert forall|a: int| 0 <= a <= u64::MAX && #[trigger] byte_at(old(self).entries@, eb as nat, a) is Some
                    implies byte_at(self.entries@, eb as nat, a) == byte_at(old(self).entries@, eb as nat, a) by {
                    assert(byte_at(s1, eb as nat, a) == byte_at(old(self).entries@, eb as nat, a));
                }
                assert forall|j: int| 0 <= j < progress + copy_len implies #[trigger] byte_at(self.entries@, eb as nat, addr + j) == Some(out@[j]) by {
                    if j < progress {
                        assert(byte_at(s1, eb as nat, addr + j) == Some(out@[j]));
                    } else {
                        assert(byte_at(s1, eb as nat, addr + j) == Some(out@[j]));
                    }
                }
            }
            progress = progress + copy_len;
        }
        Ok(())
    }

    /// Write `data` into the object from offset `addr` on, through the cache: entries that are
    /// not cached are read in through `pager` first, and the entries written to are marked dirty.
    /// The bytes must lie within the object. Stops at the first entry that cannot be read in and
    /// returns its error; when every byte is cached already, it succeeds.
    #[verifier::rlimit(40)]
    pub fn write_bytes<P: Pager>(&mut self, pager: &P, addr: u64, data: &[u8], pmm: &mut PhysAllocator) -> (r: EResult<()>)
        requires
            pager.block_size_exp() == old(self).block_size_exp,
            old(self).wf(),
            old(pmm).wf(),
            old(self).owned(*old(pmm)),
            // A `MappablePage` cannot name physical page 0, so no page may come from there.
            old(pmm).range_start() > 0,
            addr + data@.len() <= old(self).len,
            old(self).len + old(self).entry_bytes() <= u64::MAX,
        ensures
            final(self).wf(),
            same_shape(*old(self), *final(self)),
            final(pmm).wf(),
            final(self).owned(*final(pmm)),
            final(pmm).range_start() == old(pmm).range_start(),
            final(pmm).range_end() == old(pmm).range_end(),
            final(pmm).free_set().subset_of(old(pmm).free_set()),
            forall|a: int| 0 <= a <= u64::MAX && !(addr <= a < addr + data@.len()) && #[trigger] byte_at(
                old(self).entries@,
                old(self).entry_bytes(),
                a,
            ) is Some ==> byte_at(final(self).entries@, old(self).entry_bytes(), a) == byte_at(
                old(self).entries@,
                old(self).entry_bytes(),
                a,
            ),
            (forall|j: int| 0 <= j < data@.len() ==> #[trigger] byte_at(old(self).entries@, old(self).entry_bytes(), addr + j) is Some)
                ==> r is Ok,
            r is Ok ==> forall|j: int| 0 <= j < data@.len() ==> #[trigger] byte_at(final(self).entries@, old(self).entry_bytes(), addr + j)
                == Some(data@[j]) && dirty_at(final(self).entries@, old(self).entry_bytes(), addr + j),
    {
        let len = data.len();
        let eb = self.entry_bytes_exec();
        proof {
            lemma_entry_bytes(*self);
        }
        let ghost all_cached = forall|j: int| 0 <= j < len ==> #[trigger] byte_at(old(self).entries@, eb as nat, addr + j) is Some;
        let mut progress: usize = 0;
        while progress < len
            invariant
                pager.block_size_exp() == self.block_size_exp,
                self.wf(),
                same_shape(*old(self), *self),
                pmm.wf(),
                self.owned(*pmm),
                pmm.range_start() == old(pmm).range_start(),
                pmm.range_end() == old(pmm).range_end(),
                pmm.free_set().subset_of(old(pmm).free_set()),
                pmm.range_start() > 0,
                progress <= len,
                len == data@.len(),
                eb == self.entry_bytes(),
                eb == old(self).entry_bytes(),
                eb % 4096 == 0,
                eb >= 4096,
                addr + len <= self.len,
                self.len + eb <= u64::MAX,
                all_cached == forall|j: int| 0 <= j < len ==> #[trigger] byte_at(old(self).entries@, eb as nat, addr + j) is Some,
                forall|a: int| 0 <= a <= u64::MAX && !(addr <= a < addr + progress) && #[trigger] byte_at(old(self).entries@, eb as nat, a)
                    is Some ==> byte_at(self.entries@, eb as nat, a) == byte_at(old(self).entries@, eb as nat, a),
                forall|j: int| 0 <= j < progress ==> #[trigger] byte_at(self.entries@, eb as nat, addr + j) == Some(data@[j])
                    && dirty_at(self.entries@, eb as nat, addr + j),
            decreases len - progress,
        {
            let cur = addr + progress as u64;
            let page_off = (cur % 4096) as usize;
            let page_base = cur - page_off as u64;
            let room = PAGE_SIZE - page_off;
            let copy_len = if room < len - progress { room } else { len - progress };
            proof {
                assert(page_base % 4096 == 0) by (nonlinear_arith)
                    requires
                        page_base == cur - page_off,
                        page_off == cur % 4096,
                ;
                lemma_same_entry(cur as int, eb as int);
                assert((page_base as int / eb as int) * eb as int <= page_base) by (nonlinear_arith)
                    requires
                        eb > 0,
                        page_base >= 0,
                ;
            }
            let ghost s0 = self.entries@;
            let res = self.alloc_page(pager, page_base, pmm);
            proof {
                if all_cached {
                    assert(byte_at(old(self).entries@, eb as nat, addr + progress) is Some);
                }
            }
            let (k, _) = self.index(page_base);
            match res {
                Ok(_) => {},
                Err(e) => {
                    proof {
                        lemma_views_same_bytes(s0, self.entries@, eb as nat);
                        assert forall|a: int| 0 <= a <= u64::MAX && !(addr <= a < addr + data@.len()) && #[trigger] byte_at(old(self).entries@, eb as nat, a) is Some
                            implies byte_at(self.entries@, eb as nat, a) == byte_at(old(self).entries@, eb as nat, a) by {
                            assert(byte_at(s0, eb as nat, a) == byte_at(old(self).entries@, eb as nat, a));
                        }
                    }
                    return Err(e);
                },
            }
            proof {
                lemma_alloc_keeps(s0, self.entries@, k, eb as nat);
                lemma_alloc_keeps_dirty(s0, self.entries@, k, eb as nat);
                assert forall|j: int| 0 <= j < progress implies #[trigger] byte_at(self.entries@, eb as nat, addr + j) == Some(data@[j])
                    && dirty_at(self.entries@, eb as nat, addr + j) by {
                    assert(byte_at(s0, eb as nat, addr + j) == Some(data@[j]));
                    assert(dirty_at(s0, eb as nat, addr + j));
                }
                assert forall|a: int| 0 <= a <= u64::MAX && !(addr <= a < addr + progress) && #[trigger] byte_at(old(self).entries@, eb as nat, a) is Some
                    implies byte_at(self.entries@, eb as nat, a) == byte_at(old(self).entries@, eb as nat, a) by {
                    assert(byte_at(s0, eb as nat, a) == byte_at(old(self).entries@, eb as nat, a));
                }
            }
            let p = match self.find_entry(k) {
                Some(p) => p,
                None => {
                    proof {
                        assert(false);
                    }
                    return Ok(());
                },
            };
            let off = (cur % eb as u64) as usize;
            proof {
                lemma_in_entry(cur as int, 0, eb as int);
                assert(k * eb + off == cur) by (nonlinear_arith)
                    requires
                        k == cur as int / eb as int,
                        off == cur as int % eb as int,
                        eb > 0,
                ;
            }
            let ghost s1 = self.entries@;
            self.copy_into(p, off, data, progress, copy_len);
            let ghost s2 = self.entries@;
            proof {
                lemma_copy_bytes(s1, s2, p as int, k, off as int, cur as int, copy_len as int, data@, progress as int, eb as nat);
            }
            let ghost c2 = *self;
            self.mark_dirty(page_base);
            proof {
                lemma_find_at(s2, k, p as int);
                lemma_mark_keeps(s2, self.entries@, k, p as int, eb as nat);
                lemma_owned_same_pages(c2, *self, *pmm);
            }
            let ghost s3 = self.entries@;
            let ghost c3 = *self;
            self.release(page_base);
            proof {
                lemma_release_keeps(s3, self.entries@, k, eb as nat);
                lemma_release_keeps_dirty(s3, self.entries@, k, eb as nat);
                lemma_owned_same_pages(c3, *self, *pmm);
                lemma_find_at(s3, k, p as int);
                assert forall|i: int| 0 <= i < copy_len implies (#[trigger] ((addr + progress + i) / eb as int)) == k by {
                    lemma_in_entry(cur as int, i, eb as int);
                }
                lemma_write_step(
                    old(self).entries@,
                    s1,
                    s2,
                    s3,
                    self.entries@,
                    eb as nat,
                    addr as int,
                    progress as int,
                    copy_len as int,
                    data@,
                    k,
                    p as int,
                );
            }
            progress = progress + copy_len;
        }
        Ok(())
    }

    /// Copy `n` bytes of `data` from position `from` on into entry `p` at offset `off`.
    fn copy_into(&mut self, p: usize, off: usize, data: &[u8], from: usize, n: usize)
        requires
            old(self).wf(),
            p < old(self).entries@.len(),
            off + n <= old(self).entry_bytes(),
            from + n <= data@.len(),
            from + n <= usize::MAX,
        ensures
            final(self).wf(),
            same_shape(*old(self), *final(self)),
            final(self).entries@.len() == old(self).entries@.len(),
            forall|j: int| 0 <= j < old(self).entries@.len() && j != p ==> #[trigger] final(self).entries@[j] == old(self).entries@[j],
            final(self).entries@[p as int].index == old(self).entries@[p as int].index,
            final(self).entries@[p as int].paddr == old(self).entries@[p as int].paddr,
            final(self).entries@[p as int].flags == old(self).entries@[p as int].flags,
            final(self).entries@[p as int].refs == old(self).entries@[p as int].refs,
            final(self).entries@[p as int].data@.len() == old(self).entries@[p as int].data@.len(),
            forall|o: int| 0 <= o < old(self).entries@[p as int].data@.len() && !(off <= o < off + n)
                ==> #[trigger] final(self).entries@[p as int].data@[o] == old(self).entries@[p as int].data@[o],
            forall|o: int| off <= o < off + n ==> #[trigger] final(self).entries@[p as int].data@[o] == data@[from + o - off],
    {
        let ghost s = self.entries@;
        proof {
            lemma_entry_bytes(*self);
        }
        let mut e = self.entries.remove(p);
        let mut i: usize = 0;
        while i < n
            invariant
                i <= n,
                off + n <= e.data@.len(),
                off + n <= 0x8000_0000,
                from + n <= data@.len(),
                from + n <= usize::MAX,
                e.data@.len() == s[p as int].data@.len(),
                e.index == s[p as int].index,
                e.paddr == s[p as int].paddr,
                e.flags == s[p as int].flags,
                e.refs == s[p as int].refs,
                forall|o: int| 0 <= o < e.data@.len() && !(off <= o < off + i) ==> #[trigger] e.data@[o] == s[p as int].data@[o],
                forall|o: int| off <= o < off + i ==> #[trigger] e.data@[o] == data@[from + o - off],
            decreases n - i,
        {
            e.data.set(off + i, data[from + i]);
            i = i + 1;
        }
        self.entries.insert(p, e);
        proof {
            lemma_replace_keeps(s, self.entries@, p as int);
        }
    }

    /// Tear the cache down, as dropping it does: the pages of the entries nobody references go
    /// back to `pmm`. Returns how many entries are still referenced and how many are still
    /// dirty; either being non-zero means leaked memory or lost data.
    pub fn teardown(self, pmm: &mut PhysAllocator) -> (r: (usize, usize))
        requires
            self.wf(),
            old(pmm).wf(),
            self.owned(*old(pmm)),
        ensures
            final(pmm).wf(),
            final(pmm).range_start() == old(pmm).range_start(),
            final(pmm).range_end() == old(pmm).range_end(),
            final(pmm).free_set() == old(pmm).free_set().union(
                freed_pages(self.entries@, self.entry_pages_exp, |e: CacheEntry| e.refs == 0),
            ),
            r.0 == count_where(self.entries@, |e: CacheEntry| e.refs != 0),
            r.1 == count_where(self.entries@, |e: CacheEntry| e.flags & DIRTY != 0),
    {
        let ghost orig = self.entries@;
        let ghost c0 = self;
        let ghost pm0 = *pmm;
        let ghost gone = |e: CacheEntry| e.refs == 0;
        let order = self.entry_pages_exp;
        proof {
            lemma_entry_bytes(self);
            lemma_pow2_mono(order as nat, 19);
            lemma2_to64();
            assert(orig.take(0) =~= Seq::<CacheEntry>::empty());
            assert(freed_pages(orig.take(0), order, gone) =~= Set::<int>::empty());
            assert(pm0.free_set().union(Set::<int>::empty()) =~= pm0.free_set());
        }
        let mut refs: usize = 0;
        let mut dirty: usize = 0;
        let mut i: usize = 0;
        while i < self.entries.len()
            invariant
                i <= orig.len(),
                self.entries@ == orig,
                c0.entries@ == orig,
                c0.wf(),
                order == c0.entry_pages_exp,
                pm0.wf(),
                c0.owned(pm0),
                pmm.wf(),
                pmm.range_start() == pm0.range_start(),
                pmm.range_end() == pm0.range_end(),
                pmm.free_set() == pm0.free_set().union(freed_pages(orig.take(i as int), order, gone)),
                forall|q: int| 0 <= q < orig.len() && (q >= i || !gone(orig[q])) ==> entry_owned(#[trigger] orig[q], order, *pmm),
                refs == count_where(orig.take(i as int), |e: CacheEntry| e.refs != 0),
                dirty == count_where(orig.take(i as int), |e: CacheEntry| e.flags & DIRTY != 0),
                gone == |e: CacheEntry| e.refs == 0,
                order <= 19,
                refs <= i,
                dirty <= i,
            decreases orig.len() - i,
        {
            proof {
                assert(orig.take(i + 1).drop_last() =~= orig.take(i as int));
                assert(orig.take(i + 1).last() == orig[i as int]);
            }
            if self.entries[i].flags & DIRTY != 0 {
                dirty = dirty + 1;
            }
            if self.entries[i].refs == 0 {
                let ghost pm1 = *pmm;
                proof {
                    lemma_free_block_ok(c0, pm1, i as int);
                }
                pmm.page_free(self.entries[i].paddr, order);
                proof {
                    lemma_after_evict(c0, pm0, pm1, *pmm, i as int, gone);
                }
            } else {
                refs = refs + 1;
                proof {
                    lemma_evicted_step(orig, order, i as int, gone);
                }
            }
            i = i + 1;
        }
        proof {
            assert(orig.take(i as int) =~= orig);
        }
        (refs, dirty)
    }

    /// Position of the entry numbered `k`, if it is cached.
    fn find_entry(&self, k: u64) -> (r: Option<usize>)
        requires
            sorted(self.entries@),
        ensures
            r is None <==> find(self.entries@, k) == self.entries@.len(),
            r matches Some(p) ==> p == find(self.entries@, k),
    {
        let p = self.lower_bound_of(k);
        if p < self.entries.len() && self.entries[p].index == k {
            Some(p)
        } else {
            None
        }
    }

    /// Position of the first entry whose number is at least `k`.
    fn lower_bound_of(&self, k: u64) -> (r: usize)
        ensures
            r == lower_bound(self.entries@, k, 0),
    {
        let mut i: usize = 0;
        while i < self.entries.len() && self.entries[i].index < k
            invariant
                i <= self.entries@.len(),
                lower_bound(self.entries@, k, 0) == lower_bound(self.entries@, k, i as int),
            decreases self.entries@.len() - i,
        {
            i = i + 1;
        }
        i
    }
}

/// Two caches of the same object with the same geometry.
pub open spec fn same_shape(a: PageCache, b: PageCache) -> bool {
    &&& a.block_size_exp == b.block_size_exp
    &&& a.entry_pages_exp == b.entry_pages_exp
    &&& a.entry_blocks_exp == b.entry_blocks_exp
    &&& a.len == b.len
}

/// Replacing the entry at `p` by one with the same number, address and size keeps the entries
/// sorted, and every other entry as it was.
proof fn lemma_replace_keeps(s: Seq<CacheEntry>, t: Seq<CacheEntry>, p: int)
    requires
        0 <= p < s.len(),
        t == s.remove(p).insert(p, t[p]),
        t[p].index == s[p].index,
    ensures
        t.len() == s.len(),
        forall|j: int| 0 <= j < s.len() && j != p ==> #[trigger] t[j] == s[j],
        sorted(s) ==> sorted(t),
        views(t) == views(s).update(p, t[p]@),
{
    assert forall|j: int| 0 <= j < s.len() && j != p implies #[trigger] t[j] == s[j] by {
        if j < p {
            assert(t[j] == s.remove(p)[j]);
        } else {
            assert(t[j] == s.remove(p)[j - 1]);
        }
    }
    if sorted(s) {
        assert forall|i: int, j: int| 0 <= i < j < t.len() implies (#[trigger] t[i]).index < (#[trigger] t[j]).index by {
            if i != p {
                assert(t[i] == s[i]);
            }
            if j != p {
                assert(t[j] == s[j]);
            }
        }
    }
    assert(views(t) =~= views(s).update(p, t[p]@));
}

/// Facts about an entry's size.
proof fn lemma_entry_bytes(c: PageCache)
    requires
        c.geometry_ok(),
    ensures
        c.entry_bytes() == pow2(c.entry_pages_exp as nat) * 4096,
        c.entry_bytes() <= 0x8000_0000,
        c.entry_bytes() >= 4096,
        c.entry_bytes() % 4096 == 0,
{
    lemma_pow2_adds(c.entry_pages_exp as nat, 12);
    lemma2_to64();
    lemma_pow2_mono(c.entry_size_exp(), 31);
    lemma_pow2_pos_int(c.entry_pages_exp as nat);
    assert(pow2(c.entry_pages_exp as nat) * 4096 >= 4096) by (nonlinear_arith)
        requires
            pow2(c.entry_pages_exp as nat) > 0,
    ;
}

/// An entry's bytes after a read into `buf`: the first `valid` come from `buf`, the rest of the
/// `len` bytes are zeroes.
pub fn fill_entry(buf: &[u8], valid: usize, len: usize) -> (r: Vec<u8>)
    ensures
        r@.len() == len,
        forall|i: int| 0 <= i < len ==> #[trigger] r@[i] == if i < valid && i < buf@.len() { buf@[i] } else { 0u8 },
{
    let mut r: Vec<u8> = Vec::new();
    let mut i: usize = 0;
    while i < len
        invariant
            i <= len,
            r@.len() == i,
            forall|j: int| 0 <= j < i ==> #[trigger] r@[j] == if j < valid && j < buf@.len() { buf@[j] } else { 0u8 },
        decreases len - i,
    {
        let b = if i < valid && i < buf.len() { buf[i] } else { 0u8 };
        r.push(b);
        i = i + 1;
    }
    r
}

/// The blocks that entry `k` reads hold all of the object's bytes in the entry.
proof fn lemma_read_covers_valid(c: PageCache, k: u64, start: u64, end: u64)
    requires
        c.geometry_ok(),
        k * c.entry_bytes() <= c.len,
        start == k * c.blocks_per_entry(),
        end == if start + c.blocks_per_entry() < c.block_len() { start + c.blocks_per_entry() } else { c.block_len() },
    ensures
        c.valid_bytes(k) <= (end - start) * c.block_bytes(),
{
    lemma_geometry(c);
    let bs = c.block_bytes() as int;
    let bpe = c.blocks_per_entry() as int;
    let eb = c.entry_bytes() as int;
    let bl = c.block_len();
    assert(bl * bs >= c.len) by (nonlinear_arith)
        requires
            bl == (c.len + bs - 1) / bs,
            bs >= 1,
    ;
    if start + bpe < bl {
        assert((end - start) * bs == eb) by (nonlinear_arith)
            requires
                end - start == bpe,
                eb == bpe * bs,
        ;
    } else {
        assert((end - start) * bs == bl * bs - k * eb) by (nonlinear_arith)
            requires
                end == bl,
                start == k * bpe,
                eb == bpe * bs,
        ;
    }
}

/// How the sizes of an entry, a block and the number of blocks in an entry relate.
proof fn lemma_geometry(c: PageCache)
    requires
        c.geometry_ok(),
    ensures
        c.entry_bytes() == c.blocks_per_entry() * c.block_bytes(),
        c.block_bytes() >= 1,
        c.blocks_per_entry() >= 1,
        c.block_bytes() <= 0x8000_0000,
{
    lemma_pow2_adds(c.entry_blocks_exp as nat, c.block_size_exp as nat);
    lemma_pow2_pos_int(c.entry_blocks_exp as nat);
    lemma_pow2_pos_int(c.block_size_exp as nat);
    lemma_pow2_mono(c.block_size_exp as nat, 31);
    lemma2_to64();
}

/// A block just handed out by the allocator: aligned, in range, in use by the cache, and none
/// of its pages was in use before.
proof fn lemma_fresh_block(pm0: PhysAllocator, pm1: PhysAllocator, order: u8, paddr: usize)
    requires
        pm0.wf(),
        order < MAX_ORDER,
        lowest_from(pm0.free_blocks(), order as int) != 64,
        ({
            let s = lowest_from(pm0.free_blocks(), order as int);
            let ppn = pm0.free_blocks()[last_of(pm0.free_blocks(), s as u8)].ppn as int;
            &&& paddr == ppn * PAGE_SIZE
            &&& block_set(ppn, order as nat).subset_of(pm0.free_set())
            &&& forall|p: int| ppn <= p < ppn + pow2(order as nat) ==> #[trigger] pm1.usage_of(p) == PageUsage::Cache
        }),
    ensures
        paddr % PAGE_SIZE == 0,
        (paddr as int / PAGE_SIZE as int) % pow2(order as nat) as int == 0,
        pm0.range_start() <= paddr as int / PAGE_SIZE as int,
        paddr as int / PAGE_SIZE as int + pow2(order as nat) <= pm0.range_end(),
        block_set(paddr as int / PAGE_SIZE as int, order as nat).subset_of(pm0.free_set()),
{
    lemma_alloc_aligned(pm0, order);
    let ppn = paddr as int / PAGE_SIZE as int;
    lemma_pow2_pos_int(order as nat);
    assert(block_set(ppn, order as nat).contains(ppn));
    lemma_free_in_range(pm0, ppn);
    let last = ppn + pow2(order as nat) - 1;
    assert(block_set(ppn, order as nat).contains(last));
    lemma_free_in_range(pm0, last);
}

/// A cache whose entries keep their physical addresses keeps owning its pages.
proof fn lemma_owned_same_pages(a: PageCache, b: PageCache, pmm: PhysAllocator)
    requires
        a.owned(pmm),
        b.entry_pages_exp == a.entry_pages_exp,
        b.entries@.len() == a.entries@.len(),
        forall|i: int| 0 <= i < a.entries@.len() ==> #[trigger] b.entries@[i].paddr == a.entries@[i].paddr,
    ensures
        b.owned(pmm),
{
    assert forall|i: int| 0 <= i < b.entries@.len() implies entry_owned(#[trigger] b.entries@[i], b.entry_pages_exp, pmm) by {
        assert(entry_owned(a.entries@[i], a.entry_pages_exp, pmm));
    }
    assert forall|i: int, j: int| 0 <= i < b.entries@.len() && 0 <= j < b.entries@.len() && i != j
        implies #[trigger] b.entries@[i].paddr + b.entry_bytes() <= #[trigger] b.entries@[j].paddr
            || b.entries@[j].paddr + b.entry_bytes() <= b.entries@[i].paddr by {
        assert(a.entries@[i].paddr + a.entry_bytes() <= a.entries@[j].paddr
            || a.entries@[j].paddr + a.entry_bytes() <= a.entries@[i].paddr);
    }
}

/// A page of an entry that the cache owns is not free.
proof fn lemma_owned_not_free(c: PageCache, pmm: PhysAllocator, i: int, p: int)
    requires
        pmm.wf(),
        c.owned(pmm),
        0 <= i < c.entries@.len(),
        c.entries@[i].paddr as int / PAGE_SIZE as int <= p < c.entries@[i].paddr as int / PAGE_SIZE as int + pow2(
            c.entry_pages_exp as nat,
        ),
    ensures
        !pmm.free_set().contains(p),
        pmm.usage_of(p) == PageUsage::Cache,
{
    assert(entry_owned(c.entries@[i], c.entry_pages_exp, pmm));
    if pmm.free_set().contains(p) {
        lemma_free_usage(pmm, p);
    }
}

/// Allocating a block and freeing it again leaves the cache owning its pages.
proof fn lemma_owned_after_free(c: PageCache, pm0: PhysAllocator, pm1: PhysAllocator, pm2: PhysAllocator, ppn: int)
    requires
        pm0.wf(),
        c.owned(pm0),
        block_set(ppn, c.entry_pages_exp as nat).subset_of(pm0.free_set()),
        pm1.range_start() == pm0.range_start() && pm1.range_end() == pm0.range_end(),
        pm2.range_start() == pm0.range_start() && pm2.range_end() == pm0.range_end(),
        forall|p: int| !(ppn <= p < ppn + pow2(c.entry_pages_exp as nat)) ==> #[trigger] pm1.usage_of(p) == pm0.usage_of(p),
        forall|p: int| #[trigger] pm2.usage_of(p) == if block_set(ppn, c.entry_pages_exp as nat).contains(p) {
            PageUsage::Free
        } else {
            pm1.usage_of(p)
        },
    ensures
        c.owned(pm2),
{
    assert forall|i: int| 0 <= i < c.entries@.len() implies entry_owned(#[trigger] c.entries@[i], c.entry_pages_exp, pm2) by {
        assert(entry_owned(c.entries@[i], c.entry_pages_exp, pm0));
        let q = c.entries@[i].paddr as int / PAGE_SIZE as int;
        assert forall|p: int| q <= p < q + pow2(c.entry_pages_exp as nat) implies #[trigger] pm2.usage_of(p) == PageUsage::Cache by {
            lemma_owned_not_free(c, pm0, i, p);
            assert(!block_set(ppn, c.entry_pages_exp as nat).contains(p));
        }
    }
}

/// Inserting the entry for a block just allocated keeps the cache well formed and owning its
/// pages.
proof fn lemma_insert_keeps(c0: PageCache, c1: PageCache, lb: int, pm0: PhysAllocator, pm1: PhysAllocator, ppn: int)
    requires
        c0.wf(),
        pm0.wf(),
        c0.owned(pm0),
        same_shape(c0, c1),
        0 <= lb <= c0.entries@.len(),
        lb == lower_bound(c0.entries@, c1.entries@[lb].index, 0),
        find(c0.entries@, c1.entries@[lb].index) == c0.entries@.len(),
        c1.entries@ == c0.entries@.insert(lb, c1.entries@[lb]),
        c1.entries@[lb].data@.len() == c0.entry_bytes(),
        c1.entries@[lb].paddr == ppn * PAGE_SIZE,
        ppn > 0,
        ppn % pow2(c0.entry_pages_exp as nat) as int == 0,
        pm0.range_start() <= ppn,
        ppn + pow2(c0.entry_pages_exp as nat) <= pm0.range_end(),
        pm0.range_end() <= usize::MAX / PAGE_SIZE,
        block_set(ppn, c0.entry_pages_exp as nat).subset_of(pm0.free_set()),
        pm1.range_start() == pm0.range_start() && pm1.range_end() == pm0.range_end(),
        forall|p: int| ppn <= p < ppn + pow2(c0.entry_pages_exp as nat) ==> #[trigger] pm1.usage_of(p) == PageUsage::Cache,
        forall|p: int| !(ppn <= p < ppn + pow2(c0.entry_pages_exp as nat)) ==> #[trigger] pm1.usage_of(p) == pm0.usage_of(p),
    ensures
        c1.wf(),
        c1.owned(pm1),
        views(c1.entries@) == views(c0.entries@).insert(lb, c1.entries@[lb]@),
{
    let s = c0.entries@;
    let t = c1.entries@;
    let e = t[lb];
    let n = pow2(c0.entry_pages_exp as nat);
    lemma_find(s, e.index);
    lemma_entry_bytes(c0);
    assert(c0.entry_bytes() == n * 4096);
    assert forall|j: int| 0 <= j < t.len() && j != lb implies #[trigger] t[j] == s[if j < lb { j } else { j - 1 }] by {}
    // Sorted.
    assert forall|i: int, j: int| 0 <= i < j < t.len() implies (#[trigger] t[i]).index < (#[trigger] t[j]).index by {
        if i < lb && j > lb {
            assert(t[i] == s[i] && t[j] == s[j - 1]);
            assert(s[i].index < e.index);
            assert(s[j - 1].index >= e.index);
            assert(s[j - 1].index != e.index);
        } else if i == lb {
            assert(t[j] == s[j - 1]);
            assert(s[j - 1].index >= e.index);
            assert(s[j - 1].index != e.index);
        } else if j == lb {
            assert(t[i] == s[i]);
        } else if j < lb {
            assert(t[i] == s[i] && t[j] == s[j]);
        } else {
            assert(t[i] == s[i - 1] && t[j] == s[j - 1]);
        }
    }
    // The new block lies apart from every old entry.
    assert forall|j: int| 0 <= j < s.len() implies #[trigger] s[j].paddr + c0.entry_bytes() <= e.paddr
        || e.paddr + c0.entry_bytes() <= s[j].paddr by {
        let q = s[j].paddr as int / PAGE_SIZE as int;
        assert(s[j].paddr == q * PAGE_SIZE);
        if !(q + n <= ppn || ppn + n <= q) {
            let p = if q <= ppn { ppn } else { q };
            lemma_owned_not_free(c0, pm0, j, p);
            assert(block_set(ppn, c0.entry_pages_exp as nat).contains(p));
        }
        assert(q * 4096 + n * 4096 <= ppn * 4096 || ppn * 4096 + n * 4096 <= q * 4096) by (nonlinear_arith)
            requires
                q + n <= ppn || ppn + n <= q,
        ;
    }
    // Well formed.
    assert(ppn * 4096 + n * 4096 <= usize::MAX) by (nonlinear_arith)
        requires
            ppn + n <= pm0.range_end(),
            pm0.range_end() <= usize::MAX / 4096,
    ;
    assert(ppn * 4096 > 0 && (ppn * 4096) % 4096 == 0) by (nonlinear_arith)
        requires
            ppn > 0,
    ;
    assert forall|i: int| 0 <= i < t.len() implies {
        &&& (#[trigger] t[i]).data@.len() == c1.entry_bytes()
        &&& t[i].paddr != 0
        &&& t[i].paddr % PAGE_SIZE == 0
        &&& t[i].paddr + c1.entry_bytes() <= usize::MAX
    } by {
        if i < lb {
            assert(t[i] == s[i]);
        } else if i > lb {
            assert(t[i] == s[i - 1]);
        }
    }
    // Owned.
    assert((e.paddr as int / PAGE_SIZE as int) == ppn) by (nonlinear_arith)
        requires
            e.paddr == ppn * 4096,
    ;
    assert forall|i: int| 0 <= i < t.len() implies entry_owned(#[trigger] t[i], c1.entry_pages_exp, pm1) by {
        if i != lb {
            let j = if i < lb { i } else { i - 1 };
            assert(t[i] == s[j]);
            assert(entry_owned(s[j], c0.entry_pages_exp, pm0));
            let q = s[j].paddr as int / PAGE_SIZE as int;
            assert forall|p: int| q <= p < q + n implies #[trigger] pm1.usage_of(p) == PageUsage::Cache by {
                lemma_owned_not_free(c0, pm0, j, p);
                assert(!block_set(ppn, c0.entry_pages_exp as nat).contains(p));
            }
        }
    }
    assert forall|i: int, j: int| 0 <= i < t.len() && 0 <= j < t.len() && i != j
        implies #[trigger] t[i].paddr + c1.entry_bytes() <= #[trigger] t[j].paddr
            || t[j].paddr + c1.entry_bytes() <= t[i].paddr by {
        let ii = if i < lb { i } else { i - 1 };
        let jj = if j < lb { j } else { j - 1 };
        if i == lb {
            assert(t[j] == s[jj]);
            assert(s[jj].paddr + c0.entry_bytes() <= e.paddr || e.paddr + c0.entry_bytes() <= s[jj].paddr);
        } else if j == lb {
            assert(t[i] == s[ii]);
            assert(s[ii].paddr + c0.entry_bytes() <= e.paddr || e.paddr + c0.entry_bytes() <= s[ii].paddr);
        } else {
            assert(t[i] == s[ii] && t[j] == s[jj]);
            assert(ii != jj);
        }
    }
    assert(views(t) =~= views(s).insert(lb, e@));
}

/// Numbers of the dirty entries of `s` numbered `lo` to `hi`, in order.
pub open spec fn dirty_in(s: Seq<CacheEntry>, lo: u64, hi: u64) -> Seq<u64>
    decreases s.len(),
{
    if s.len() == 0 {
        Seq::empty()
    } else if lo <= s.last().index <= hi && s.last().flags & DIRTY != 0 {
        dirty_in(s.drop_last(), lo, hi).push(s.last().index)
    } else {
        dirty_in(s.drop_last(), lo, hi)
    }
}

/// Offset of the last byte that `sync(addr, len)` covers, but no further than the object's end.
pub open spec fn last_synced(addr: u64, len: u64, obj_len: u64) -> int {
    let last: int = if len > 0 { addr + len - 1 } else { addr as int };
    if last < obj_len { last } else { obj_len as int }
}

/// Whether [`PageCache::flush`] evicts entry `e`: clean, not being read or written, and not
/// referenced.
pub open spec fn evictable(e: CacheEntry) -> bool {
    e.flags & (DIRTY | WRITING | READING) == 0 && e.refs == 0
}

/// The entries of `s` that [`PageCache::flush`] keeps, in order.
pub open spec fn kept_entries(s: Seq<CacheEntry>) -> Seq<CacheEntry>
    decreases s.len(),
{
    if s.len() == 0 {
        s
    } else if evictable(s.last()) {
        kept_entries(s.drop_last())
    } else {
        kept_entries(s.drop_last()).push(s.last())
    }
}

/// The pages of the entries of `s`, of 2^`order` pages each, for which `gone` holds.
pub open spec fn freed_pages(s: Seq<CacheEntry>, order: u8, gone: spec_fn(CacheEntry) -> bool) -> Set<int> {
    Set::new(
        |p: int|
            exists|i: int|
                0 <= i < s.len() && gone(#[trigger] s[i]) && s[i].paddr as int / PAGE_SIZE as int <= p < s[i].paddr as int
                    / PAGE_SIZE as int + pow2(order as nat),
    )
}

/// The pages of the entries of `s`, of 2^`order` pages each, that [`PageCache::flush`] evicts.
pub open spec fn evicted_pages(s: Seq<CacheEntry>, order: u8) -> Set<int> {
    freed_pages(s, order, |e: CacheEntry| evictable(e))
}

/// The cached byte at offset `a` of the object, with entries of `eb` bytes, if its entry is
/// cached.
pub open spec fn byte_at(s: Seq<CacheEntry>, eb: nat, a: int) -> Option<u8> {
    let p = find(s, (a / eb as int) as u64);
    if p < s.len() {
        Some(s[p].data@[a % eb as int])
    } else {
        None
    }
}

/// Every byte of the object cached in `s` is still cached in `t`, with the same value.
pub open spec fn keeps_bytes(s: Seq<CacheEntry>, t: Seq<CacheEntry>, eb: nat) -> bool {
    forall|a: int| 0 <= a <= u64::MAX && #[trigger] byte_at(s, eb, a) is Some ==> byte_at(t, eb, a) == byte_at(s, eb, a)
}

/// Whether the entry that holds byte `a` of the object, with entries of `eb` bytes, is cached
/// and dirty.
pub open spec fn dirty_at(s: Seq<CacheEntry>, eb: nat, a: int) -> bool {
    let p = find(s, (a / eb as int) as u64);
    p < s.len() && s[p].flags & DIRTY != 0
}

/// How many entries of `s` `f` holds of.
pub open spec fn count_where(s: Seq<CacheEntry>, f: spec_fn(CacheEntry) -> bool) -> nat
    decreases s.len(),
{
    if s.len() == 0 {
        0
    } else {
        count_where(s.drop_last(), f) + if f(s.last()) { 1nat } else { 0nat }
    }
}

/// Whether entry `e` is waiting to be written back: dirty and not being written already.
pub open spec fn needs_write(e: CacheEntry) -> bool {
    e.flags & (DIRTY | WRITING) == DIRTY
}

/// What writing back the entries numbered in `list` did to the entries `s`, giving `t`: each
/// keeps its number, address, references and bytes; an entry that was not listed or not
/// waiting for a write keeps its flags; a listed one that was is clean, or dirty again after a
/// write that failed, or as it was if the writing stopped before it; `all_ok` says that no
/// write failed, and then every listed entry that was waiting is clean; otherwise a listed
/// entry that was waiting is dirty again, the one whose write failed.
pub open spec fn synced(s: Seq<CacheEntry>, t: Seq<CacheEntry>, list: Seq<u64>, all_ok: bool) -> bool {
    &&& !all_ok ==> write_failed(s, t, list)
    &&& t.len() == s.len()
    &&& forall|j: int| 0 <= j < s.len() ==> (#[trigger] t[j])@ == EntryView { flags: t[j].flags, ..s[j]@ }
    &&& forall|j: int| 0 <= j < s.len() && !(list.contains(s[j].index) && needs_write(s[j])) ==> (#[trigger] t[j]).flags
        == s[j].flags
    &&& forall|j: int| 0 <= j < s.len() && list.contains(s[j].index) && needs_write(s[j]) ==> {
        ||| (#[trigger] t[j]).flags == 0
        ||| !all_ok && (t[j].flags == DIRTY || t[j].flags == s[j].flags)
    }
}

/// Some entry numbered in `list` that was waiting for a write in `s` is dirty again in `t`.
pub open spec fn write_failed(s: Seq<CacheEntry>, t: Seq<CacheEntry>, list: Seq<u64>) -> bool {
    exists|j: int| 0 <= j < s.len() && list.contains(s[j].index) && needs_write(s[j]) && #[trigger] t[j].flags == DIRTY
}

/// A write-back of a list of entries none of which waits for a write succeeds.
pub proof fn lemma_nothing_to_write(s: Seq<CacheEntry>, t: Seq<CacheEntry>, list: Seq<u64>, all_ok: bool)
    requires
        synced(s, t, list, all_ok),
        forall|j: int| 0 <= j < s.len() && list.contains(s[j].index) ==> !needs_write(#[trigger] s[j]),
    ensures
        all_ok,
{
}

proof fn lemma_synced_step(
    s0: Seq<CacheEntry>,
    s: Seq<CacheEntry>,
    t: Seq<CacheEntry>,
    list: Seq<u64>,
    i: int,
    p: int,
    ok: bool,
)
    requires
        0 <= i < list.len(),
        synced(s0, s, list.take(i), true),
        sorted(s),
        0 <= p < s.len(),
        s[p].index == list[i],
        t.len() == s.len(),
        forall|j: int| 0 <= j < s.len() && j != p ==> #[trigger] t[j] == s[j],
        t[p]@ == (EntryView { flags: t[p].flags, ..s[p]@ }),
        !needs_write(s[p]) ==> ok && t[p].flags == s[p].flags,
        needs_write(s[p]) ==> t[p].flags == (if ok { 0 } else { DIRTY }),
    ensures
        synced(s0, t, list.take(i + 1), ok),
{
    assert(list.take(i + 1) =~= list.take(i).push(list[i]));
    assert forall|j: int| 0 <= j < s0.len() && !(list.take(i + 1).contains(s0[j].index) && needs_write(s0[j]))
        implies (#[trigger] t[j]).flags == s0[j].flags by {
        assert(s[j]@ == (EntryView { flags: s[j].flags, ..s0[j]@ }));
        if j == p {
            assert(list.take(i + 1)[i] == list[i]);
            assert(list.take(i + 1).contains(s0[j].index));
        } else if list.take(i).contains(s0[j].index) {
            let q = choose|q: int| 0 <= q < list.take(i).len() && #[trigger] list.take(i)[q] == s0[j].index;
            assert(list.take(i + 1)[q] == s0[j].index);
        }
    }
    assert forall|j: int| 0 <= j < s0.len() && list.take(i + 1).contains(s0[j].index) && needs_write(s0[j]) implies {
        ||| (#[trigger] t[j]).flags == 0
        ||| !ok && (t[j].flags == DIRTY || t[j].flags == s0[j].flags)
    } by {
        if j != p {
            if !list.take(i).contains(s0[j].index) {
                let q = choose|q: int| 0 <= q < list.take(i + 1).len() && #[trigger] list.take(i + 1)[q] == s0[j].index;
                assert(q == i);
                assert(s[j].index == s[p].index);
            }
        } else if list.take(i).contains(s0[j].index) {
            assert(s[p].flags == 0 || s[p].flags == s0[p].flags);
        }
    }
    if !ok {
        let f0 = s0[p].flags;
        assert(s[p]@ == (EntryView { flags: s[p].flags, ..s0[p]@ }));
        assert(0u32 & (1u32 | 2u32) != 1u32) by (bit_vector);
        assert(needs_write(s[p]));
        assert(s[p].flags == s0[p].flags);
        assert(list.take(i + 1)[i] == list[i]);
        assert(list.take(i + 1).contains(s0[p].index));
        assert(t[p].flags == DIRTY);
    }
}

/// The block of entry `k` can be given back to the allocator.
proof fn lemma_free_block_ok(c: PageCache, pmm: PhysAllocator, k: int)
    requires
        c.wf(),
        0 <= k < c.entries@.len(),
        entry_owned(c.entries@[k], c.entry_pages_exp, pmm),
    ensures
        c.entry_pages_exp < MAX_ORDER,
        c.entries@[k].paddr % PAGE_SIZE == 0,
        (c.entries@[k].paddr / PAGE_SIZE) as int % pow2(c.entry_pages_exp as nat) as int == 0,
        pmm.range_start() <= c.entries@[k].paddr / PAGE_SIZE,
        c.entries@[k].paddr / PAGE_SIZE + pow2(c.entry_pages_exp as nat) <= pmm.range_end(),
        forall|p: int| block_set((c.entries@[k].paddr / PAGE_SIZE) as int, c.entry_pages_exp as nat).contains(p)
            ==> #[trigger] pmm.usage_of(p) != PageUsage::Free,
        pmm.usage_of((c.entries@[k].paddr / PAGE_SIZE) as int) != PageUsage::KernelSegment,
{
    lemma_pow2_pos_int(c.entry_pages_exp as nat);
    let ppn = (c.entries@[k].paddr / PAGE_SIZE) as int;
    assert(pmm.usage_of(ppn) == PageUsage::Cache);
}

/// Pages of two different entries of a cache that owns them lie apart.
proof fn lemma_entries_apart(c: PageCache, pmm: PhysAllocator, i: int, j: int, p: int)
    requires
        c.wf(),
        c.owned(pmm),
        0 <= i < c.entries@.len(),
        0 <= j < c.entries@.len(),
        i != j,
        (c.entries@[j].paddr / PAGE_SIZE) as int <= p < (c.entries@[j].paddr / PAGE_SIZE) as int + pow2(c.entry_pages_exp as nat),
    ensures
        !((c.entries@[i].paddr / PAGE_SIZE) as int <= p < (c.entries@[i].paddr / PAGE_SIZE) as int + pow2(c.entry_pages_exp as nat)),
{
    lemma_entry_bytes(c);
    let n = pow2(c.entry_pages_exp as nat) as int;
    let a = c.entries@[i].paddr as int;
    let b = c.entries@[j].paddr as int;
    assert(a + n * 4096 <= b || b + n * 4096 <= a);
    assert(a % 4096 == 0 && b % 4096 == 0);
    assert(a / 4096 + n <= b / 4096 || b / 4096 + n <= a / 4096) by (nonlinear_arith)
        requires
            a + n * 4096 <= b || b + n * 4096 <= a,
            a % 4096 == 0,
            b % 4096 == 0,
            a >= 0,
            b >= 0,
    ;
}

/// Giving back the block of entry `k` while freeing the entries for which `gone` holds.
proof fn lemma_after_evict(
    c0: PageCache,
    pm0: PhysAllocator,
    pm1: PhysAllocator,
    pm2: PhysAllocator,
    k: int,
    gone: spec_fn(CacheEntry) -> bool,
)
    requires
        c0.wf(),
        c0.owned(pm0),
        0 <= k < c0.entries@.len(),
        gone(c0.entries@[k]),
        pm1.free_set() == pm0.free_set().union(freed_pages(c0.entries@.take(k), c0.entry_pages_exp, gone)),
        forall|q: int| 0 <= q < c0.entries@.len() && (q >= k || !gone(c0.entries@[q]))
            ==> entry_owned(#[trigger] c0.entries@[q], c0.entry_pages_exp, pm1),
        pm2.range_start() == pm1.range_start() && pm2.range_end() == pm1.range_end(),
        pm2.free_set() == pm1.free_set().union(block_set((c0.entries@[k].paddr / PAGE_SIZE) as int, c0.entry_pages_exp as nat)),
        forall|p: int| #[trigger] pm2.usage_of(p) == if block_set((c0.entries@[k].paddr / PAGE_SIZE) as int, c0.entry_pages_exp as nat).contains(p) {
            PageUsage::Free
        } else {
            pm1.usage_of(p)
        },
    ensures
        pm2.free_set() == pm0.free_set().union(freed_pages(c0.entries@.take(k + 1), c0.entry_pages_exp, gone)),
        forall|q: int| 0 <= q < c0.entries@.len() && (q >= k + 1 || !gone(c0.entries@[q]))
            ==> entry_owned(#[trigger] c0.entries@[q], c0.entry_pages_exp, pm2),
{
    let s = c0.entries@;
    let order = c0.entry_pages_exp;
    let t0 = s.take(k);
    let t1 = s.take(k + 1);
    let blk = block_set((s[k].paddr / PAGE_SIZE) as int, order as nat);
    assert(freed_pages(t1, order, gone) =~= freed_pages(t0, order, gone).union(blk)) by {
        assert forall|p: int| freed_pages(t1, order, gone).contains(p) implies freed_pages(t0, order, gone).union(blk).contains(p) by {
            let i = choose|i: int|
                0 <= i < t1.len() && gone(#[trigger] t1[i]) && t1[i].paddr as int / PAGE_SIZE as int <= p < t1[i].paddr as int
                    / PAGE_SIZE as int + pow2(order as nat);
            if i < k {
                assert(t0[i] == t1[i]);
            }
        }
        assert forall|p: int| freed_pages(t0, order, gone).union(blk).contains(p) implies freed_pages(t1, order, gone).contains(p) by {
            if freed_pages(t0, order, gone).contains(p) {
                let i = choose|i: int|
                    0 <= i < t0.len() && gone(#[trigger] t0[i]) && t0[i].paddr as int / PAGE_SIZE as int <= p < t0[i].paddr as int
                        / PAGE_SIZE as int + pow2(order as nat);
                assert(t1[i] == t0[i]);
            } else {
                assert(t1[k] == s[k]);
            }
        }
    }
    assert(pm2.free_set() =~= pm0.free_set().union(freed_pages(t1, order, gone)));
    assert forall|q: int| 0 <= q < s.len() && (q >= k + 1 || !gone(s[q])) implies entry_owned(#[trigger] s[q], order, pm2) by {
        assert(q != k);
        assert(entry_owned(s[q], order, pm1));
        let b = (s[q].paddr / PAGE_SIZE) as int;
        assert forall|p: int| b <= p < b + pow2(order as nat) implies #[trigger] pm2.usage_of(p) == PageUsage::Cache by {
            lemma_entries_apart(c0, pm0, k, q, p);
        }
    }
}

/// An entry for which `gone` does not hold adds no freed pages.
proof fn lemma_evicted_step(s: Seq<CacheEntry>, order: u8, k: int, gone: spec_fn(CacheEntry) -> bool)
    requires
        0 <= k < s.len(),
        !gone(s[k]),
    ensures
        freed_pages(s.take(k + 1), order, gone) == freed_pages(s.take(k), order, gone),
{
    let t0 = s.take(k);
    let t1 = s.take(k + 1);
    assert forall|p: int| freed_pages(t1, order, gone).contains(p) implies freed_pages(t0, order, gone).contains(p) by {
        let i = choose|i: int|
            0 <= i < t1.len() && gone(#[trigger] t1[i]) && t1[i].paddr as int / PAGE_SIZE as int <= p < t1[i].paddr as int
                / PAGE_SIZE as int + pow2(order as nat);
        assert(i != k);
        assert(t0[i] == t1[i]);
    }
    assert forall|p: int| freed_pages(t0, order, gone).contains(p) implies freed_pages(t1, order, gone).contains(p) by {
        let i = choose|i: int|
            0 <= i < t0.len() && gone(#[trigger] t0[i]) && t0[i].paddr as int / PAGE_SIZE as int <= p < t0[i].paddr as int
                / PAGE_SIZE as int + pow2(order as nat);
        assert(t1[i] == t0[i]);
    }
    assert(freed_pages(t1, order, gone) =~= freed_pages(t0, order, gone));
}

/// Where the entries that a flush keeps came from in `s`: strictly increasing positions of
/// entries that are not evicted.
proof fn lemma_kept_positions(s: Seq<CacheEntry>) -> (pos: Seq<int>)
    ensures
        pos.len() == kept_entries(s).len(),
        forall|m: int| 0 <= m < pos.len() ==> 0 <= #[trigger] pos[m] < s.len() && kept_entries(s)[m] == s[pos[m]]
            && !evictable(s[pos[m]]),
        forall|a: int, b: int| 0 <= a < b < pos.len() ==> #[trigger] pos[a] < #[trigger] pos[b],
    decreases s.len(),
{
    if s.len() == 0 {
        Seq::empty()
    } else {
        let t = s.drop_last();
        let p0 = lemma_kept_positions(t);
        if evictable(s.last()) {
            assert forall|m: int| 0 <= m < p0.len() implies 0 <= #[trigger] p0[m] < s.len() && kept_entries(s)[m] == s[p0[m]]
                && !evictable(s[p0[m]]) by {
                assert(s[p0[m]] == t[p0[m]]);
            }
            p0
        } else {
            let pos = p0.push(s.len() - 1);
            assert forall|m: int| 0 <= m < pos.len() implies 0 <= #[trigger] pos[m] < s.len() && kept_entries(s)[m] == s[pos[m]]
                && !evictable(s[pos[m]]) by {
                if m < p0.len() {
                    assert(s[p0[m]] == t[p0[m]]);
                }
            }
            pos
        }
    }
}

/// The entries a flush keeps are sorted, well formed and owned, and lie apart.
proof fn lemma_kept_ok(c0: PageCache, pm0: PhysAllocator, pm: PhysAllocator)
    requires
        c0.wf(),
        c0.owned(pm0),
        forall|q: int| 0 <= q < c0.entries@.len() && (q >= c0.entries@.len() || !evictable(c0.entries@[q]))
            ==> entry_owned(#[trigger] c0.entries@[q], c0.entry_pages_exp, pm),
    ensures
        ({
            let s = kept_entries(c0.entries@);
            &&& sorted(s)
            &&& forall|i: int| 0 <= i < s.len() ==> {
                &&& (#[trigger] s[i]).data@.len() == c0.entry_bytes()
                &&& s[i].paddr != 0
                &&& s[i].paddr % PAGE_SIZE == 0
                &&& s[i].paddr + c0.entry_bytes() <= usize::MAX
            }
            &&& forall|i: int| 0 <= i < s.len() ==> entry_owned(#[trigger] s[i], c0.entry_pages_exp, pm)
            &&& forall|i: int, j: int| 0 <= i < s.len() && 0 <= j < s.len() && i != j
                ==> #[trigger] s[i].paddr + c0.entry_bytes() <= #[trigger] s[j].paddr || s[j].paddr + c0.entry_bytes() <= s[i].paddr
        }),
{
    let o = c0.entries@;
    let s = kept_entries(o);
    let pos = lemma_kept_positions(o);
    assert forall|i: int, j: int| 0 <= i < j < s.len() implies (#[trigger] s[i]).index < (#[trigger] s[j]).index by {
        assert(pos[i] < pos[j]);
        assert(s[i] == o[pos[i]] && s[j] == o[pos[j]]);
    }
    assert forall|i: int| 0 <= i < s.len() implies entry_owned(#[trigger] s[i], c0.entry_pages_exp, pm) by {
        assert(s[i] == o[pos[i]]);
    }
    assert forall|i: int| 0 <= i < s.len() implies {
        &&& (#[trigger] s[i]).data@.len() == c0.entry_bytes()
        &&& s[i].paddr != 0
        &&& s[i].paddr % PAGE_SIZE == 0
        &&& s[i].paddr + c0.entry_bytes() <= usize::MAX
    } by {
        assert(s[i] == o[pos[i]]);
    }
    assert forall|i: int, j: int| 0 <= i < s.len() && 0 <= j < s.len() && i != j
        implies #[trigger] s[i].paddr + c0.entry_bytes() <= #[trigger] s[j].paddr || s[j].paddr + c0.entry_bytes() <= s[i].paddr by {
        assert(s[i] == o[pos[i]] && s[j] == o[pos[j]]);
        if i < j {
            assert(pos[i] < pos[j]);
        } else {
            assert(pos[j] < pos[i]);
        }
    }
}

/// In sorted entries, an entry numbered `k` is the one [`find`] finds.
proof fn lemma_find_at(s: Seq<CacheEntry>, k: u64, q: int)
    requires
        sorted(s),
        0 <= q < s.len(),
        s[q].index == k,
    ensures
        find(s, k) == q,
{
    lemma_find(s, k);
}

proof fn lemma_lower_bound_same(s: Seq<CacheEntry>, t: Seq<CacheEntry>, k: u64, from: int)
    requires
        t.len() == s.len(),
        forall|i: int| 0 <= i < s.len() ==> #[trigger] t[i].index == s[i].index,
    ensures
        lower_bound(t, k, from) == lower_bound(s, k, from),
    decreases s.len() - from,
{
    if 0 <= from < s.len() && s[from].index < k {
        lemma_lower_bound_same(s, t, k, from + 1);
    }
}

/// Entries with the same numbers and bytes hold the same bytes.
proof fn lemma_same_bytes(s: Seq<CacheEntry>, t: Seq<CacheEntry>, eb: nat)
    requires
        t.len() == s.len(),
        forall|i: int| 0 <= i < s.len() ==> #[trigger] t[i].index == s[i].index && t[i].data@ == s[i].data@,
    ensures
        forall|a: int| #[trigger] byte_at(t, eb, a) == byte_at(s, eb, a),
        keeps_bytes(s, t, eb),
{
    assert forall|a: int| #[trigger] byte_at(t, eb, a) == byte_at(s, eb, a) by {
        let k = (a / eb as int) as u64;
        lemma_lower_bound_same(s, t, k, 0);
        lemma_lower_bound(s, k, 0);
        let p = lower_bound(s, k, 0);
        if 0 <= p < s.len() {
            assert(t[p].index == s[p].index && t[p].data@ == s[p].data@);
        }
        assert(find(t, k) == find(s, k));
        if find(s, k) < s.len() {
            assert(t[find(s, k)].data@ == s[find(s, k)].data@);
        }
    }
}

/// Adding an entry for a number that had none keeps every cached byte.
proof fn lemma_insert_bytes(s: Seq<CacheEntry>, t: Seq<CacheEntry>, lb: int, eb: nat)
    requires
        sorted(s),
        sorted(t),
        0 <= lb <= s.len(),
        t.len() == s.len() + 1,
        forall|i: int| 0 <= i < lb ==> #[trigger] t[i]@ == s[i]@,
        forall|i: int| lb < i < t.len() ==> #[trigger] t[i]@ == s[i - 1]@,
    ensures
        keeps_bytes(s, t, eb),
{
    assert forall|a: int| 0 <= a <= u64::MAX && #[trigger] byte_at(s, eb, a) is Some implies byte_at(t, eb, a) == byte_at(
        s,
        eb,
        a,
    ) by {
        let k = (a / eb as int) as u64;
        lemma_find(s, k);
        let p = find(s, k);
        let q = if p < lb { p } else { p + 1 };
        assert(t[q]@ == s[p]@);
        lemma_find_at(t, k, q);
    }
}

/// Changing what entry `p` holds only at offsets `lo..hi` of it keeps every other cached byte.
proof fn lemma_update_bytes(s: Seq<CacheEntry>, t: Seq<CacheEntry>, p: int, lo: int, hi: int, eb: nat)
    requires
        sorted(s),
        t.len() == s.len(),
        0 <= p < s.len(),
        forall|i: int| 0 <= i < s.len() ==> #[trigger] t[i].index == s[i].index,
        forall|i: int| 0 <= i < s.len() && i != p ==> #[trigger] t[i].data@ == s[i].data@,
        t[p].data@.len() == s[p].data@.len(),
        s[p].data@.len() == eb,
        forall|o: int| 0 <= o < s[p].data@.len() && !(lo <= o < hi) ==> #[trigger] t[p].data@[o] == s[p].data@[o],
        eb > 0,
    ensures
        forall|a: int| 0 <= a <= u64::MAX && !(s[p].index * eb + lo <= a < s[p].index * eb + hi) && #[trigger] byte_at(s, eb, a) is Some
            ==> byte_at(t, eb, a) == byte_at(s, eb, a),
{
    assert forall|a: int| 0 <= a <= u64::MAX && !(s[p].index * eb + lo <= a < s[p].index * eb + hi) && #[trigger] byte_at(s, eb, a) is Some
        implies byte_at(t, eb, a) == byte_at(s, eb, a) by {
        let k = (a / eb as int) as u64;
        lemma_lower_bound_same(s, t, k, 0);
        lemma_find(s, k);
        let q = find(s, k);
        let lb = lower_bound(s, k, 0);
        if 0 <= lb < s.len() {
            assert(t[lb].index == s[lb].index);
        }
        assert(find(t, k) == q);
        if q != p {
            assert(t[q].data@ == s[q].data@);
        }
        if q == p {
            let o = a % eb as int;
            assert(0 <= a / eb as int <= a) by (nonlinear_arith)
                requires
                    eb > 0,
                    a >= 0,
            ;
            assert(a == k * eb + o && 0 <= o < eb) by (nonlinear_arith)
                requires
                    eb > 0,
                    k == a / eb as int,
                    o == a % eb as int,
                    a >= 0,
            ;
        }
    }
}

/// The page that holds byte `c` lies in the same entry of `eb` bytes as `c`, for an entry size
/// that is a whole number of pages.
proof fn lemma_same_entry(c: int, eb: int)
    requires
        c >= 0,
        eb >= 4096,
        eb % 4096 == 0,
    ensures
        (c - c % 4096) / eb == c / eb,
        c % eb == (c - c % 4096) % eb + c % 4096,
        (c - c % 4096) % eb + 4096 <= eb,
{
    let m = c % 4096;
    let pb = c - m;
    lemma_fundamental_div_mod(c, 4096);
    lemma_mod_pos_bound(c, 4096);
    let pq = c / 4096;
    assert(pb == pq * 4096);
    let q = eb / 4096;
    lemma_fundamental_div_mod(eb, 4096);
    assert(eb == q * 4096);
    lemma_div_pos_is_pos(c, 4096);
    let a = pb / eb;
    let r = pb % eb;
    lemma_fundamental_div_mod(pb, eb);
    lemma_mod_pos_bound(pb, eb);
    assert(pb == a * eb + r);
    // r is a whole number of pages.
    let u = pq - a * q;
    assert(r == u * 4096) by (nonlinear_arith)
        requires
            pb == pq * 4096,
            pb == a * eb + r,
            eb == q * 4096,
            u == pq - a * q,
    ;
    assert(u < q) by (nonlinear_arith)
        requires
            r == u * 4096,
            r < eb,
            eb == q * 4096,
    ;
    assert(r + 4096 <= eb) by (nonlinear_arith)
        requires
            r == u * 4096,
            u < q,
            eb == q * 4096,
    ;
    assert(c == a * eb + (r + m));
    lemma_fundamental_div_mod_converse(c, eb, a, r + m);
}

/// Bytes within one page of `c`, up to the page's end, lie in the entry of `c`, at successive
/// offsets.
proof fn lemma_in_entry(c: int, i: int, eb: int)
    requires
        c >= 0,
        0 <= i < 4096 - c % 4096,
        eb >= 4096,
        eb % 4096 == 0,
    ensures
        (c + i) / eb == c / eb,
        (c + i) % eb == c % eb + i,
        c % eb + i < eb,
{
    lemma_same_entry(c, eb);
    let o = c % eb;
    assert(c == (c / eb) * eb + o && 0 <= o < eb) by (nonlinear_arith)
        requires
            eb > 0,
            o == c % eb,
            c >= 0,
    ;
    assert(o + i < eb);
    assert((c + i) / eb == c / eb && (c + i) % eb == o + i) by (nonlinear_arith)
        requires
            c == (c / eb) * eb + o,
            0 <= o,
            o + i < eb,
            i >= 0,
            eb > 0,
    ;
}

/// Once [`PageCache::alloc_page`] has succeeded for entry `k`, the entry is cached, so the next
/// request for it is served from the cache without reading it again; and every byte cached
/// before is still cached, with the same value.
pub proof fn lemma_alloc_keeps(s: Seq<CacheEntry>, t: Seq<CacheEntry>, k: u64, eb: nat)
    requires
        sorted(s),
        sorted(t),
        find(s, k) < s.len() ==> views(t) == views(s).update(find(s, k), EntryView { refs: refs_up(s[find(s, k)].refs), ..s[find(s, k)]@ }),
        find(s, k) == s.len() ==> views(t) == views(s).insert(lower_bound(s, k, 0), t[lower_bound(s, k, 0)]@) && t[lower_bound(s, k, 0)].index == k,
    ensures
        keeps_bytes(s, t, eb),
        find(t, k) < t.len(),
{
    lemma_find(s, k);
    let p = find(s, k);
    if p < s.len() {
        assert(views(t).len() == views(s).len());
        assert forall|i: int| 0 <= i < s.len() implies #[trigger] t[i].index == s[i].index && t[i].data@ == s[i].data@ by {
            assert(views(t)[i] == t[i]@);
            assert(views(s)[i] == s[i]@);
        }
        lemma_same_bytes(s, t, eb);
        lemma_find_at(t, k, p);
    } else {
        let lb = lower_bound(s, k, 0);
        assert(views(t).len() == views(s).len() + 1);
        assert forall|i: int| 0 <= i < lb implies #[trigger] t[i]@ == s[i]@ by {
            assert(views(t)[i] == t[i]@);
            assert(views(s)[i] == s[i]@);
        }
        assert forall|i: int| lb < i < t.len() implies #[trigger] t[i]@ == s[i - 1]@ by {
            assert(views(t)[i] == t[i]@);
            assert(views(s)[i - 1] == s[i - 1]@);
        }
        lemma_insert_bytes(s, t, lb, eb);
        lemma_find_at(t, k, lb);
    }
}

/// Entries that look alike hold the same bytes.
proof fn lemma_views_same_bytes(s: Seq<CacheEntry>, t: Seq<CacheEntry>, eb: nat)
    requires
        views(t) == views(s),
    ensures
        forall|a: int| #[trigger] byte_at(t, eb, a) == byte_at(s, eb, a),
{
    assert(views(t).len() == t.len());
    assert(views(s).len() == s.len());
    assert forall|i: int| 0 <= i < s.len() implies #[trigger] t[i].index == s[i].index && t[i].data@ == s[i].data@ by {
        assert(views(t)[i] == t[i]@);
        assert(views(s)[i] == s[i]@);
        assert(t[i]@ == s[i]@);
        assert(t[i]@.index == t[i].index && s[i]@.index == s[i].index);
        assert(t[i]@.data == t[i].data@ && s[i]@.data == s[i].data@);
    }
    assert(forall|i: int| 0 <= i < s.len() ==> #[trigger] t[i].index == s[i].index && t[i].data@ == s[i].data@);
    lemma_same_bytes(s, t, eb);
}

/// Entries with the same numbers that stay dirty where they were keep every dirty byte dirty.
proof fn lemma_dirty_same(s: Seq<CacheEntry>, t: Seq<CacheEntry>, eb: nat)
    requires
        t.len() == s.len(),
        forall|i: int| 0 <= i < s.len() ==> #[trigger] t[i].index == s[i].index && (s[i].flags & DIRTY != 0 ==> t[i].flags
            & DIRTY != 0),
    ensures
        forall|a: int| #[trigger] dirty_at(s, eb, a) ==> dirty_at(t, eb, a),
{
    assert forall|a: int| #[trigger] dirty_at(s, eb, a) implies dirty_at(t, eb, a) by {
        let k = (a / eb as int) as u64;
        lemma_lower_bound_same(s, t, k, 0);
        lemma_lower_bound(s, k, 0);
        let p = lower_bound(s, k, 0);
        if 0 <= p < s.len() {
            assert(t[p].index == s[p].index);
            assert(s[p].flags & DIRTY != 0 ==> t[p].flags & DIRTY != 0);
        }
    }
}

/// What [`PageCache::alloc_page`] does when it succeeds keeps every dirty byte dirty.
proof fn lemma_alloc_keeps_dirty(s: Seq<CacheEntry>, t: Seq<CacheEntry>, k: u64, eb: nat)
    requires
        sorted(s),
        sorted(t),
        find(s, k) < s.len() ==> views(t) == views(s).update(find(s, k), EntryView { refs: refs_up(s[find(s, k)].refs), ..s[find(s, k)]@ }),
        find(s, k) == s.len() ==> views(t) == views(s).insert(lower_bound(s, k, 0), t[lower_bound(s, k, 0)]@) && t[lower_bound(s, k, 0)].index == k,
    ensures
        forall|a: int| #[trigger] dirty_at(s, eb, a) ==> dirty_at(t, eb, a),
{
    lemma_find(s, k);
    let p = find(s, k);
    if p < s.len() {
        assert(views(t).len() == views(s).len());
        assert forall|i: int| 0 <= i < s.len() implies #[trigger] t[i].index == s[i].index && (s[i].flags & DIRTY != 0
            ==> t[i].flags & DIRTY != 0) by {
            assert(views(t)[i] == t[i]@);
            assert(views(s)[i] == s[i]@);
        }
        lemma_dirty_same(s, t, eb);
    } else {
        let lb = lower_bound(s, k, 0);
        assert(views(t).len() == views(s).len() + 1);
        assert forall|a: int| #[trigger] dirty_at(s, eb, a) implies dirty_at(t, eb, a) by {
            let j = (a / eb as int) as u64;
            lemma_find(s, j);
            let q = find(s, j);
            let q2 = if q < lb { q } else { q + 1 };
            assert(views(t)[q2] == t[q2]@);
            assert(views(s)[q] == s[q]@);
            lemma_find_at(t, j, q2);
        }
    }
}

/// Marking entry `p`, numbered `k`, dirty keeps every byte and every dirty byte dirty, and makes
/// the bytes of entry `k` dirty.
proof fn lemma_mark_keeps(s: Seq<CacheEntry>, t: Seq<CacheEntry>, k: u64, p: int, eb: nat)
    requires
        sorted(s),
        0 <= p < s.len(),
        s[p].index == k,
        find(s, k) < s.len() ==> views(t) == views(s).update(find(s, k), EntryView { flags: s[find(s, k)].flags | DIRTY, ..s[find(s, k)]@ }),
        find(s, k) == s.len() ==> views(t) == views(s),
    ensures
        t.len() == s.len(),
        forall|i: int| 0 <= i < s.len() ==> #[trigger] t[i].index == s[i].index && t[i].data@ == s[i].data@
            && t[i].paddr == s[i].paddr,
        forall|a: int| #[trigger] byte_at(t, eb, a) == byte_at(s, eb, a),
        forall|a: int| #[trigger] dirty_at(s, eb, a) ==> dirty_at(t, eb, a),
        t[p].flags & DIRTY != 0,
        sorted(t),
{
    lemma_find_at(s, k, p);
    assert(views(t).len() == views(s).len());
    assert(views(t).len() == t.len());
    assert(views(s).len() == s.len());
    assert forall|i: int| 0 <= i < s.len() implies #[trigger] t[i].index == s[i].index && t[i].data@ == s[i].data@
        && t[i].paddr == s[i].paddr by {
        assert(views(t)[i] == t[i]@);
        assert(views(s)[i] == s[i]@);
    }
    assert forall|i: int| 0 <= i < s.len() implies #[trigger] t[i].index == s[i].index && (s[i].flags & DIRTY != 0
        ==> t[i].flags & DIRTY != 0) by {
        assert(views(t)[i] == t[i]@);
        assert(views(s)[i] == s[i]@);
        let f = s[i].flags;
        assert(f & 1 != 0 ==> (f | 1) & 1 != 0) by (bit_vector);
    }
    let f = s[p].flags;
    assert((f | 1) & 1 != 0) by (bit_vector);
    assert(views(t)[p] == t[p]@);
    lemma_same_bytes(s, t, eb);
    lemma_dirty_same(s, t, eb);
    assert forall|i: int, j: int| 0 <= i < j < t.len() implies (#[trigger] t[i]).index < (#[trigger] t[j]).index by {
        assert(s[i].index < s[j].index);
    }
}

/// Giving back a reference keeps every dirty byte dirty.
proof fn lemma_release_keeps_dirty(s: Seq<CacheEntry>, t: Seq<CacheEntry>, k: u64, eb: nat)
    requires
        sorted(s),
        find(s, k) == s.len() ==> views(t) == views(s),
        find(s, k) < s.len() ==> views(t) == views(s).update(find(s, k), EntryView { refs: refs_down(s[find(s, k)].refs), ..s[find(s, k)]@ }),
    ensures
        forall|a: int| #[trigger] dirty_at(s, eb, a) ==> dirty_at(t, eb, a),
{
    lemma_find(s, k);
    assert(views(t).len() == views(s).len());
    assert(views(t).len() == t.len());
    assert(views(s).len() == s.len());
    assert forall|i: int| 0 <= i < s.len() implies #[trigger] t[i].index == s[i].index && (s[i].flags & DIRTY != 0
        ==> t[i].flags & DIRTY != 0) by {
        assert(views(t)[i] == t[i]@);
        assert(views(s)[i] == s[i]@);
    }
    lemma_dirty_same(s, t, eb);
}

/// What copying `n` bytes into entry `p`, numbered `k`, at offset `off` does to the bytes of the
/// object: those from `cur` on are the copied ones, and the others stay.
proof fn lemma_copy_bytes(
    s1: Seq<CacheEntry>,
    s2: Seq<CacheEntry>,
    p: int,
    k: u64,
    off: int,
    cur: int,
    n: int,
    data: Seq<u8>,
    from: int,
    eb: nat,
)
    requires
        sorted(s1),
        eb >= 4096,
        eb % 4096 == 0,
        0 <= p < s1.len(),
        s1[p].index == k,
        s1[p].data@.len() == eb,
        k == cur / eb as int,
        off == cur % eb as int,
        k * eb + off == cur,
        cur >= 0,
        0 <= n <= 4096 - cur % 4096,
        0 <= from,
        from + n <= data.len(),
        s2.len() == s1.len(),
        forall|j: int| 0 <= j < s1.len() && j != p ==> #[trigger] s2[j] == s1[j],
        s2[p].index == s1[p].index,
        s2[p].flags == s1[p].flags,
        s2[p].data@.len() == s1[p].data@.len(),
        forall|o: int| 0 <= o < s1[p].data@.len() && !(off <= o < off + n) ==> #[trigger] s2[p].data@[o] == s1[p].data@[o],
        forall|o: int| off <= o < off + n ==> #[trigger] s2[p].data@[o] == data[from + o - off],
    ensures
        sorted(s2),
        forall|i: int| 0 <= i < n ==> #[trigger] byte_at(s2, eb, cur + i) == Some(data[from + i]),
        forall|a: int| 0 <= a <= u64::MAX && !(cur <= a < cur + n) && #[trigger] byte_at(s1, eb, a) is Some
            ==> byte_at(s2, eb, a) == byte_at(s1, eb, a),
        forall|a: int| #[trigger] dirty_at(s1, eb, a) ==> dirty_at(s2, eb, a),
{
    assert forall|i: int, j: int| 0 <= i < j < s2.len() implies (#[trigger] s2[i]).index < (#[trigger] s2[j]).index by {
        if i != p {
            assert(s2[i] == s1[i]);
        }
        if j != p {
            assert(s2[j] == s1[j]);
        }
    }
    assert forall|j: int| 0 <= j < s1.len() implies #[trigger] s2[j].index == s1[j].index && (s1[j].flags & DIRTY != 0
        ==> s2[j].flags & DIRTY != 0) by {
        if j != p {
            assert(s2[j] == s1[j]);
        }
    }
    lemma_dirty_same(s1, s2, eb);
    assert forall|j: int| 0 <= j < s1.len() && j != p implies #[trigger] s2[j].data@ == s1[j].data@ by {
        assert(s2[j] == s1[j]);
    }
    lemma_update_bytes(s1, s2, p, off, off + n, eb);
    lemma_find_at(s2, k, p);
    assert forall|i: int| 0 <= i < n implies #[trigger] byte_at(s2, eb, cur + i) == Some(data[from + i]) by {
        lemma_in_entry(cur, i, eb as int);
        assert(s2[p].data@[off + i] == data[from + i]);
    }
}

/// One step of [`PageCache::write_bytes`]: the bytes written so far are in place and dirty, and
/// the other bytes stay.
proof fn lemma_write_step(
    s0: Seq<CacheEntry>,
    s1: Seq<CacheEntry>,
    s2: Seq<CacheEntry>,
    s3: Seq<CacheEntry>,
    t: Seq<CacheEntry>,
    eb: nat,
    addr: int,
    progress: int,
    n: int,
    data: Seq<u8>,
    k: u64,
    p: int,
)
    requires
        eb >= 4096,
        addr >= 0,
        0 <= progress,
        0 <= n,
        progress + n <= data.len(),
        addr + progress + n <= u64::MAX,
        forall|a: int| 0 <= a <= u64::MAX && !(addr <= a < addr + progress) && #[trigger] byte_at(s0, eb, a) is Some
            ==> byte_at(s1, eb, a) == byte_at(s0, eb, a),
        forall|j: int| 0 <= j < progress ==> #[trigger] byte_at(s1, eb, addr + j) == Some(data[j]) && dirty_at(s1, eb, addr + j),
        forall|i: int| 0 <= i < n ==> #[trigger] byte_at(s2, eb, addr + progress + i) == Some(data[progress + i]),
        forall|a: int| 0 <= a <= u64::MAX && !(addr + progress <= a < addr + progress + n) && #[trigger] byte_at(s1, eb, a) is Some
            ==> byte_at(s2, eb, a) == byte_at(s1, eb, a),
        forall|a: int| #[trigger] dirty_at(s1, eb, a) ==> dirty_at(s2, eb, a),
        forall|a: int| #[trigger] byte_at(s3, eb, a) == byte_at(s2, eb, a),
        forall|a: int| #[trigger] dirty_at(s2, eb, a) ==> dirty_at(s3, eb, a),
        forall|i: int| 0 <= i < n ==> (#[trigger] ((addr + progress + i) / eb as int)) == k,
        0 <= p < s3.len(),
        s3[p].index == k,
        s3[p].flags & DIRTY != 0,
        find(s3, k) == p,
        forall|a: int| #[trigger] byte_at(t, eb, a) == byte_at(s3, eb, a),
        forall|a: int| #[trigger] dirty_at(s3, eb, a) ==> dirty_at(t, eb, a),
    ensures
        forall|j: int| 0 <= j < progress + n ==> #[trigger] byte_at(t, eb, addr + j) == Some(data[j]) && dirty_at(t, eb, addr + j),
        forall|a: int| 0 <= a <= u64::MAX && !(addr <= a < addr + progress + n) && #[trigger] byte_at(s0, eb, a) is Some
            ==> byte_at(t, eb, a) == byte_at(s0, eb, a),
{
    assert forall|j: int| 0 <= j < progress + n implies #[trigger] byte_at(t, eb, addr + j) == Some(data[j]) && dirty_at(t, eb, addr + j) by {
        if j < progress {
            assert(byte_at(s1, eb, addr + j) == Some(data[j]));
            assert(dirty_at(s1, eb, addr + j));
            assert(byte_at(s2, eb, addr + j) == byte_at(s1, eb, addr + j));
            assert(dirty_at(s2, eb, addr + j));
            assert(dirty_at(s3, eb, addr + j));
        } else {
            let i = j - progress;
            assert(byte_at(s2, eb, addr + progress + i) == Some(data[progress + i]));
            assert(addr + progress + i == addr + j);
            assert((addr + progress + i) / eb as int == k);
            assert(dirty_at(s3, eb, addr + j));
        }
    }
    assert forall|a: int| 0 <= a <= u64::MAX && !(addr <= a < addr + progress + n) && #[trigger] byte_at(s0, eb, a) is Some
        implies byte_at(t, eb, a) == byte_at(s0, eb, a) by {
        assert(byte_at(s1, eb, a) == byte_at(s0, eb, a));
        assert(byte_at(s2, eb, a) == byte_at(s1, eb, a));
    }
}

/// Giving back a reference changes no entry's number, address or bytes.
proof fn lemma_release_keeps(s: Seq<CacheEntry>, t: Seq<CacheEntry>, k: u64, eb: nat)
    requires
        sorted(s),
        find(s, k) == s.len() ==> views(t) == views(s),
        find(s, k) < s.len() ==> views(t) == views(s).update(find(s, k), EntryView { refs: refs_down(s[find(s, k)].refs), ..s[find(s, k)]@ }),
    ensures
        t.len() == s.len(),
        forall|i: int| 0 <= i < s.len() ==> #[trigger] t[i].index == s[i].index && t[i].data@ == s[i].data@
            && t[i].paddr == s[i].paddr,
        forall|a: int| #[trigger] byte_at(t, eb, a) == byte_at(s, eb, a),
{
    lemma_find(s, k);
    assert(views(t).len() == views(s).len());
    assert forall|i: int| 0 <= i < s.len() implies #[trigger] t[i].index == s[i].index && t[i].data@ == s[i].data@
        && t[i].paddr == s[i].paddr by {
        assert(views(t)[i] == t[i]@);
        assert(views(s)[i] == s[i]@);
    }
    lemma_same_bytes(s, t, eb);
}

/// After a write-back of all dirty entries that succeeded, no entry waits for a write: a second
/// write-back writes nothing.
pub proof fn lemma_sync_all_cleans(s: Seq<CacheEntry>, t: Seq<CacheEntry>)
    requires
        synced(s, t, dirty_in(s, 0, u64::MAX), true),
    ensures
        forall|i: int| 0 <= i < t.len() ==> !needs_write(#[trigger] t[i]),
        dirty_in(t, 0, u64::MAX).len() <= dirty_in(s, 0, u64::MAX).len(),
        forall|i: int| 0 <= i < t.len() && #[trigger] t[i].flags & DIRTY != 0 ==> t[i].flags & WRITING != 0,
        none_waiting(t, dirty_in(t, 0, u64::MAX)),
{
    assert forall|i: int| 0 <= i < t.len() implies !needs_write(#[trigger] t[i]) && (t[i].flags & DIRTY != 0
        ==> t[i].flags & WRITING != 0) && (t[i].flags & DIRTY != 0 ==> s[i].flags & DIRTY != 0) by {
        let f = s[i].flags;
        let g = t[i].flags;
        assert(t[i]@ == (EntryView { flags: t[i].flags, ..s[i]@ }));
        assert(f & (1u32 | 2u32) == 1u32 ==> f & 1u32 != 0) by (bit_vector);
        assert(0u32 & 1u32 == 0u32 && 0u32 & (1u32 | 2u32) != 1u32) by (bit_vector);
        assert(f & (1u32 | 2u32) != 1u32 ==> (f & 1u32 != 0 ==> f & 2u32 != 0)) by (bit_vector);
        if needs_write(s[i]) {
            lemma_dirty_in_has(s, 0, u64::MAX, i);
            assert(g == 0);
        } else {
            assert(g == f);
        }
    }
    lemma_dirty_in_len(t);
    lemma_dirty_in_len(s);
    lemma_no_dirty_left(s, t);
}

/// Every dirty entry's number is listed by [`dirty_in`] over the whole range.
proof fn lemma_dirty_in_has(s: Seq<CacheEntry>, lo: u64, hi: u64, i: int)
    requires
        0 <= i < s.len(),
        lo <= s[i].index <= hi,
        s[i].flags & DIRTY != 0,
    ensures
        dirty_in(s, lo, hi).contains(s[i].index),
    decreases s.len(),
{
    let t = s.drop_last();
    if i == s.len() - 1 {
        assert(dirty_in(s, lo, hi).last() == s[i].index);
        assert(dirty_in(s, lo, hi)[dirty_in(s, lo, hi).len() - 1] == s[i].index);
    } else {
        assert(t[i] == s[i]);
        lemma_dirty_in_has(t, lo, hi, i);
        let q = choose|q: int| 0 <= q < dirty_in(t, lo, hi).len() && #[trigger] dirty_in(t, lo, hi)[q] == s[i].index;
        assert(dirty_in(s, lo, hi)[q] == s[i].index);
    }
}

proof fn lemma_dirty_in_len(s: Seq<CacheEntry>)
    ensures
        dirty_in(s, 0, u64::MAX).len() == count_where(s, |e: CacheEntry| e.flags & DIRTY != 0),
    decreases s.len(),
{
    if s.len() > 0 {
        lemma_dirty_in_len(s.drop_last());
    }
}

proof fn lemma_no_dirty_left(s: Seq<CacheEntry>, t: Seq<CacheEntry>)
    requires
        t.len() == s.len(),
        forall|i: int| 0 <= i < t.len() ==> (#[trigger] t[i]).flags & DIRTY != 0 ==> s[i].flags & DIRTY != 0,
    ensures
        count_where(t, |e: CacheEntry| e.flags & DIRTY != 0) <= count_where(s, |e: CacheEntry| e.flags & DIRTY != 0),
    decreases s.len(),
{
    if s.len() > 0 {
        let n = s.len() - 1;
        assert forall|i: int| 0 <= i < t.drop_last().len() && (#[trigger] t.drop_last()[i]).flags & DIRTY != 0
            implies s.drop_last()[i].flags & DIRTY != 0 by {
            assert(t.drop_last()[i] == t[i]);
            assert(s.drop_last()[i] == s[i]);
        }
        lemma_no_dirty_left(s.drop_last(), t.drop_last());
        assert(t[n].flags & DIRTY != 0 ==> s[n].flags & DIRTY != 0);
    }
}

/// A flush keeps exactly the entries that are dirty, being read or written, or referenced, in
/// order: a clean entry nobody references is evicted, a dirty or referenced one stays.
pub proof fn lemma_flush_keeps(s: Seq<CacheEntry>, i: int)
    requires
        0 <= i < s.len(),
    ensures
        kept_entries(s).contains(s[i]) <== !evictable(s[i]),
        sorted(s) && evictable(s[i]) ==> !kept_entries(s).contains(s[i]),
    decreases s.len(),
{
    let t = s.drop_last();
    let pos = lemma_kept_positions(s);
    if !evictable(s[i]) {
        if i == s.len() - 1 {
            assert(kept_entries(s).last() == s[i]);
            assert(kept_entries(s)[kept_entries(s).len() - 1] == s[i]);
        } else {
            assert(t[i] == s[i]);
            lemma_flush_keeps(t, i);
            let q = choose|q: int| 0 <= q < kept_entries(t).len() && #[trigger] kept_entries(t)[q] == s[i];
            assert(kept_entries(s)[q] == s[i]);
        }
    }
    if sorted(s) && evictable(s[i]) && kept_entries(s).contains(s[i]) {
        let m = choose|m: int| 0 <= m < kept_entries(s).len() && #[trigger] kept_entries(s)[m] == s[i];
        let q = pos[m];
        assert(s[q] == s[i]);
        assert(!evictable(s[q]));
    }
}

/// The pages of entry `e` of 2^`order` pages are a block of `pmm` in use by the cache.
pub open spec fn entry_owned(e: CacheEntry, order: u8, pmm: PhysAllocator) -> bool {
    let ppn: int = e.paddr as int / PAGE_SIZE as int;
    &&& ppn % pow2(order as nat) as int == 0
    &&& pmm.range_start() <= ppn
    &&& ppn + pow2(order as nat) <= pmm.range_end()
    &&& forall|p: int| ppn <= p < ppn + pow2(order as nat) ==> #[trigger] pmm.usage_of(p) == PageUsage::Cache
}

} // verus!
