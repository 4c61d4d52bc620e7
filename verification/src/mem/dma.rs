//! DMA buffers and the scatter-gather lists they are collected into.
use vstd::prelude::*;
use crate::config::PAGE_SIZE;
use crate::errno::{Errno, EResult};
use crate::mem::map::KernelVmSpace;
use crate::mem::physmap::{PhysMap, Virt2Phys, v2p_ok};

verus! {

/// Scatter-gather list entry.
#[derive(Clone, Copy, Debug, PartialEq, Eq, Structural)]
pub struct ScatterGatherEntry {
    pub paddr: usize,
    pub vaddr: usize,
    pub size: usize,
}

/// DMA buffer; an object that can be collected into a scatter-gather list.
pub trait DmaTarget {
    /// Allow DMA to write into host memory (modifying `self`).
    fn allow_scatter(&self) -> bool;

    /// Allow DMA to read from host memory (reading from `self`).
    fn allow_gather(&self) -> bool;

    /// How many bytes there are to this object.
    fn size(&self) -> u64;
}

/// Whether the CPU may copy `length` bytes between a DMA target and a buffer of `data_len`
/// bytes: the target must allow that direction and the buffer must not be too small.
pub fn cpu_copy_allowed(allowed: bool, length: usize, data_len: usize) -> (r: EResult<()>)
    ensures
        !allowed || length > data_len ==> r == Err::<(), Errno>(Errno::EINVAL),
        allowed && length <= data_len ==> r is Ok,
{
    if !allowed || length > data_len {
        return Err(Errno::EINVAL);
    }
    Ok(())
}

/// How many pieces of at most `max` bytes `length` bytes are cut into.
pub open spec fn piece_count(length: nat, max: nat) -> nat {
    if max == 0 {
        0
    } else {
        ((length + max - 1) / (max as int)) as nat
    }
}

/// The size of piece `i` when `length` bytes are cut into pieces of `max` bytes, the last
/// one holding what is left.
pub open spec fn piece_size(length: nat, max: nat, i: int) -> nat {
    if length - i * max < max {
        (length - i * max) as nat
    } else {
        max
    }
}

/// The entries that cover `length` bytes from `vaddr` and `paddr` in pieces of at most `max`
/// bytes; each entry starts where the one before it ended, unless `advance` is false, in which
/// case they all start at `vaddr` and `paddr`.
pub open spec fn split_entries(vaddr: usize, paddr: usize, length: nat, max: nat, advance: bool) -> Seq<ScatterGatherEntry> {
    Seq::new(
        piece_count(length, max),
        |i: int|
            ScatterGatherEntry {
                paddr: if advance { (paddr + i * max) as usize } else { paddr },
                vaddr: if advance { (vaddr + i * max) as usize } else { vaddr },
                size: piece_size(length, max, i) as usize,
            },
    )
}

/// Once `k` full pieces of `max` bytes have been cut from `length` bytes and `rest` are left,
/// one more piece ends the cutting exactly when it takes all of the rest.
proof fn lemma_piece_count_step(length: nat, max: nat, k: nat, rest: nat)
    requires
        max > 0,
        rest > 0,
        length == k * max + rest,
    ensures
        rest <= max ==> piece_count(length, max) == k + 1,
        rest > max ==> piece_count(length, max) > k + 1,
        piece_size(length, max, k as int) == if rest < max { rest } else { max },
{
    assert(length - k * max == rest);
    if rest <= max {
        assert((k * max + rest + max - 1) / (max as int) == k + 1) by (nonlinear_arith)
            requires
                max > 0,
                0 < rest <= max,
        ;
    } else {
        assert((k * max + rest + max - 1) / (max as int) > k + 1) by (nonlinear_arith)
            requires
                max > 0,
                rest > max,
        ;
    }
}

/// Cut `length` bytes into entries of at most `max` bytes.
fn split(vaddr: usize, paddr: usize, length: usize, max: usize, advance: bool) -> (r: Vec<ScatterGatherEntry>)
    requires
        length > 0 ==> max > 0,
        advance ==> vaddr + length <= usize::MAX + 1 && paddr + length <= usize::MAX + 1,
    ensures
        r@ == split_entries(vaddr, paddr, length as nat, max as nat, advance),
{
    let mut r: Vec<ScatterGatherEntry> = Vec::new();
    let mut rest = length;
    let mut v = vaddr;
    let mut p = paddr;
    let ghost mut k: nat = 0;
    if length == 0 && max > 0 {
        assert((max - 1) / (max as int) == 0) by (nonlinear_arith)
            requires
                max > 0,
        ;
    }
    while rest > 0
        invariant
            length > 0 ==> max > 0,
            advance ==> vaddr + length <= usize::MAX + 1 && paddr + length <= usize::MAX + 1,
            rest <= length,
            rest > 0 ==> length == k * max + rest,
            rest > 0 ==> r@.len() == k,
            rest == 0 ==> r@.len() == piece_count(length as nat, max as nat),
            rest > 0 ==> v == if advance { vaddr + (length - rest) } else { vaddr as int },
            rest > 0 ==> p == if advance { paddr + (length - rest) } else { paddr as int },
            forall|i: int| 0 <= i < r@.len() ==> #[trigger] r@[i] == split_entries(vaddr, paddr, length as nat, max as nat, advance)[i],
            r@.len() <= piece_count(length as nat, max as nat),
        decreases rest,
    {
        proof {
            lemma_piece_count_step(length as nat, max as nat, k, rest as nat);
            assert(k * max == length - rest);
        }
        let m = if rest < max { rest } else { max };
        r.push(ScatterGatherEntry { paddr: p, vaddr: v, size: m });
        rest = rest - m;
        if advance && rest > 0 {
            v = v + m;
            p = p + m;
        }
        proof {
            assert(length == (k + 1) * max + rest || rest == 0) by (nonlinear_arith)
                requires
                    length == k * max + (rest + m),
                    m == max || rest == 0,
            ;
            k = k + 1;
        }
    }
    assert(r@ =~= split_entries(vaddr, paddr, length as nat, max as nat, advance));
    r
}

/// Lets you gather zeroes from the zeroes page as a DMA target.
pub struct DmaFillZero(pub u64);

impl DmaFillZero {
    /// Create an arbitrarily long span of zeroes.
    pub fn new(size: u64) -> (r: Self)
        ensures
            r.0 == size,
    {
        DmaFillZero(size)
    }

    /// Collect `length` bytes from `offset` into entries of at most `max_entry_size` bytes,
    /// and of at most a page, each of them the page of zeroes at `zeroes_vaddr` and
    /// `zeroes_paddr`; `EINVAL` if that runs past the end.
    pub fn collect(&self, offset: u64, length: u64, max_entry_size: usize, zeroes_vaddr: usize, zeroes_paddr: usize) -> (r: EResult<Vec<ScatterGatherEntry>>)
        requires
            offset + length <= u64::MAX,
            length <= usize::MAX,
            offset + length <= self.0 && length > 0 ==> max_entry_size > 0,
        ensures
            offset + length > self.0 ==> r == Err::<Vec<ScatterGatherEntry>, Errno>(Errno::EINVAL),
            offset + length <= self.0 ==> r is Ok && r->Ok_0@ == split_entries(
                zeroes_vaddr,
                zeroes_paddr,
                length as nat,
                if max_entry_size < PAGE_SIZE { max_entry_size as nat } else { PAGE_SIZE as nat },
                false,
            ),
    {
        let max = if max_entry_size < PAGE_SIZE { max_entry_size } else { PAGE_SIZE };
        if offset + length > self.0 {
            return Err(Errno::EINVAL);
        }
        Ok(split(zeroes_vaddr, zeroes_paddr, length as usize, max, false))
    }
}

impl DmaTarget for DmaFillZero {
    fn allow_scatter(&self) -> (r: bool)
        ensures
            !r,
    {
        false
    }

    fn allow_gather(&self) -> (r: bool)
        ensures
            r,
    {
        true
    }

    fn size(&self) -> (r: u64)
        ensures
            r == self.0,
    {
        self.0
    }
}

/// A DMA buffer given by where it lies in virtual and in physical memory.
pub struct DmaFromBuffer {
    vaddr: usize,
    len: usize,
    paddr: usize,
    scatter: bool,
}

impl DmaFromBuffer {
    /// The buffer lies in both address spaces.
    #[verifier::type_invariant]
    spec fn inv(self) -> bool {
        self.vaddr + self.len <= usize::MAX && self.paddr + self.len <= usize::MAX
    }

    /// Virtual address of the buffer.
    pub closed spec fn spec_vaddr(&self) -> usize {
        self.vaddr
    }

    /// Physical address of the buffer.
    pub closed spec fn spec_paddr(&self) -> usize {
        self.paddr
    }

    /// Length of the buffer in bytes.
    pub closed spec fn spec_len(&self) -> usize {
        self.len
    }

    /// Whether DMA writes into the buffer.
    pub closed spec fn is_scatter(&self) -> bool {
        self.scatter
    }

    /// A buffer of `len` bytes at `vaddr` that DMA reads from; the caller promises that it lies
    /// at physical address `paddr`.
    pub fn from_ref(vaddr: usize, len: usize, paddr: usize) -> (r: Self)
        requires
            vaddr + len <= usize::MAX,
            paddr + len <= usize::MAX,
        ensures
            r.spec_vaddr() == vaddr,
            r.spec_len() == len,
            r.spec_paddr() == paddr,
            !r.is_scatter(),
    {
        DmaFromBuffer { vaddr, len, paddr, scatter: false }
    }

    /// A buffer of `len` bytes at `vaddr` that DMA writes into; the caller promises that it
    /// lies at physical address `paddr`.
    pub fn from_mut(vaddr: usize, len: usize, paddr: usize) -> (r: Self)
        requires
            vaddr + len <= usize::MAX,
            paddr + len <= usize::MAX,
        ensures
            r.spec_vaddr() == vaddr,
            r.spec_len() == len,
            r.spec_paddr() == paddr,
            r.is_scatter(),
    {
        DmaFromBuffer { vaddr, len, paddr, scatter: true }
    }

    /// Collect `length` bytes from `offset` into entries of at most `max_entry_size` bytes;
    /// `EINVAL` if that runs past the end of the buffer.
    pub fn collect(&self, offset: u64, length: u64, max_entry_size: usize) -> (r: EResult<Vec<ScatterGatherEntry>>)
        requires
            offset + length <= u64::MAX,
            offset + length <= self.spec_len() && length > 0 ==> max_entry_size > 0,
        ensures
            offset + length > self.spec_len() ==> r == Err::<Vec<ScatterGatherEntry>, Errno>(Errno::EINVAL),
            offset + length <= self.spec_len() ==> r is Ok && r->Ok_0@ == split_entries(
                (self.spec_vaddr() + offset) as usize,
                (self.spec_paddr() + offset) as usize,
                length as nat,
                max_entry_size as nat,
                true,
            ),
    {
        proof {
            use_type_invariant(self);
        }
        if offset + length > self.len as u64 {
            return Err(Errno::EINVAL);
        }
        let v = self.vaddr + offset as usize;
        let p = self.paddr + offset as usize;
        Ok(split(v, p, length as usize, max_entry_size, true))
    }
}

impl DmaTarget for DmaFromBuffer {
    fn allow_scatter(&self) -> (r: bool)
        ensures
            r == self.is_scatter(),
    {
        self.scatter
    }

    fn allow_gather(&self) -> (r: bool)
        ensures
            r == !self.is_scatter(),
    {
        !self.scatter
    }

    fn size(&self) -> (r: u64)
        ensures
            r == self.spec_len(),
    {
        self.len as u64
    }
}

/// The bytes left in the page that translates an address, from that address on.
pub open spec fn page_room(t: Virt2Phys) -> int {
    t.size - (t.paddr - t.page_paddr)
}

/// The `length` bytes from `vaddr` cut at page ends: each piece runs from its start to the end of
/// the page that translates it, or to the end of the bytes, and starts at the physical address
/// that its start translates to.
pub open spec fn ref_pieces(map: PhysMap, vaddr: int, length: int) -> Seq<ScatterGatherEntry>
    decreases length,
{
    if length <= 0 {
        Seq::empty()
    } else {
        let t = map.virt2phys_spec(vaddr as usize);
        let n = if page_room(t) < length { page_room(t) } else { length };
        if n <= 0 {
            Seq::empty()
        } else {
            seq![ScatterGatherEntry { paddr: t.paddr, vaddr: vaddr as usize, size: n as usize }] + ref_pieces(
                map,
                vaddr + n,
                length - n,
            )
        }
    }
}

/// Each of `runs` cut into entries of at most `max` bytes, in order.
pub open spec fn cut_runs(runs: Seq<ScatterGatherEntry>, max: nat) -> Seq<ScatterGatherEntry>
    decreases runs.len(),
{
    if runs.len() == 0 {
        Seq::empty()
    } else {
        cut_runs(runs.drop_last(), max) + split_entries(runs.last().vaddr, runs.last().paddr, runs.last().size as nat, max, true)
    }
}

/// `pieces` with each piece merged into the one before it where it continues it in physical
/// memory.
pub open spec fn merge_pieces(pieces: Seq<ScatterGatherEntry>) -> Seq<ScatterGatherEntry>
    decreases pieces.len(),
{
    if pieces.len() == 0 {
        Seq::empty()
    } else {
        let m = merge_pieces(pieces.drop_last());
        let p = pieces.last();
        if m.len() > 0 && p.paddr == m.last().paddr + m.last().size {
            m.update(m.len() - 1, ScatterGatherEntry { size: (m.last().size + p.size) as usize, ..m.last() })
        } else {
            m.push(p)
        }
    }
}

proof fn lemma_merge_nonempty(pieces: Seq<ScatterGatherEntry>)
    requires
        pieces.len() > 0,
    ensures
        merge_pieces(pieces).len() > 0,
    decreases pieces.len(),
{
    if pieces.len() > 1 {
        lemma_merge_nonempty(pieces.drop_last());
    }
}

/// `s` covers the `len` bytes from virtual address `v0` in order, with no gap, overlap or empty
/// entry: the first entry starts at `v0`, each next one starts where the one before it ends,
/// and the last one ends at `v0 + len`.
pub open spec fn tiles(s: Seq<ScatterGatherEntry>, v0: int, len: int) -> bool {
    &&& s.len() == 0 ==> len == 0
    &&& s.len() > 0 ==> s[0].vaddr == v0 && s.last().vaddr + s.last().size == v0 + len
    &&& forall|i: int, j: int| 0 <= i && j == i + 1 && j < s.len()
        ==> #[trigger] s[j].vaddr == #[trigger] s[i].vaddr + s[i].size
    &&& forall|i: int| 0 <= i < s.len() ==> (#[trigger] s[i]).size > 0
}

/// The sizes of the entries of `s`, added up.
pub open spec fn total_size(s: Seq<ScatterGatherEntry>) -> int
    decreases s.len(),
{
    if s.len() == 0 {
        0
    } else {
        total_size(s.drop_last()) + s.last().size
    }
}

/// The sizes of a tiling add up to the bytes it covers.
proof fn lemma_tiles_total(s: Seq<ScatterGatherEntry>, v0: int, len: int)
    requires
        tiles(s, v0, len),
    ensures
        total_size(s) == len,
    decreases s.len(),
{
    if s.len() > 0 {
        lemma_tiles_drop_last(s, v0, len);
        lemma_tiles_total(s.drop_last(), v0, len - s.last().size);
    }
}

/// In a tiling, an entry ends at or before every later one starts.
proof fn lemma_tiles_order(s: Seq<ScatterGatherEntry>, v0: int, len: int, i: int, j: int)
    requires
        tiles(s, v0, len),
        0 <= i < j < s.len(),
    ensures
        s[i].vaddr + s[i].size <= s[j].vaddr,
    decreases j - i,
{
    if j > i + 1 {
        lemma_tiles_order(s, v0, len, i, j - 1);
        assert(s[j].vaddr == s[j - 1].vaddr + s[j - 1].size);
        assert(s[j - 1].size > 0);
    } else {
        assert(s[j].vaddr == s[i].vaddr + s[i].size);
    }
}

/// Every entry of a tiling lies within the bytes it covers.
proof fn lemma_tiles_bounds(s: Seq<ScatterGatherEntry>, v0: int, len: int)
    requires
        tiles(s, v0, len),
    ensures
        len >= 0,
        forall|i: int| 0 <= i < s.len() ==> v0 <= #[trigger] s[i].vaddr && s[i].vaddr + s[i].size <= v0 + len,
{
    if s.len() > 0 {
        assert(s[0].size > 0);
        assert forall|i: int| 0 <= i < s.len() implies v0 <= #[trigger] s[i].vaddr && s[i].vaddr + s[i].size <= v0 + len by {
            if i > 0 {
                lemma_tiles_order(s, v0, len, 0, i);
            }
            if i < s.len() - 1 {
                lemma_tiles_order(s, v0, len, i, s.len() - 1);
                assert(s[s.len() - 1].size > 0);
            }
        }
    }
}

/// A tiling without its last entry tiles the bytes before that entry.
proof fn lemma_tiles_drop_last(s: Seq<ScatterGatherEntry>, v0: int, len: int)
    requires
        tiles(s, v0, len),
        s.len() > 0,
    ensures
        tiles(s.drop_last(), v0, len - s.last().size),
{
    let d = s.drop_last();
    if d.len() > 0 {
        assert(s[d.len() as int].vaddr == s[d.len() - 1].vaddr + s[d.len() - 1].size);
    }
    assert forall|i: int, j: int| 0 <= i && j == i + 1 && j < d.len()
        implies #[trigger] d[j].vaddr == #[trigger] d[i].vaddr + d[i].size by {
        assert(s[j].vaddr == s[i].vaddr + s[i].size);
    }
    assert forall|i: int| 0 <= i < d.len() implies (#[trigger] d[i]).size > 0 by {
        assert(s[i].size > 0);
    }
}

/// Two tilings of adjacent byte ranges, one after the other, tile both ranges.
proof fn lemma_tiles_concat(a: Seq<ScatterGatherEntry>, b: Seq<ScatterGatherEntry>, v0: int, la: int, lb: int)
    requires
        tiles(a, v0, la),
        tiles(b, v0 + la, lb),
    ensures
        tiles(a + b, v0, la + lb),
{
    let c = a + b;
    lemma_tiles_bounds(a, v0, la);
    lemma_tiles_bounds(b, v0 + la, lb);
    if b.len() > 0 {
        assert(c.last() == b.last());
    }
    if a.len() == 0 {
        assert(c =~= b);
    }
    if a.len() > 0 {
        assert(c[0] == a[0]);
        if b.len() == 0 {
            assert(c =~= a);
        }
    }
    assert forall|i: int, j: int| 0 <= i && j == i + 1 && j < c.len()
        implies #[trigger] c[j].vaddr == #[trigger] c[i].vaddr + c[i].size by {
        if j < a.len() {
            assert(a[j].vaddr == a[i].vaddr + a[i].size);
        } else if i >= a.len() {
            assert(b[j - a.len()].vaddr == b[i - a.len()].vaddr + b[i - a.len()].size);
        } else {
            assert(c[i] == a.last());
            assert(c[j] == b[0]);
        }
    }
    assert forall|i: int| 0 <= i < c.len() implies (#[trigger] c[i]).size > 0 by {
        if i < a.len() {
            assert(a[i].size > 0);
        } else {
            assert(b[i - a.len()].size > 0);
        }
    }
}

/// The pieces of `length` bytes from `vaddr`, cut at page ends, tile those bytes.
proof fn lemma_ref_pieces_tile(map: PhysMap, vaddr: int, length: int)
    requires
        map.wf(),
        0 <= vaddr,
        0 <= length,
        vaddr + length <= usize::MAX,
    ensures
        tiles(ref_pieces(map, vaddr, length), vaddr, length),
    decreases length,
{
    if length > 0 {
        let t = map.virt2phys_spec(vaddr as usize);
        map.lemma_v2p_ok(vaddr as usize);
        let n = if page_room(t) < length { page_room(t) } else { length };
        assert(n > 0);
        let x = ScatterGatherEntry { paddr: t.paddr, vaddr: vaddr as usize, size: n as usize };
        lemma_ref_pieces_tile(map, vaddr + n, length - n);
        assert(tiles(seq![x], vaddr, n));
        lemma_tiles_concat(seq![x], ref_pieces(map, vaddr + n, length - n), vaddr, n, length - n);
    }
}

/// Merging the pieces that continue one another in physical memory keeps the tiling.
proof fn lemma_merge_tiles(s: Seq<ScatterGatherEntry>, v0: int, len: int)
    requires
        tiles(s, v0, len),
        v0 + len <= usize::MAX,
    ensures
        tiles(merge_pieces(s), v0, len),
    decreases s.len(),
{
    if s.len() > 0 {
        let p = s.last();
        let d = s.drop_last();
        lemma_tiles_bounds(s, v0, len);
        assert(p.size > 0);
        lemma_tiles_drop_last(s, v0, len);
        lemma_tiles_bounds(d, v0, len - p.size);
        lemma_merge_tiles(d, v0, len - p.size);
        let m = merge_pieces(d);
        lemma_tiles_bounds(m, v0, len - p.size);
        if m.len() > 0 && p.paddr == m.last().paddr + m.last().size {
            let k = m.len() - 1;
            let e = ScatterGatherEntry { size: (m.last().size + p.size) as usize, ..m.last() };
            let r = m.update(k, e);
            assert(m[k].vaddr >= v0);
            assert(r.last() == e);
            if k > 0 {
                assert(r[0] == m[0]);
            }
            assert forall|i: int, j: int| 0 <= i && j == i + 1 && j < r.len()
                implies #[trigger] r[j].vaddr == #[trigger] r[i].vaddr + r[i].size by {
                assert(m[j].vaddr == m[i].vaddr + m[i].size);
            }
            assert forall|i: int| 0 <= i < r.len() implies (#[trigger] r[i]).size > 0 by {
                assert(m[i].size > 0);
            }
        } else {
            let r = m.push(p);
            if m.len() > 0 {
                assert(r[0] == m[0]);
            }
            assert forall|i: int, j: int| 0 <= i && j == i + 1 && j < r.len()
                implies #[trigger] r[j].vaddr == #[trigger] r[i].vaddr + r[i].size by {
                if j < m.len() {
                    assert(m[j].vaddr == m[i].vaddr + m[i].size);
                }
            }
            assert forall|i: int| 0 <= i < r.len() implies (#[trigger] r[i]).size > 0 by {
                if i < m.len() {
                    assert(m[i].size > 0);
                }
            }
        }
    }
}

/// One run cut into pieces of at most `max` bytes tiles the run, with no piece larger than `max`.
proof fn lemma_split_tiles(vaddr: usize, paddr: usize, length: nat, max: nat)
    requires
        length > 0,
        max > 0,
        vaddr + length <= usize::MAX,
    ensures
        tiles(split_entries(vaddr, paddr, length, max, true), vaddr as int, length as int),
        forall|i: int| 0 <= i < split_entries(vaddr, paddr, length, max, true).len()
            ==> (#[trigger] split_entries(vaddr, paddr, length, max, true)[i]).size <= max,
{
    let s = split_entries(vaddr, paddr, length, max, true);
    let c = piece_count(length, max) as int;
    assert(c >= 1 && (c - 1) * max < length && length <= c * max) by (nonlinear_arith)
        requires
            c == (length + max - 1) / (max as int),
            max > 0,
            length > 0,
    ;
    assert forall|i: int| 0 <= i < c implies (#[trigger] s[i]).size > 0 && s[i].size <= max
        && s[i].vaddr == vaddr + i * max && (i + 1 < c ==> s[i].size == max) by {
        assert(0 <= i * max <= (c - 1) * max) by (nonlinear_arith)
            requires
                0 <= i <= c - 1,
                max > 0,
        ;
        if i + 1 < c {
            assert((i + 1) * max <= (c - 1) * max) by (nonlinear_arith)
                requires
                    i + 1 <= c - 1,
                    max > 0,
            ;
            assert((i + 1) * max == i * max + max) by (nonlinear_arith);
        }
    }
    assert forall|i: int, j: int| 0 <= i && j == i + 1 && j < s.len()
        implies #[trigger] s[j].vaddr == #[trigger] s[i].vaddr + s[i].size by {
        assert(j * max == i * max + max) by (nonlinear_arith)
            requires
                j == i + 1,
        ;
    }
    assert(c * max == (c - 1) * max + max) by (nonlinear_arith);
    assert(s[c - 1].size > 0);
    assert(s[c - 1].vaddr + s[c - 1].size == vaddr + length);
}

/// Lists whose entries have the same sizes add up alike.
proof fn lemma_total_same_sizes(s: Seq<ScatterGatherEntry>, t: Seq<ScatterGatherEntry>)
    requires
        s.len() == t.len(),
        forall|i: int| 0 <= i < s.len() ==> (#[trigger] s[i]).size == t[i].size,
    ensures
        total_size(s) == total_size(t),
    decreases s.len(),
{
    if s.len() > 0 {
        lemma_total_same_sizes(s.drop_last(), t.drop_last());
    }
}

/// Cutting `length` bytes into pieces of at most `max` bytes gives pieces of 1 to `max` bytes
/// that add up to `length`. Advancing, they cover the bytes from `vaddr` in order with no gap or
/// overlap, and each lies as far from `paddr` as from `vaddr`, so that virtual and physical
/// bytes correspond one to one; not advancing, every piece starts at `vaddr` and `paddr`.
pub proof fn lemma_split_entries_cover(vaddr: usize, paddr: usize, length: nat, max: nat, advance: bool)
    requires
        max > 0,
        vaddr + length <= usize::MAX,
        paddr + length <= usize::MAX,
    ensures
        ({
            let s = split_entries(vaddr, paddr, length, max, advance);
            &&& forall|i: int| 0 <= i < s.len() ==> 0 < (#[trigger] s[i]).size <= max
            &&& total_size(s) == length
            &&& advance ==> tiles(s, vaddr as int, length as int)
            &&& advance ==> forall|i: int| 0 <= i < s.len() ==> (#[trigger] s[i]).paddr - paddr == s[i].vaddr - vaddr
            &&& !advance ==> forall|i: int| 0 <= i < s.len() ==> (#[trigger] s[i]).vaddr == vaddr && s[i].paddr == paddr
        }),
{
    let s = split_entries(vaddr, paddr, length, max, advance);
    let a = split_entries(vaddr, paddr, length, max, true);
    if length == 0 {
        assert(piece_count(length, max) == 0) by (nonlinear_arith)
            requires
                piece_count(length, max) == (length + max - 1) / (max as int),
                length == 0,
                max > 0,
        ;
        assert(s.len() == 0);
    } else {
        lemma_split_tiles(vaddr, paddr, length, max);
        lemma_tiles_total(a, vaddr as int, length as int);
        assert forall|i: int| 0 <= i < s.len() implies (#[trigger] s[i]).size == a[i].size by {}
        lemma_total_same_sizes(s, a);
        if advance {
            assert forall|i: int| 0 <= i < s.len() implies (#[trigger] s[i]).paddr - paddr == s[i].vaddr - vaddr by {
                let c = piece_count(length, max) as int;
                assert(0 <= i * max < length) by (nonlinear_arith)
                    requires
                        c == (length + max - 1) / (max as int),
                        0 <= i < c,
                        max > 0,
                        length > 0,
                ;
            }
        }
    }
}

/// Cutting tiling runs into pieces of at most `max` bytes keeps the tiling.
proof fn lemma_cut_tiles(runs: Seq<ScatterGatherEntry>, v0: int, len: int, max: nat)
    requires
        tiles(runs, v0, len),
        v0 + len <= usize::MAX,
        max > 0,
    ensures
        tiles(cut_runs(runs, max), v0, len),
        forall|i: int| 0 <= i < cut_runs(runs, max).len() ==> (#[trigger] cut_runs(runs, max)[i]).size <= max,
    decreases runs.len(),
{
    if runs.len() > 0 {
        let p = runs.last();
        lemma_tiles_bounds(runs, v0, len);
        assert(p.size > 0);
        lemma_tiles_drop_last(runs, v0, len);
        lemma_cut_tiles(runs.drop_last(), v0, len - p.size, max);
        lemma_split_tiles(p.vaddr, p.paddr, p.size as nat, max);
        let a = cut_runs(runs.drop_last(), max);
        let b = split_entries(p.vaddr, p.paddr, p.size as nat, max, true);
        lemma_tiles_concat(a, b, v0, len - p.size, p.size as int);
        assert forall|i: int| 0 <= i < (a + b).len() implies (#[trigger] (a + b)[i]).size <= max by {
            if i < a.len() {
                assert(a[i].size <= max);
            } else {
                assert(b[i - a.len()].size <= max);
            }
        }
    }
}

/// The entries that collecting `length` bytes from `vaddr` gives cover those bytes in order,
/// with no gap, overlap or empty entry; their sizes add up to `length`, and none is larger than
/// `max` bytes.
pub proof fn lemma_collect_tiles(map: PhysMap, vaddr: int, length: int, max: nat)
    requires
        map.wf(),
        0 <= vaddr,
        0 <= length,
        vaddr + length <= usize::MAX,
        max > 0,
    ensures
        tiles(cut_runs(merge_pieces(ref_pieces(map, vaddr, length)), max), vaddr, length),
        total_size(cut_runs(merge_pieces(ref_pieces(map, vaddr, length)), max)) == length,
        forall|i: int| 0 <= i < cut_runs(merge_pieces(ref_pieces(map, vaddr, length)), max).len()
            ==> (#[trigger] cut_runs(merge_pieces(ref_pieces(map, vaddr, length)), max)[i]).size <= max,
{
    lemma_ref_pieces_tile(map, vaddr, length);
    lemma_merge_tiles(ref_pieces(map, vaddr, length), vaddr, length);
    lemma_cut_tiles(merge_pieces(ref_pieces(map, vaddr, length)), vaddr, length, max);
    lemma_tiles_total(cut_runs(merge_pieces(ref_pieces(map, vaddr, length)), max), vaddr, length);
}

/// A DMA buffer given by where it lies in kernel virtual memory; its physical pages are looked
/// up in the kernel's page tables.
pub struct DmaFromRef {
    vaddr: usize,
    len: usize,
    scatter: bool,
}

impl DmaFromRef {
    /// The buffer lies in the address space.
    #[verifier::type_invariant]
    spec fn inv(self) -> bool {
        self.vaddr + self.len <= usize::MAX
    }

    /// Virtual address of the buffer.
    pub closed spec fn spec_vaddr(&self) -> usize {
        self.vaddr
    }

    /// Length of the buffer in bytes.
    pub closed spec fn spec_len(&self) -> usize {
        self.len
    }

    /// Whether DMA writes into the buffer.
    pub closed spec fn is_scatter(&self) -> bool {
        self.scatter
    }

    /// The `len` bytes at `vaddr` as a buffer that DMA reads from.
    pub fn from_ref(vaddr: usize, len: usize) -> (r: Self)
        requires
            vaddr + len <= usize::MAX,
        ensures
            r.spec_vaddr() == vaddr,
            r.spec_len() == len,
            !r.is_scatter(),
    {
        DmaFromRef { vaddr, len, scatter: false }
    }

    /// The `len` bytes at `vaddr` as a buffer that DMA writes into.
    pub fn from_mut(vaddr: usize, len: usize) -> (r: Self)
        requires
            vaddr + len <= usize::MAX,
        ensures
            r.spec_vaddr() == vaddr,
            r.spec_len() == len,
            r.is_scatter(),
    {
        DmaFromRef { vaddr, len, scatter: true }
    }

    /// Collect `length` bytes from `offset` into entries that are each contiguous in physical
    /// memory as the kernel's page tables translate them, of at most `max_entry_size` bytes
    /// each: every physically contiguous run is cut into pieces of that size from its start.
    /// `EINVAL` if that runs past the end of the buffer.
    pub fn collect(&self, offset: u64, length: u64, max_entry_size: usize, kernel: &KernelVmSpace) -> (r: EResult<Vec<ScatterGatherEntry>>)
        requires
            offset + length <= u64::MAX,
            kernel.inner().wf(),
            offset + length <= self.spec_len() && length > 0 ==> max_entry_size > 0,
        ensures
            offset + length > self.spec_len() ==> r == Err::<Vec<ScatterGatherEntry>, Errno>(Errno::EINVAL),
            offset + length <= self.spec_len() ==> r is Ok && r->Ok_0@ == cut_runs(
                merge_pieces(ref_pieces(kernel.inner().page_map(), self.spec_vaddr() + offset, length as int)),
                max_entry_size as nat,
            ),
            offset + length <= self.spec_len() && length > 0 ==> {
                let s = r->Ok_0@;
                &&& tiles(s, self.spec_vaddr() + offset, length as int)
                &&& total_size(s) == length
                &&& forall|i: int| 0 <= i < s.len() ==> (#[trigger] s[i]).size <= max_entry_size
            },
    {
        proof {
            use_type_invariant(self);
        }
        if offset + length > self.len as u64 {
            return Err(Errno::EINVAL);
        }
        let ghost map = kernel.inner().page_map();
        proof {
            if length > 0 {
                kernel.inner().lemma_wf_page_map();
                lemma_collect_tiles(map, self.vaddr + offset, length as int, max_entry_size as nat);
            }
        }
        let v0 = self.vaddr + offset as usize;
        let total = length as usize;
        let mut v = v0;
        let mut rest = total;
        let mut out: Vec<ScatterGatherEntry> = Vec::new();
        let mut cur: Option<ScatterGatherEntry> = None;
        let ghost mut done: Seq<ScatterGatherEntry> = Seq::empty();
        while rest > 0
            invariant
                kernel.inner().wf(),
                map == kernel.inner().page_map(),
                v0 + total <= usize::MAX,
                v + rest == v0 + total,
                rest <= total,
                total > 0 ==> max_entry_size > 0,
                forall|i: int| 0 <= i < out@.len() ==> (#[trigger] out@[i]).vaddr + out@[i].size <= v
                    && out@[i].paddr + out@[i].size <= usize::MAX + 1,
                cur matches Some(c) ==> c.vaddr + c.size == v && c.paddr + c.size <= usize::MAX + 1,
                ref_pieces(map, v0 as int, total as int) == done + ref_pieces(map, v as int, rest as int),
                cur is None ==> done.len() == 0 && out@.len() == 0,
                cur matches Some(c) ==> out@.push(c) == merge_pieces(done),
                cur matches Some(c) ==> c.size <= total - rest,
            decreases rest,
        {
            let t = kernel.virt2phys(v);
            proof {
                kernel.inner().lemma_v2p_ok(v);
            }
            let room = t.size - (t.paddr - t.page_paddr);
            let n = if room < rest { room } else { rest };
            let piece = ScatterGatherEntry { paddr: t.paddr, vaddr: v, size: n };
            let ghost before = done;
            proof {
                done = done.push(piece);
                assert(done.drop_last() =~= before);
                assert(ref_pieces(map, v as int, rest as int) == seq![piece] + ref_pieces(map, v + n, rest - n));
                assert(before + (seq![piece] + ref_pieces(map, v + n, rest - n)) =~= done + ref_pieces(map, v + n, rest - n));
            }
            match cur {
                Some(c) => {
                    proof {
                        lemma_merge_nonempty(done);
                    }
                    if t.paddr >= c.paddr && t.paddr - c.paddr == c.size {
                        cur = Some(ScatterGatherEntry { size: c.size + n, ..c });
                        proof {
                            assert(done.last() == piece);
                            assert(merge_pieces(before) == out@.push(c));
                            assert(merge_pieces(done) == out@.push(c).update(out@.len() as int, ScatterGatherEntry { size: (c.size + n) as usize, ..c }));
                            assert(out@.push(c).update(out@.len() as int, ScatterGatherEntry { size: (c.size + n) as usize, ..c }) =~= out@.push(
                                ScatterGatherEntry { size: (c.size + n) as usize, ..c },
                            ));
                        }
                    } else {
                        let ghost out0 = out@;
                        out.push(c);
                        cur = Some(piece);
                        proof {
                            assert(done.last() == piece);
                            assert(merge_pieces(before) == out0.push(c));
                            assert(merge_pieces(done) == out0.push(c).push(piece));
                        }
                    }
                },
                None => {
                    cur = Some(piece);
                    proof {
                        assert(done =~= seq![piece]);
                        assert(merge_pieces(done.drop_last()) =~= Seq::<ScatterGatherEntry>::empty());
                        assert(out@.push(piece) =~= merge_pieces(done));
                    }
                },
            }
            v = v + n;
            rest = rest - n;
        }
        match cur {
            Some(c) => {
                out.push(c);
            },
            None => {},
        }
        proof {
            assert(done + ref_pieces(map, v as int, 0) =~= done);
        }
        // Cut every run into entries of at most `max_entry_size` bytes.
        let runs = out;
        let mut res: Vec<ScatterGatherEntry> = Vec::new();
        let mut i: usize = 0;
        proof {
            assert(runs@.take(0) =~= Seq::<ScatterGatherEntry>::empty());
        }
        while i < runs.len()
            invariant
                i <= runs@.len(),
                runs@.len() > 0 ==> max_entry_size > 0,
                forall|j: int| 0 <= j < runs@.len() ==> (#[trigger] runs@[j]).vaddr + runs@[j].size <= usize::MAX + 1
                    && runs@[j].paddr + runs@[j].size <= usize::MAX + 1,
                res@ == cut_runs(runs@.take(i as int), max_entry_size as nat),
            decreases runs@.len() - i,
        {
            let e = runs[i];
            let mut pieces = split(e.vaddr, e.paddr, e.size, max_entry_size, true);
            res.append(&mut pieces);
            proof {
                assert(runs@.take(i + 1).drop_last() =~= runs@.take(i as int));
                assert(runs@.take(i + 1).last() == e);
            }
            i = i + 1;
        }
        proof {
            assert(runs@.take(runs@.len() as int) =~= runs@);
        }
        Ok(res)
    }
}

impl DmaTarget for DmaFromRef {
    fn allow_scatter(&self) -> (r: bool)
        ensures
            r == self.is_scatter(),
    {
        self.scatter
    }

    fn allow_gather(&self) -> (r: bool)
        ensures
            r == !self.is_scatter(),
    {
        !self.scatter
    }

    fn size(&self) -> (r: u64)
        ensures
            r == self.spec_len(),
    {
        self.len as u64
    }
}

} // verus!
